//! `ReadArena`: read-only access to an arena, for code that only walks a
//! built tree.

use vstd::prelude::*;
use vstd::string::*;
use vstd::utf8::*;
use crate::arena::{Arena, ArenaNode, StringRef};

verus! {

pub trait ReadArena {
    /// The arena can be read: every node names slices inside its tables.
    spec fn readable(&self) -> bool;

    spec fn node_count(&self) -> nat;

    spec fn node_at(&self, id: int) -> ArenaNode;

    spec fn children_at(&self, id: int) -> Seq<u32>;

    spec fn type_data_at(&self, id: int) -> Seq<u8>;

    /// The pool bytes a string reference names, if it names valid UTF-8.
    spec fn str_at(&self, sr: StringRef) -> Option<Seq<u8>>;

    spec fn source_chars(&self) -> Seq<char>;

    spec fn node_data_at(&self, id: int) -> Option<Seq<u8>>;

    fn get_node(&self, node_id: u32) -> (n: &ArenaNode)
        requires
            node_id < self.node_count(),
        ensures
            *n == self.node_at(node_id as int),
    ;

    fn get_children(&self, node_id: u32) -> (c: &[u32])
        requires
            self.readable(),
            node_id < self.node_count(),
        ensures
            c@ == self.children_at(node_id as int),
    ;

    fn get_type_data(&self, node_id: u32) -> (d: &[u8])
        requires
            self.readable(),
            node_id < self.node_count(),
        ensures
            d@ == self.type_data_at(node_id as int),
    ;

    fn get_str(&self, string_ref: StringRef) -> (s: &str)
        requires
            self.str_at(string_ref) is Some,
        ensures
            self.str_at(string_ref) == Some(s.spec_bytes()),
    ;

    fn source(&self) -> (s: &str)
        ensures
            s@ == self.source_chars(),
    ;

    fn len(&self) -> (n: usize)
        ensures
            n == self.node_count(),
    ;

    fn is_empty(&self) -> (b: bool)
        ensures
            b == (self.node_count() == 0),
    {
        self.len() == 0
    }

    /// Per-node data blob set by plugins.
    fn get_node_data(&self, node_id: u32) -> (d: Option<&[u8]>)
        requires
            self.readable(),
            node_id < self.node_count(),
        ensures
            d matches Some(s) ==> self.node_data_at(node_id as int) == Some(s@),
        default_ensures
            d is None,
    {
        None
    }
}

impl ReadArena for Arena {
    open spec fn readable(&self) -> bool {
        self.wf()
    }

    open spec fn node_count(&self) -> nat {
        self.spec_len()
    }

    open spec fn node_at(&self, id: int) -> ArenaNode {
        self.node(id)
    }

    open spec fn children_at(&self, id: int) -> Seq<u32> {
        self.children_of(id)
    }

    open spec fn type_data_at(&self, id: int) -> Seq<u8> {
        self.type_data_of(id)
    }

    open spec fn str_at(&self, sr: StringRef) -> Option<Seq<u8>> {
        if self.valid_str_ref(sr) {
            Some(self.str_bytes(sr))
        } else {
            None
        }
    }

    open spec fn source_chars(&self) -> Seq<char> {
        self.source_view()
    }

    open spec fn node_data_at(&self, id: int) -> Option<Seq<u8>> {
        self.node_data_of(id)
    }

    fn get_node(&self, node_id: u32) -> (n: &ArenaNode) {
        Arena::get_node(self, node_id)
    }

    fn get_children(&self, node_id: u32) -> (c: &[u32]) {
        Arena::get_children(self, node_id)
    }

    fn get_type_data(&self, node_id: u32) -> (d: &[u8]) {
        Arena::get_type_data(self, node_id)
    }

    fn get_str(&self, string_ref: StringRef) -> (s: &str) {
        Arena::get_str(self, string_ref)
    }

    fn source(&self) -> (s: &str) {
        Arena::source(self)
    }

    fn len(&self) -> (n: usize) {
        Arena::len(self)
    }

    fn get_node_data(&self, node_id: u32) -> (d: Option<&[u8]>)
        ensures
            d is None ==> self.node_data_at(node_id as int) is None,
    {
        Arena::get_node_data(self, node_id)
    }
}

} // verus!
