//! `Arena`: the owner of every node of a document tree, of the flat
//! children table, of the per-node type data and of the string pool.

use vstd::prelude::*;
use vstd::string::*;
use vstd::utf8::*;
use crate::text::str_from_utf8;

verus! {

/// Parent id of a node that has no parent (a root, or a node still open).
pub const NO_PARENT: u32 = 0xFFFF_FFFFu32;

/// A reference to a byte range of the arena's string pool.
#[derive(Clone, Copy, Debug, PartialEq, Eq, Structural)]
pub struct StringRef {
    pub offset: u32,
    pub len: u32,
}

impl StringRef {
    /// The reference to the empty string.
    pub fn empty() -> (r: StringRef)
        ensures
            r.offset == 0 && r.len == 0,
    {
        StringRef { offset: 0, len: 0 }
    }

    pub fn new(offset: u32, len: u32) -> (r: StringRef)
        ensures
            r.offset == offset && r.len == len,
    {
        StringRef { offset, len }
    }
}

/// One node of the tree. Children and type data live in the arena's flat
/// tables; the node records where its slice of each table starts and how long
/// it is.
#[derive(Clone, Copy, Debug, PartialEq, Eq, Structural)]
pub struct ArenaNode {
    pub node_type: u8,
    pub parent: u32,
    pub children_start: u32,
    pub children_len: u32,
    pub data_offset: u32,
    pub data_len: u32,
    pub start_offset: u32,
    pub end_offset: u32,
    pub start_line: u32,
    pub start_column: u32,
    pub end_line: u32,
    pub end_column: u32,
}

/// The node that `alloc_node` appends: no parent, no children, no data, no
/// position.
pub open spec fn fresh_node(node_type: u8) -> ArenaNode {
    ArenaNode {
        node_type,
        parent: NO_PARENT,
        children_start: 0,
        children_len: 0,
        data_offset: 0,
        data_len: 0,
        start_offset: 0,
        end_offset: 0,
        start_line: 0,
        start_column: 0,
        end_line: 0,
        end_column: 0,
    }
}

pub struct Arena {
    source: String,
    nodes: Vec<ArenaNode>,
    children: Vec<u32>,
    type_data: Vec<u8>,
    string_pool: Vec<u8>,
    node_data: Vec<Option<Vec<u8>>>,
}

impl Arena {
    pub closed spec fn source_view(&self) -> Seq<char> {
        self.source@
    }

    pub closed spec fn nodes_view(&self) -> Seq<ArenaNode> {
        self.nodes@
    }

    /// The flat children table.
    pub closed spec fn children_view(&self) -> Seq<u32> {
        self.children@
    }

    /// The flat type-data table.
    pub closed spec fn type_data_view(&self) -> Seq<u8> {
        self.type_data@
    }

    pub closed spec fn pool_view(&self) -> Seq<u8> {
        self.string_pool@
    }

    pub closed spec fn node_data_of(&self, id: int) -> Option<Seq<u8>> {
        match self.node_data@[id] {
            Some(v) => Some(v@),
            None => None,
        }
    }

    /// `self` and `other` hold the same source, nodes, tables and node data.
    pub open spec fn same_contents(&self, other: Arena) -> bool {
        &&& self.source_view() == other.source_view()
        &&& self.nodes_view() == other.nodes_view()
        &&& self.children_view() == other.children_view()
        &&& self.type_data_view() == other.type_data_view()
        &&& self.pool_view() == other.pool_view()
        &&& forall|i: int|
            0 <= i < self.spec_len() ==> #[trigger] self.node_data_of(i) == other.node_data_of(i)
    }

    pub open spec fn spec_len(&self) -> nat {
        self.nodes_view().len()
    }

    pub open spec fn node(&self, id: int) -> ArenaNode {
        self.nodes_view()[id]
    }

    /// The children of node `id`, in order.
    pub open spec fn children_of(&self, id: int) -> Seq<u32> {
        let n = self.node(id);
        self.children_view().subrange(
            n.children_start as int,
            n.children_start + n.children_len,
        )
    }

    /// The type data of node `id`.
    pub open spec fn type_data_of(&self, id: int) -> Seq<u8> {
        let n = self.node(id);
        self.type_data_view().subrange(n.data_offset as int, n.data_offset + n.data_len)
    }

    /// The pool bytes that `sr` names.
    pub open spec fn str_bytes(&self, sr: StringRef) -> Seq<u8> {
        self.pool_view().subrange(sr.offset as int, sr.offset + sr.len)
    }

    /// `sr` names valid UTF-8 inside the pool.
    pub open spec fn valid_str_ref(&self, sr: StringRef) -> bool {
        &&& sr.offset + sr.len <= self.pool_view().len()
        &&& valid_utf8(self.str_bytes(sr))
    }

    /// Every slice a node names lies inside its table, and every table is
    /// addressable by `u32` offsets.
    pub closed spec fn wf(&self) -> bool {
        &&& self.nodes@.len() == self.node_data@.len()
        &&& self.nodes@.len() <= u32::MAX
        &&& self.children@.len() <= u32::MAX
        &&& self.type_data@.len() <= u32::MAX
        &&& self.string_pool@.len() <= u32::MAX
        &&& forall|i: int|
            0 <= i < self.nodes@.len() ==> #[trigger] self.nodes@[i].children_start
                + self.nodes@[i].children_len <= self.children@.len()
        &&& forall|i: int|
            0 <= i < self.nodes@.len() ==> #[trigger] self.nodes@[i].data_offset
                + self.nodes@[i].data_len <= self.type_data@.len()
    }

    pub proof fn lemma_wf_bounds(&self)
        requires
            self.wf(),
        ensures
            self.nodes_view().len() <= u32::MAX,
            self.children_view().len() <= u32::MAX,
            self.type_data_view().len() <= u32::MAX,
            self.pool_view().len() <= u32::MAX,
            forall|i: int|
                0 <= i < self.spec_len() ==> #[trigger] self.node(i).children_start
                    + self.node(i).children_len <= self.children_view().len(),
            forall|i: int|
                0 <= i < self.spec_len() ==> #[trigger] self.node(i).data_offset
                    + self.node(i).data_len <= self.type_data_view().len(),
    {
    }

    pub fn new(source: String) -> (a: Arena)
        ensures
            a.wf(),
            a.source_view() == source@,
            a.nodes_view() == Seq::<ArenaNode>::empty(),
            a.children_view() == Seq::<u32>::empty(),
            a.type_data_view() == Seq::<u8>::empty(),
            a.pool_view() == Seq::<u8>::empty(),
    {
        Arena {
            source,
            nodes: Vec::new(),
            children: Vec::new(),
            type_data: Vec::new(),
            string_pool: Vec::new(),
            node_data: Vec::new(),
        }
    }

    /// Like `new`, with room reserved for the given number of nodes, child
    /// entries and type-data bytes.
    pub fn with_capacity(source: String, nodes: usize, children: usize, type_data: usize) -> (a:
        Arena)
        ensures
            a.wf(),
            a.source_view() == source@,
            a.nodes_view() == Seq::<ArenaNode>::empty(),
            a.children_view() == Seq::<u32>::empty(),
            a.type_data_view() == Seq::<u8>::empty(),
            a.pool_view() == Seq::<u8>::empty(),
    {
        Arena {
            source,
            nodes: Vec::with_capacity(nodes),
            children: Vec::with_capacity(children),
            type_data: Vec::with_capacity(type_data),
            string_pool: Vec::new(),
            node_data: Vec::with_capacity(nodes),
        }
    }

    /// Appends a fresh node and returns its id, which is the old node count.
    pub fn alloc_node(&mut self, node_type: u8) -> (id: u32)
        requires
            old(self).wf(),
            old(self).spec_len() < u32::MAX,
        ensures
            final(self).wf(),
            id == old(self).spec_len(),
            final(self).nodes_view() == old(self).nodes_view().push(fresh_node(node_type)),
            final(self).children_view() == old(self).children_view(),
            final(self).type_data_view() == old(self).type_data_view(),
            final(self).pool_view() == old(self).pool_view(),
            final(self).source_view() == old(self).source_view(),
            final(self).node_data_of(id as int) is None,
            forall|i: int|
                0 <= i < old(self).spec_len() ==> #[trigger] final(self).node_data_of(i)
                    == old(self).node_data_of(i),
    {
        let id = self.nodes.len() as u32;
        self.nodes.push(
            ArenaNode {
                node_type,
                parent: NO_PARENT,
                children_start: 0,
                children_len: 0,
                data_offset: 0,
                data_len: 0,
                start_offset: 0,
                end_offset: 0,
                start_line: 0,
                start_column: 0,
                end_line: 0,
                end_column: 0,
            },
        );
        self.node_data.push(None);
        proof {
            assert forall|i: int| 0 <= i < old(self).spec_len() implies #[trigger] self.node_data_of(
                i,
            ) == old(self).node_data_of(i) by {
                assert(self.node_data@[i] == old(self).node_data@[i]);
            }
        }
        id
    }

    /// Appends `kids` to the children table and makes them the children of
    /// `node_id`.
    pub fn set_children(&mut self, node_id: u32, kids: &[u32])
        requires
            old(self).wf(),
            node_id < old(self).spec_len(),
            old(self).children_view().len() + kids@.len() <= u32::MAX,
        ensures
            final(self).wf(),
            final(self).children_view() == old(self).children_view() + kids@,
            final(self).nodes_view() == old(self).nodes_view().update(
                node_id as int,
                ArenaNode {
                    children_start: old(self).children_view().len() as u32,
                    children_len: kids@.len() as u32,
                    ..old(self).node(node_id as int)
                },
            ),
            final(self).children_of(node_id as int) == kids@,
            final(self).type_data_view() == old(self).type_data_view(),
            final(self).pool_view() == old(self).pool_view(),
            final(self).source_view() == old(self).source_view(),
            forall|i: int|
                0 <= i < old(self).spec_len() ==> #[trigger] final(self).node_data_of(i)
                    == old(self).node_data_of(i),
    {
        let start = self.children.len() as u32;
        let mut k: usize = 0;
        while k < kids.len()
            invariant
                0 <= k <= kids@.len(),
                self.children@ == old(self).children@ + kids@.subrange(0, k as int),
                self.nodes@ == old(self).nodes@,
                self.type_data@ == old(self).type_data@,
                self.string_pool@ == old(self).string_pool@,
                self.node_data@ == old(self).node_data@,
                self.source@ == old(self).source@,
            decreases kids@.len() - k,
        {
            self.children.push(kids[k]);
            k = k + 1;
            assert(kids@.subrange(0, k as int) == kids@.subrange(0, k - 1).push(kids@[k - 1]));
        }
        assert(kids@.subrange(0, kids@.len() as int) == kids@);
        let mut node = self.nodes[node_id as usize];
        node.children_start = start;
        node.children_len = kids.len() as u32;
        self.nodes.set(node_id as usize, node);
        proof {
            assert(self.children@.subrange(start as int, start + kids@.len()) == kids@);
        }
    }

    pub fn set_parent(&mut self, node_id: u32, parent: u32)
        requires
            old(self).wf(),
            node_id < old(self).spec_len(),
        ensures
            final(self).wf(),
            final(self).nodes_view() == old(self).nodes_view().update(
                node_id as int,
                ArenaNode { parent, ..old(self).node(node_id as int) },
            ),
            final(self).children_view() == old(self).children_view(),
            final(self).type_data_view() == old(self).type_data_view(),
            final(self).pool_view() == old(self).pool_view(),
            final(self).source_view() == old(self).source_view(),
            forall|i: int|
                0 <= i < old(self).spec_len() ==> #[trigger] final(self).node_data_of(i)
                    == old(self).node_data_of(i),
    {
        let mut node = self.nodes[node_id as usize];
        node.parent = parent;
        self.nodes.set(node_id as usize, node);
    }

    pub fn set_position(
        &mut self,
        node_id: u32,
        start_offset: u32,
        end_offset: u32,
        start_line: u32,
        start_column: u32,
        end_line: u32,
        end_column: u32,
    )
        requires
            old(self).wf(),
            node_id < old(self).spec_len(),
        ensures
            final(self).wf(),
            final(self).nodes_view() == old(self).nodes_view().update(
                node_id as int,
                ArenaNode {
                    start_offset,
                    end_offset,
                    start_line,
                    start_column,
                    end_line,
                    end_column,
                    ..old(self).node(node_id as int)
                },
            ),
            final(self).children_view() == old(self).children_view(),
            final(self).type_data_view() == old(self).type_data_view(),
            final(self).pool_view() == old(self).pool_view(),
            final(self).source_view() == old(self).source_view(),
            forall|i: int|
                0 <= i < old(self).spec_len() ==> #[trigger] final(self).node_data_of(i)
                    == old(self).node_data_of(i),
    {
        let mut node = self.nodes[node_id as usize];
        node.start_offset = start_offset;
        node.end_offset = end_offset;
        node.start_line = start_line;
        node.start_column = start_column;
        node.end_line = end_line;
        node.end_column = end_column;
        self.nodes.set(node_id as usize, node);
    }

    /// Appends `data` to the type-data table and makes it the type data of
    /// `node_id`.
    pub fn set_type_data(&mut self, node_id: u32, data: &[u8])
        requires
            old(self).wf(),
            node_id < old(self).spec_len(),
            old(self).type_data_view().len() + data@.len() <= u32::MAX,
        ensures
            final(self).wf(),
            final(self).type_data_view() == old(self).type_data_view() + data@,
            final(self).nodes_view() == old(self).nodes_view().update(
                node_id as int,
                ArenaNode {
                    data_offset: old(self).type_data_view().len() as u32,
                    data_len: data@.len() as u32,
                    ..old(self).node(node_id as int)
                },
            ),
            final(self).type_data_of(node_id as int) == data@,
            final(self).children_view() == old(self).children_view(),
            final(self).pool_view() == old(self).pool_view(),
            final(self).source_view() == old(self).source_view(),
            forall|i: int|
                0 <= i < old(self).spec_len() ==> #[trigger] final(self).node_data_of(i)
                    == old(self).node_data_of(i),
    {
        let start = self.type_data.len() as u32;
        let mut k: usize = 0;
        while k < data.len()
            invariant
                0 <= k <= data@.len(),
                self.type_data@ == old(self).type_data@ + data@.subrange(0, k as int),
                self.nodes@ == old(self).nodes@,
                self.children@ == old(self).children@,
                self.string_pool@ == old(self).string_pool@,
                self.node_data@ == old(self).node_data@,
                self.source@ == old(self).source@,
            decreases data@.len() - k,
        {
            self.type_data.push(data[k]);
            k = k + 1;
            assert(data@.subrange(0, k as int) == data@.subrange(0, k - 1).push(data@[k - 1]));
        }
        assert(data@.subrange(0, data@.len() as int) == data@);
        let mut node = self.nodes[node_id as usize];
        node.data_offset = start;
        node.data_len = data.len() as u32;
        self.nodes.set(node_id as usize, node);
        proof {
            assert(self.type_data@.subrange(start as int, start + data@.len()) == data@);
        }
    }

    /// Copies the bytes of `s` to the end of the string pool and returns the
    /// reference to them.
    pub fn alloc_string(&mut self, s: &str) -> (r: StringRef)
        requires
            old(self).wf(),
            old(self).pool_view().len() + s.spec_bytes().len() <= u32::MAX,
        ensures
            final(self).wf(),
            final(self).pool_view() == old(self).pool_view() + s.spec_bytes(),
            r.offset == old(self).pool_view().len(),
            r.len == s.spec_bytes().len(),
            final(self).str_bytes(r) == s.spec_bytes(),
            final(self).valid_str_ref(r),
            final(self).nodes_view() == old(self).nodes_view(),
            final(self).children_view() == old(self).children_view(),
            final(self).type_data_view() == old(self).type_data_view(),
            final(self).source_view() == old(self).source_view(),
            forall|i: int|
                0 <= i < old(self).spec_len() ==> #[trigger] final(self).node_data_of(i)
                    == old(self).node_data_of(i),
    {
        let bytes = s.as_bytes();
        let start = self.string_pool.len() as u32;
        let mut k: usize = 0;
        while k < bytes.len()
            invariant
                0 <= k <= bytes@.len(),
                bytes@ == s.spec_bytes(),
                self.string_pool@ == old(self).string_pool@ + bytes@.subrange(0, k as int),
                self.nodes@ == old(self).nodes@,
                self.children@ == old(self).children@,
                self.type_data@ == old(self).type_data@,
                self.node_data@ == old(self).node_data@,
                self.source@ == old(self).source@,
            decreases bytes@.len() - k,
        {
            self.string_pool.push(bytes[k]);
            k = k + 1;
            assert(bytes@.subrange(0, k as int) == bytes@.subrange(0, k - 1).push(bytes@[k - 1]));
        }
        assert(bytes@.subrange(0, bytes@.len() as int) == bytes@);
        let r = StringRef { offset: start, len: bytes.len() as u32 };
        proof {
            assert(self.string_pool@.subrange(start as int, start + bytes@.len()) == bytes@);
            encode_utf8_valid_utf8(s@);
        }
        r
    }

    /// For reclassifying a node after it was built.
    pub fn change_node_type(&mut self, node_id: u32, new_type: u8)
        requires
            old(self).wf(),
            node_id < old(self).spec_len(),
        ensures
            final(self).wf(),
            final(self).nodes_view() == old(self).nodes_view().update(
                node_id as int,
                ArenaNode { node_type: new_type, ..old(self).node(node_id as int) },
            ),
            final(self).children_view() == old(self).children_view(),
            final(self).type_data_view() == old(self).type_data_view(),
            final(self).pool_view() == old(self).pool_view(),
            final(self).source_view() == old(self).source_view(),
            forall|i: int|
                0 <= i < old(self).spec_len() ==> #[trigger] final(self).node_data_of(i)
                    == old(self).node_data_of(i),
    {
        let mut node = self.nodes[node_id as usize];
        node.node_type = new_type;
        self.nodes.set(node_id as usize, node);
    }

    /// Attaches a data blob to a node (replacing any earlier one).
    pub fn set_node_data(&mut self, node_id: u32, data: Vec<u8>)
        requires
            old(self).wf(),
            node_id < old(self).spec_len(),
        ensures
            final(self).wf(),
            final(self).node_data_of(node_id as int) == Some(data@),
            forall|i: int|
                0 <= i < old(self).spec_len() && i != node_id ==> #[trigger] final(self).node_data_of(i) == old(self).node_data_of(i),
            final(self).nodes_view() == old(self).nodes_view(),
            final(self).children_view() == old(self).children_view(),
            final(self).type_data_view() == old(self).type_data_view(),
            final(self).pool_view() == old(self).pool_view(),
            final(self).source_view() == old(self).source_view(),
    {
        self.node_data.set(node_id as usize, Some(data));
    }

    pub fn get_node(&self, node_id: u32) -> (n: &ArenaNode)
        requires
            node_id < self.spec_len(),
        ensures
            *n == self.node(node_id as int),
    {
        &self.nodes[node_id as usize]
    }

    pub fn get_children(&self, node_id: u32) -> (c: &[u32])
        requires
            self.wf(),
            node_id < self.spec_len(),
        ensures
            c@ == self.children_of(node_id as int),
    {
        let n = &self.nodes[node_id as usize];
        let start = n.children_start as usize;
        let end = start + n.children_len as usize;
        vstd::slice::slice_subrange(self.children.as_slice(), start, end)
    }

    pub fn get_type_data(&self, node_id: u32) -> (d: &[u8])
        requires
            self.wf(),
            node_id < self.spec_len(),
        ensures
            d@ == self.type_data_of(node_id as int),
    {
        let n = &self.nodes[node_id as usize];
        let start = n.data_offset as usize;
        let end = start + n.data_len as usize;
        vstd::slice::slice_subrange(self.type_data.as_slice(), start, end)
    }

    /// The string that `sr` names.
    pub fn get_str(&self, sr: StringRef) -> (s: &str)
        requires
            self.valid_str_ref(sr),
        ensures
            s.spec_bytes() == self.str_bytes(sr),
    {
        let pool_len = self.string_pool.len();
        assert(sr.offset + sr.len <= pool_len);
        let start = sr.offset as usize;
        let end = start + sr.len as usize;
        let bytes = vstd::slice::slice_subrange(self.string_pool.as_slice(), start, end);
        match str_from_utf8(bytes) {
            Some(s) => s,
            None => {
                proof {
                    assert(false);
                }
                ""
            },
        }
    }

    pub fn string_pool(&self) -> (p: &[u8])
        ensures
            p@ == self.pool_view(),
    {
        self.string_pool.as_slice()
    }

    pub fn source(&self) -> (s: &str)
        ensures
            s@ == self.source_view(),
    {
        self.source.as_str()
    }

    /// Number of entries in the flat children table.
    pub fn children_table_len(&self) -> (n: usize)
        ensures
            n == self.children_view().len(),
    {
        self.children.len()
    }

    /// Number of bytes in the flat type-data table.
    pub fn type_data_table_len(&self) -> (n: usize)
        ensures
            n == self.type_data_view().len(),
    {
        self.type_data.len()
    }

    pub fn len(&self) -> (n: usize)
        ensures
            n == self.spec_len(),
    {
        self.nodes.len()
    }

    pub fn is_empty(&self) -> (b: bool)
        ensures
            b == (self.spec_len() == 0),
    {
        self.nodes.len() == 0
    }

    pub fn get_node_data(&self, node_id: u32) -> (d: Option<&[u8]>)
        requires
            self.wf(),
            node_id < self.spec_len(),
        ensures
            match d {
                Some(s) => self.node_data_of(node_id as int) == Some(s@),
                None => self.node_data_of(node_id as int) is None,
            },
    {
        match &self.node_data[node_id as usize] {
            Some(v) => Some(v.as_slice()),
            None => None,
        }
    }
}

} // verus!
