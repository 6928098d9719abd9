//! `ArenaBuilder`: builds an `Arena` with an open/close discipline suited to
//! depth-first (SAX-style) tree construction.

use vstd::prelude::*;
use vstd::string::*;
use crate::arena::{Arena, ArenaNode, StringRef, NO_PARENT, fresh_node};

verus! {

/// Stack entries as plain values: the open node's id and the children that
/// were closed inside it so far.
pub open spec fn entry_view(e: (u32, Vec<u32>)) -> (u32, Seq<u32>) {
    (e.0, e.1@)
}

/// Child-table entries that closing every open node will still write: the
/// collected children of each entry, plus one for the entry itself.
pub open spec fn pending_children(s: Seq<(u32, Seq<u32>)>) -> nat
    decreases s.len(),
{
    if s.len() == 0 {
        0
    } else {
        pending_children(s.drop_last()) + s.last().1.len() + 1
    }
}

/// Every node listed as a child of `n` names `n` as its parent.
pub open spec fn parent_links_hold(a: Arena) -> bool {
    forall|n: int, k: int|
        0 <= n < a.spec_len() && 0 <= k < a.children_of(n).len() ==> {
            &&& (#[trigger] a.children_of(n)[k] as int) < a.spec_len()
            &&& a.node(a.children_of(n)[k] as int).parent == n
        }
}

/// Every node of `a0` keeps its node data in `a1`.
pub open spec fn node_data_kept(a0: Arena, a1: Arena) -> bool {
    forall|i: int| 0 <= i < a0.spec_len() ==> #[trigger] a1.node_data_of(i) == a0.node_data_of(i)
}

/// The children that closing every open node gives stack entry `i`: what it
/// collected, then the node opened just above it, if any.
pub open spec fn closed_children(s: Seq<(u32, Seq<u32>)>, i: int) -> Seq<u32> {
    if i + 1 < s.len() {
        s[i].1.push(s[i + 1].0)
    } else {
        s[i].1
    }
}

/// While the entries from `m` up are closed, what entry `i` below `m` holds:
/// the top one (`m - 1`) has gained the node above it.
pub open spec fn open_entry_children(s: Seq<(u32, Seq<u32>)>, i: int, m: int) -> Seq<u32> {
    if i == m - 1 {
        closed_children(s, i)
    } else {
        s[i].1
    }
}

/// Whether `x` is the id of an entry of `s`.
pub open spec fn open_in(s: Seq<(u32, Seq<u32>)>, x: int) -> bool {
    exists|i: int| 0 <= i < s.len() && s[i].0 == x
}

/// `x` and `y` agree on everything but the parent and the children slice.
pub open spec fn same_payload(x: ArenaNode, y: ArenaNode) -> bool {
    x == ArenaNode {
        parent: x.parent,
        children_start: x.children_start,
        children_len: x.children_len,
        ..y
    }
}

pub struct ArenaBuilder {
    arena: Arena,
    /// Stack of `(node_id, children_collected_so_far)`.
    stack: Vec<(u32, Vec<u32>)>,
}

/// Appending to the children table leaves the children of every node that
/// keeps its slice unchanged.
proof fn lemma_children_of_stable(a: Arena, b: Arena, n: int)
    requires
        a.wf(),
        0 <= n < a.spec_len(),
        n < b.spec_len(),
        b.node(n).children_start == a.node(n).children_start,
        b.node(n).children_len == a.node(n).children_len,
        a.children_view().len() <= b.children_view().len(),
        b.children_view().subrange(0, a.children_view().len() as int) == a.children_view(),
    ensures
        b.children_of(n) == a.children_of(n),
{
    a.lemma_wf_bounds();
    let an = a.node(n);
    assert(an.children_start + an.children_len <= a.children_view().len());
    assert forall|k: int| 0 <= k < a.children_of(n).len() implies b.children_of(n)[k]
        == a.children_of(n)[k] by {
        assert(b.children_view()[an.children_start + k] == b.children_view().subrange(
            0,
            a.children_view().len() as int,
        )[an.children_start + k]);
    }
    assert(b.children_of(n) =~= a.children_of(n));
}

/// Two fresh builders over one source are in the same state: the same
/// stack and an arena with the same contents. So a builder from
/// `with_capacity_from(source, hint)` answers every later sequence of calls
/// as one from `new(source)` does; the hint only sizes the tables.
pub proof fn lemma_fresh_builders_agree(b1: ArenaBuilder, b2: ArenaBuilder, source: Seq<char>)
    requires
        b1.is_fresh(source),
        b2.is_fresh(source),
    ensures
        b1.stack_view() == b2.stack_view(),
        b1.arena_view().same_contents(b2.arena_view()),
{
    assert(b1.stack_view() =~= b2.stack_view());
    assert(b1.arena_view().nodes_view() =~= b2.arena_view().nodes_view());
    assert(b1.arena_view().children_view() =~= b2.arena_view().children_view());
    assert(b1.arena_view().type_data_view() =~= b2.arena_view().type_data_view());
    assert(b1.arena_view().pool_view() =~= b2.arena_view().pool_view());
}

impl ArenaBuilder {
    pub closed spec fn arena_view(&self) -> Arena {
        self.arena
    }

    pub closed spec fn stack_view(&self) -> Seq<(u32, Seq<u32>)> {
        self.stack@.map_values(|e: (u32, Vec<u32>)| entry_view(e))
    }

    pub open spec fn depth(&self) -> nat {
        self.stack_view().len()
    }

    pub open spec fn top_id(&self) -> u32 {
        self.stack_view().last().0
    }

    /// The bound below every child collected by stack entry `i`: the next
    /// open node, or the node count for the top entry.
    pub open spec fn kid_bound(&self, i: int) -> int {
        if i + 1 < self.depth() {
            self.stack_view()[i + 1].0 as int
        } else {
            self.arena_view().spec_len() as int
        }
    }

    /// The builder's invariant: open nodes are arena nodes, opened in
    /// increasing id order, without a parent or children yet; each collected
    /// child was opened after its stack entry and before the next one, and
    /// already names the entry as its parent; and every closed node's
    /// children name it as their parent.
    pub open spec fn wf(&self) -> bool {
        let s = self.stack_view();
        let a = self.arena_view();
        &&& a.wf()
        &&& forall|i: int|
            0 <= i < s.len() ==> {
                &&& (#[trigger] s[i].0 as int) < a.spec_len()
                &&& a.node(s[i].0 as int).parent == NO_PARENT
                &&& a.node(s[i].0 as int).children_len == 0
            }
        &&& forall|i: int, j: int| 0 <= i < j < s.len() ==> #[trigger] s[i].0 < #[trigger] s[j].0
        &&& forall|i: int, k: int|
            0 <= i < s.len() && 0 <= k < s[i].1.len() ==> {
                &&& s[i].0 < #[trigger] s[i].1[k]
                &&& (s[i].1[k] as int) < self.kid_bound(i)
                &&& a.node(s[i].1[k] as int).parent == s[i].0
            }
        &&& parent_links_hold(a)
    }

    /// Room left in the `u32`-indexed children table for closing every open
    /// node.
    pub open spec fn can_finish(&self) -> bool {
        self.arena_view().children_view().len() + pending_children(self.stack_view()) <= u32::MAX
    }

    /// The state that building starts from: nothing open, every table
    /// empty, and `source` as the source text.
    pub open spec fn is_fresh(&self, source: Seq<char>) -> bool {
        &&& self.wf()
        &&& self.depth() == 0
        &&& self.arena_view().spec_len() == 0
        &&& self.arena_view().source_view() == source
        &&& self.arena_view().children_view().len() == 0
        &&& self.arena_view().type_data_view().len() == 0
        &&& self.arena_view().pool_view().len() == 0
    }

    pub fn new(source: String) -> (b: ArenaBuilder)
        ensures
            b.is_fresh(source@),
    {
        ArenaBuilder { arena: Arena::new(source), stack: Vec::new() }
    }

    /// Create a builder whose tables are pre-sized from an existing arena.
    pub fn with_capacity_from(source: String, hint: &Arena) -> (b: ArenaBuilder)
        requires
            hint.wf(),
        ensures
            b.is_fresh(source@),
    {
        let nodes = hint.len();
        let children = hint.children_table_len();
        let type_data = hint.type_data_table_len();
        ArenaBuilder {
            arena: Arena::with_capacity(source, nodes, children, type_data),
            stack: Vec::with_capacity(16),
        }
    }

    /// Opens a new node as the current one; it becomes a child of the node
    /// that was current when it is closed.
    pub fn open_node(&mut self, node_type: u8) -> (id: u32)
        requires
            old(self).wf(),
            old(self).arena_view().spec_len() < u32::MAX,
        ensures
            final(self).wf(),
            id == old(self).arena_view().spec_len(),
            final(self).stack_view() == old(self).stack_view().push((id, Seq::<u32>::empty())),
            final(self).arena_view().nodes_view() == old(self).arena_view().nodes_view().push(
                fresh_node(node_type),
            ),
            final(self).arena_view().children_view() == old(self).arena_view().children_view(),
            final(self).arena_view().type_data_view() == old(self).arena_view().type_data_view(),
            final(self).arena_view().pool_view() == old(self).arena_view().pool_view(),
            final(self).arena_view().source_view() == old(self).arena_view().source_view(),
            final(self).can_finish() <==> old(self).arena_view().children_view().len()
                + pending_children(old(self).stack_view()) + 1 <= u32::MAX,
            node_data_kept(old(self).arena_view(), final(self).arena_view()),
            final(self).arena_view().node_data_of(id as int) is None,
    {
        let ghost a0 = self.arena;
        let node_id = self.arena.alloc_node(node_type);
        self.stack.push((node_id, Vec::new()));
        proof {
            let s0 = old(self).stack_view();
            let s = self.stack_view();
            assert(s =~= s0.push((node_id, Seq::<u32>::empty())));
            assert(s.drop_last() =~= s0);
            let a = self.arena;
            a0.lemma_wf_bounds();
            assert(a.children_view().subrange(0, a0.children_view().len() as int)
                =~= a0.children_view());
            assert forall|n: int|
                0 <= n < a0.spec_len() implies #[trigger] a.children_of(n) == a0.children_of(
                n,
            ) by {
                lemma_children_of_stable(a0, a, n);
            }
            assert(a.children_of(node_id as int) =~= Seq::<u32>::empty());
            assert(parent_links_hold(a)) by {
                assert forall|n: int, k: int|
                    0 <= n < a.spec_len() && 0 <= k < a.children_of(n).len() implies {
                    &&& (#[trigger] a.children_of(n)[k] as int) < a.spec_len()
                    &&& a.node(a.children_of(n)[k] as int).parent == n
                } by {
                    assert(n < a0.spec_len());
                    assert(a.children_of(n) == a0.children_of(n));
                }
            }
            assert forall|i: int, k: int|
                0 <= i < s.len() && 0 <= k < s[i].1.len() implies {
                &&& s[i].0 < #[trigger] s[i].1[k]
                &&& (s[i].1[k] as int) < self.kid_bound(i)
                &&& a.node(s[i].1[k] as int).parent == s[i].0
            } by {
                assert(i < s0.len());
                assert(s[i] == s0[i]);
                if i + 1 < s0.len() {
                    assert(s[i + 1] == s0[i + 1]);
                }
            }
        }
        node_id
    }

    /// Closes the current node: its collected children become its children
    /// in the arena, and it is appended to the children of the node below it
    /// on the stack, which becomes its parent. Returns the closed node's id.
    pub fn close_node(&mut self) -> (id: u32)
        requires
            old(self).wf(),
            old(self).depth() > 0,
            old(self).arena_view().children_view().len() + old(self).stack_view().last().1.len()
                <= u32::MAX,
        ensures
            final(self).wf(),
            id == old(self).top_id(),
            final(self).arena_view().children_of(id as int) == old(self).stack_view().last().1,
            final(self).arena_view().children_view() == old(self).arena_view().children_view()
                + old(self).stack_view().last().1,
            old(self).depth() == 1 ==> {
                &&& final(self).stack_view() == Seq::<(u32, Seq<u32>)>::empty()
                &&& final(self).arena_view().nodes_view() == old(
                    self,
                ).arena_view().nodes_view().update(
                    id as int,
                    ArenaNode {
                        children_start: old(self).arena_view().children_view().len() as u32,
                        children_len: old(self).stack_view().last().1.len() as u32,
                        ..old(self).arena_view().node(id as int)
                    },
                )
            },
            old(self).depth() > 1 ==> {
                let s0 = old(self).stack_view();
                let p = s0[s0.len() - 2];
                &&& final(self).stack_view() == s0.drop_last().drop_last().push(
                    (p.0, p.1.push(id)),
                )
                &&& final(self).arena_view().nodes_view() == old(
                    self,
                ).arena_view().nodes_view().update(
                    id as int,
                    ArenaNode {
                        children_start: old(self).arena_view().children_view().len() as u32,
                        children_len: s0.last().1.len() as u32,
                        parent: p.0,
                        ..old(self).arena_view().node(id as int)
                    },
                )
            },
            final(self).arena_view().type_data_view() == old(self).arena_view().type_data_view(),
            final(self).arena_view().pool_view() == old(self).arena_view().pool_view(),
            final(self).arena_view().source_view() == old(self).arena_view().source_view(),
            old(self).can_finish() ==> final(self).can_finish(),
            node_data_kept(old(self).arena_view(), final(self).arena_view()),
    {
        let ghost s0 = self.stack_view();
        let ghost a0 = self.arena;
        let top = self.stack.pop();
        let (node_id, children) = top.unwrap();
        proof {
            let n0 = s0.len() as int;
            assert(s0[n0 - 1] == entry_view(old(self).stack@[n0 - 1]));
            assert(s0[n0 - 1].0 == node_id && s0[n0 - 1].1 == children@);
            assert(s0.last() == s0[n0 - 1]);
            if n0 > 1 {
                assert(s0[n0 - 2] == entry_view(old(self).stack@[n0 - 2]));
                assert(self.stack@[n0 - 2] == old(self).stack@[n0 - 2]);
            }
        }
        self.arena.set_children(node_id, children.as_slice());
        let ghost a1 = self.arena;
        let depth = self.stack.len();
        if depth > 0 {
            let ghost st1 = self.stack@;
            let mut parent = self.stack.pop().unwrap();
            let parent_id = parent.0;
            parent.1.push(node_id);
            self.stack.push(parent);
            self.arena.set_parent(node_id, parent_id);
            proof {
                let n0 = s0.len() as int;
                let p = s0[n0 - 2];
                let want = s0.drop_last().drop_last().push((p.0, p.1.push(node_id)));
                assert forall|i: int| 0 <= i < want.len() implies #[trigger] self.stack_view()[i]
                    == want[i] by {
                    if i < n0 - 2 {
                        assert(self.stack@[i] == st1[i]);
                        assert(st1[i] == old(self).stack@[i]);
                        assert(s0[i] == entry_view(old(self).stack@[i]));
                    }
                }
                assert(self.stack_view() =~= want);
                assert(self.stack_view().drop_last() =~= s0.drop_last().drop_last());
                assert(pending_children(s0.drop_last()) == pending_children(
                    s0.drop_last().drop_last(),
                ) + p.1.len() + 1);
            }
        } else {
            proof {
                assert(self.stack_view() =~= Seq::<(u32, Seq<u32>)>::empty());
                assert(s0.drop_last() =~= Seq::<(u32, Seq<u32>)>::empty());
            }
        }
        proof {
            self.lemma_close_wf(s0, a0, a1, node_id);
        }
        node_id
    }

    proof fn lemma_close_wf(&self, s0: Seq<(u32, Seq<u32>)>, a0: Arena, a1: Arena, node_id: u32)
        requires
            s0.len() > 0,
            s0.last().0 == node_id,
            a0.wf(),
            a1.wf(),
            self.arena_view().wf(),
            // the invariant held before the close
            forall|i: int|
                0 <= i < s0.len() ==> {
                    &&& (#[trigger] s0[i].0 as int) < a0.spec_len()
                    &&& a0.node(s0[i].0 as int).parent == NO_PARENT
                    &&& a0.node(s0[i].0 as int).children_len == 0
                },
            forall|i: int, j: int| 0 <= i < j < s0.len() ==> #[trigger] s0[i].0 < #[trigger] s0[j].0,
            forall|i: int, k: int|
                0 <= i < s0.len() && 0 <= k < s0[i].1.len() ==> {
                    &&& s0[i].0 < #[trigger] s0[i].1[k]
                    &&& (s0[i].1[k] as int) < (if i + 1 < s0.len() {
                        s0[i + 1].0 as int
                    } else {
                        a0.spec_len() as int
                    })
                    &&& a0.node(s0[i].1[k] as int).parent == s0[i].0
                },
            parent_links_hold(a0),
            // what set_children did
            a1.children_view() == a0.children_view() + s0.last().1,
            a1.nodes_view() == a0.nodes_view().update(
                node_id as int,
                ArenaNode {
                    children_start: a0.children_view().len() as u32,
                    children_len: s0.last().1.len() as u32,
                    ..a0.node(node_id as int)
                },
            ),
            a1.children_of(node_id as int) == s0.last().1,
            // what the rest did
            self.arena_view().children_view() == a1.children_view(),
            s0.len() == 1 ==> self.stack_view() == Seq::<(u32, Seq<u32>)>::empty()
                && self.arena_view().nodes_view() == a1.nodes_view(),
            s0.len() > 1 ==> self.stack_view() == s0.drop_last().drop_last().push(
                (s0[s0.len() - 2].0, s0[s0.len() - 2].1.push(node_id)),
            ) && self.arena_view().nodes_view() == a1.nodes_view().update(
                node_id as int,
                ArenaNode { parent: s0[s0.len() - 2].0, ..a1.node(node_id as int) },
            ),
        ensures
            self.wf(),
    {
        let s = self.stack_view();
        let a = self.arena_view();
        let n0 = s0.len() as int;
        let id = node_id as int;
        a0.lemma_wf_bounds();
        assert(s0[n0 - 1] == s0.last());
        assert(a.spec_len() == a0.spec_len());
        assert(a.children_view().subrange(0, a0.children_view().len() as int) =~= a0.children_view());
        // open entries below the top keep their node unchanged
        assert forall|i: int| 0 <= i < s.len() implies {
            &&& (#[trigger] s[i].0 as int) < a.spec_len()
            &&& a.node(s[i].0 as int).parent == NO_PARENT
            &&& a.node(s[i].0 as int).children_len == 0
        } by {
            assert(s[i].0 == s0[i].0);
            assert(s0[i].0 < s0[n0 - 1].0);
        }
        assert forall|i: int, j: int| 0 <= i < j < s.len() implies #[trigger] s[i].0
            < #[trigger] s[j].0 by {
            assert(s[i].0 == s0[i].0);
            assert(s[j].0 == s0[j].0);
        }
        assert forall|i: int, k: int| 0 <= i < s.len() && 0 <= k < s[i].1.len() implies {
            &&& s[i].0 < #[trigger] s[i].1[k]
            &&& (s[i].1[k] as int) < self.kid_bound(i)
            &&& a.node(s[i].1[k] as int).parent == s[i].0
        } by {
            assert(s[i].0 == s0[i].0);
            if i + 1 < s.len() {
                assert(s[i] == s0[i]);
                assert(s[i + 1].0 == s0[i + 1].0);
                assert(s0[i].1[k] < s0[i + 1].0);
                assert(s0[i + 1].0 < s0[n0 - 1].0);
            } else {
                assert(i == n0 - 2);
                if k < s0[i].1.len() {
                    assert(s[i].1[k] == s0[i].1[k]);
                    assert(s0[i].1[k] < s0[i + 1].0);
                } else {
                    assert(s[i].1[k] == node_id);
                    assert(s0[i].0 < s0[n0 - 1].0);
                }
            }
        }
        // parent links of closed nodes
        assert forall|n: int, k: int|
            0 <= n < a.spec_len() && 0 <= k < a.children_of(n).len() implies {
            &&& (#[trigger] a.children_of(n)[k] as int) < a.spec_len()
            &&& a.node(a.children_of(n)[k] as int).parent == n
        } by {
            if n == id {
                assert(a.node(id).children_start == a1.node(id).children_start);
                assert(a.node(id).children_len == a1.node(id).children_len);
                assert(a.children_of(id) == a1.children_of(id));
                let c = s0[n0 - 1].1[k];
                assert(a.children_of(n)[k] == c);
                assert(s0[n0 - 1].0 < c);
                assert(a.node(c as int) == a0.node(c as int));
            } else {
                assert(a.node(n).children_start == a0.node(n).children_start);
                assert(a.node(n).children_len == a0.node(n).children_len);
                lemma_children_of_stable(a0, a, n);
                let c = a0.children_of(n)[k];
                assert(a.children_of(n)[k] == c);
                assert(a0.node(c as int).parent == n);
                if c == node_id {
                    assert(a0.node(id).parent == NO_PARENT);
                    assert(false);
                }
                assert(a.node(c as int) == a0.node(c as int));
            }
        }
    }

    /// Edits that keep the children table, the node count and each node's
    /// parent and children slice keep the invariant.
    proof fn lemma_wf_kept(b0: ArenaBuilder, b1: ArenaBuilder)
        requires
            b0.wf(),
            b1.arena_view().wf(),
            b1.stack_view() == b0.stack_view(),
            b1.arena_view().spec_len() == b0.arena_view().spec_len(),
            b1.arena_view().children_view() == b0.arena_view().children_view(),
            forall|n: int|
                0 <= n < b0.arena_view().spec_len() ==> {
                    &&& (#[trigger] b1.arena_view().node(n)).parent == b0.arena_view().node(
                        n,
                    ).parent
                    &&& b1.arena_view().node(n).children_start == b0.arena_view().node(
                        n,
                    ).children_start
                    &&& b1.arena_view().node(n).children_len == b0.arena_view().node(
                        n,
                    ).children_len
                },
        ensures
            b1.wf(),
    {
        let a0 = b0.arena_view();
        let a1 = b1.arena_view();
        assert forall|n: int| 0 <= n < a0.spec_len() implies #[trigger] a1.children_of(n)
            == a0.children_of(n) by {
            assert(a1.node(n).children_start == a0.node(n).children_start);
        }
        assert forall|n: int, k: int|
            0 <= n < a1.spec_len() && 0 <= k < a1.children_of(n).len() implies {
            &&& (#[trigger] a1.children_of(n)[k] as int) < a1.spec_len()
            &&& a1.node(a1.children_of(n)[k] as int).parent == n
        } by {
            assert(a1.children_of(n) == a0.children_of(n));
            let c = a0.children_of(n)[k] as int;
            assert(a1.node(c).parent == a0.node(c).parent);
        }
        let s = b1.stack_view();
        assert forall|i: int| 0 <= i < s.len() implies {
            &&& (#[trigger] s[i].0 as int) < a1.spec_len()
            &&& a1.node(s[i].0 as int).parent == NO_PARENT
            &&& a1.node(s[i].0 as int).children_len == 0
        } by {
            assert(a1.node(s[i].0 as int).parent == a0.node(s[i].0 as int).parent);
        }
        assert forall|i: int, k: int| 0 <= i < s.len() && 0 <= k < s[i].1.len() implies {
            &&& s[i].0 < #[trigger] s[i].1[k]
            &&& (s[i].1[k] as int) < b1.kid_bound(i)
            &&& a1.node(s[i].1[k] as int).parent == s[i].0
        } by {
            assert(a1.node(s[i].1[k] as int).parent == a0.node(s[i].1[k] as int).parent);
        }
    }

    /// Opens and immediately closes a node: a leaf child of the current node.
    pub fn add_leaf(&mut self, node_type: u8) -> (id: u32)
        requires
            old(self).wf(),
            old(self).arena_view().spec_len() < u32::MAX,
        ensures
            final(self).wf(),
            id == old(self).arena_view().spec_len(),
            final(self).arena_view().nodes_view() == old(self).arena_view().nodes_view().push(
                ArenaNode {
                    children_start: old(self).arena_view().children_view().len() as u32,
                    parent: if old(self).depth() > 0 {
                        old(self).top_id()
                    } else {
                        NO_PARENT
                    },
                    ..fresh_node(node_type)
                },
            ),
            final(self).arena_view().children_of(id as int) == Seq::<u32>::empty(),
            old(self).depth() == 0 ==> final(self).stack_view() == Seq::<
                (u32, Seq<u32>),
            >::empty(),
            old(self).depth() > 0 ==> final(self).stack_view() == old(
                self,
            ).stack_view().drop_last().push(
                (old(self).top_id(), old(self).stack_view().last().1.push(id)),
            ),
            final(self).arena_view().children_view() == old(self).arena_view().children_view(),
            final(self).arena_view().type_data_view() == old(self).arena_view().type_data_view(),
            final(self).arena_view().pool_view() == old(self).arena_view().pool_view(),
            final(self).arena_view().source_view() == old(self).arena_view().source_view(),
            old(self).arena_view().children_view().len() + pending_children(old(self).stack_view())
                + 1 <= u32::MAX ==> final(self).can_finish(),
            node_data_kept(old(self).arena_view(), final(self).arena_view()),
            final(self).arena_view().node_data_of(id as int) is None,
    {
        let ghost s0 = self.stack_view();
        let ghost a0 = self.arena_view();
        proof {
            a0.lemma_wf_bounds();
        }
        self.open_node(node_type);
        let ghost s1 = self.stack_view();
        let ghost a1 = self.arena_view();
        proof {
            assert(s1.last() == (a0.spec_len() as u32, Seq::<u32>::empty()));
            assert(s1.drop_last() =~= s0);
        }
        let id = self.close_node();
        proof {
            let c0 = a0.children_view().len();
            assert(self.arena_view().children_view() =~= a0.children_view());
            if s0.len() > 0 {
                assert(s1[s1.len() - 2] == s0.last());
                assert(s1.drop_last().drop_last() =~= s0.drop_last());
                let s2 = self.stack_view();
                assert(s2.drop_last() =~= s0.drop_last());
            } else {
                assert(self.stack_view() =~= Seq::<(u32, Seq<u32>)>::empty());
            }
            assert(self.arena_view().nodes_view() =~= a0.nodes_view().push(
                ArenaNode {
                    children_start: c0 as u32,
                    parent: if s0.len() > 0 {
                        s0.last().0
                    } else {
                        NO_PARENT
                    },
                    ..fresh_node(node_type)
                },
            ));
        }
        id
    }

    /// Alias for `add_leaf`.
    pub fn add_leaf_raw(&mut self, node_type: u8) -> (id: u32)
        requires
            old(self).wf(),
            old(self).arena_view().spec_len() < u32::MAX,
        ensures
            final(self).wf(),
            id == old(self).arena_view().spec_len(),
            final(self).arena_view().nodes_view() == old(self).arena_view().nodes_view().push(
                ArenaNode {
                    children_start: old(self).arena_view().children_view().len() as u32,
                    parent: if old(self).depth() > 0 {
                        old(self).top_id()
                    } else {
                        NO_PARENT
                    },
                    ..fresh_node(node_type)
                },
            ),
            old(self).depth() == 0 ==> final(self).stack_view() == Seq::<
                (u32, Seq<u32>),
            >::empty(),
            old(self).depth() > 0 ==> final(self).stack_view() == old(
                self,
            ).stack_view().drop_last().push(
                (old(self).top_id(), old(self).stack_view().last().1.push(id)),
            ),
            final(self).arena_view().children_view() == old(self).arena_view().children_view(),
            final(self).arena_view().type_data_view() == old(self).arena_view().type_data_view(),
            final(self).arena_view().pool_view() == old(self).arena_view().pool_view(),
            final(self).arena_view().source_view() == old(self).arena_view().source_view(),
            node_data_kept(old(self).arena_view(), final(self).arena_view()),
            final(self).arena_view().node_data_of(id as int) is None,
    {
        self.add_leaf(node_type)
    }

    /// Sets the source position of the current node.
    pub fn set_position_current(
        &mut self,
        start_offset: u32,
        end_offset: u32,
        start_line: u32,
        start_column: u32,
        end_line: u32,
        end_column: u32,
    )
        requires
            old(self).wf(),
            old(self).depth() > 0,
        ensures
            final(self).wf(),
            final(self).stack_view() == old(self).stack_view(),
            final(self).arena_view().nodes_view() == old(self).arena_view().nodes_view().update(
                old(self).top_id() as int,
                ArenaNode {
                    start_offset,
                    end_offset,
                    start_line,
                    start_column,
                    end_line,
                    end_column,
                    ..old(self).arena_view().node(old(self).top_id() as int)
                },
            ),
            final(self).arena_view().children_view() == old(self).arena_view().children_view(),
            final(self).arena_view().type_data_view() == old(self).arena_view().type_data_view(),
            final(self).arena_view().pool_view() == old(self).arena_view().pool_view(),
            final(self).arena_view().source_view() == old(self).arena_view().source_view(),
            node_data_kept(old(self).arena_view(), final(self).arena_view()),
    {
        let n = self.stack.len();
        let node_id = self.stack[n - 1].0;
        proof {
            assert(self.stack_view()[n - 1] == entry_view(self.stack@[n - 1]));
            assert((self.stack_view()[n - 1].0 as int) < self.arena_view().spec_len());
        }
        self.arena.set_position(
            node_id,
            start_offset,
            end_offset,
            start_line,
            start_column,
            end_line,
            end_column,
        );
        proof {
            Self::lemma_wf_kept(*old(self), *self);
        }
    }

    /// Sets the type data of the current node.
    pub fn set_data_current(&mut self, data: &[u8])
        requires
            old(self).wf(),
            old(self).depth() > 0,
            old(self).arena_view().type_data_view().len() + data@.len() <= u32::MAX,
        ensures
            final(self).wf(),
            final(self).stack_view() == old(self).stack_view(),
            final(self).arena_view().type_data_view() == old(self).arena_view().type_data_view()
                + data@,
            final(self).arena_view().type_data_of(old(self).top_id() as int) == data@,
            final(self).arena_view().nodes_view() == old(self).arena_view().nodes_view().update(
                old(self).top_id() as int,
                ArenaNode {
                    data_offset: old(self).arena_view().type_data_view().len() as u32,
                    data_len: data@.len() as u32,
                    ..old(self).arena_view().node(old(self).top_id() as int)
                },
            ),
            final(self).arena_view().children_view() == old(self).arena_view().children_view(),
            final(self).arena_view().pool_view() == old(self).arena_view().pool_view(),
            final(self).arena_view().source_view() == old(self).arena_view().source_view(),
            old(self).can_finish() ==> final(self).can_finish(),
            node_data_kept(old(self).arena_view(), final(self).arena_view()),
    {
        let n = self.stack.len();
        let node_id = self.stack[n - 1].0;
        proof {
            assert(self.stack_view()[n - 1] == entry_view(self.stack@[n - 1]));
            assert((self.stack_view()[n - 1].0 as int) < self.arena_view().spec_len());
        }
        self.arena.set_type_data(node_id, data);
        proof {
            Self::lemma_wf_kept(*old(self), *self);
        }
    }

    pub fn alloc_string(&mut self, s: &str) -> (r: StringRef)
        requires
            old(self).wf(),
            old(self).arena_view().pool_view().len() + s.spec_bytes().len() <= u32::MAX,
        ensures
            final(self).wf(),
            final(self).stack_view() == old(self).stack_view(),
            final(self).arena_view().pool_view() == old(self).arena_view().pool_view()
                + s.spec_bytes(),
            final(self).arena_view().str_bytes(r) == s.spec_bytes(),
            final(self).arena_view().valid_str_ref(r),
            final(self).arena_view().nodes_view() == old(self).arena_view().nodes_view(),
            final(self).arena_view().children_view() == old(self).arena_view().children_view(),
            final(self).arena_view().type_data_view() == old(self).arena_view().type_data_view(),
            final(self).arena_view().source_view() == old(self).arena_view().source_view(),
            old(self).can_finish() ==> final(self).can_finish(),
            node_data_kept(old(self).arena_view(), final(self).arena_view()),
    {
        let r = self.arena.alloc_string(s);
        proof {
            Self::lemma_wf_kept(*old(self), *self);
        }
        r
    }

    /// For reclassifying a node during parsing (e.g. link to link reference).
    pub fn change_node_type(&mut self, node_id: u32, new_type: u8)
        requires
            old(self).wf(),
            node_id < old(self).arena_view().spec_len(),
        ensures
            final(self).wf(),
            final(self).stack_view() == old(self).stack_view(),
            final(self).arena_view().nodes_view() == old(self).arena_view().nodes_view().update(
                node_id as int,
                ArenaNode { node_type: new_type, ..old(self).arena_view().node(node_id as int) },
            ),
            final(self).arena_view().children_view() == old(self).arena_view().children_view(),
            final(self).arena_view().type_data_view() == old(self).arena_view().type_data_view(),
            final(self).arena_view().pool_view() == old(self).arena_view().pool_view(),
            final(self).arena_view().source_view() == old(self).arena_view().source_view(),
            old(self).can_finish() ==> final(self).can_finish(),
            node_data_kept(old(self).arena_view(), final(self).arena_view()),
    {
        self.arena.change_node_type(node_id, new_type);
        proof {
            Self::lemma_wf_kept(*old(self), *self);
        }
    }

    pub fn current_node_id(&self) -> (id: u32)
        requires
            self.depth() > 0,
        ensures
            id == self.top_id(),
    {
        let n = self.stack.len();
        proof {
            assert(self.stack_view()[n - 1] == entry_view(self.stack@[n - 1]));
        }
        self.stack[n - 1].0
    }

    pub fn stack_depth(&self) -> (d: usize)
        ensures
            d == self.depth(),
    {
        self.stack.len()
    }

    /// Index 0 is the bottom of the stack (the root).
    pub fn stack_node_id(&self, depth: usize) -> (id: Option<u32>)
        ensures
            depth < self.depth() ==> id == Some(self.stack_view()[depth as int].0),
            depth >= self.depth() ==> id is None,
    {
        if depth < self.stack.len() {
            proof {
                assert(self.stack_view()[depth as int] == entry_view(self.stack@[depth as int]));
            }
            Some(self.stack[depth].0)
        } else {
            None
        }
    }

    pub fn arena_ref(&self) -> (a: &Arena)
        ensures
            *a == self.arena_view(),
    {
        &self.arena
    }

    /// Mutable access to the children collected so far by the current node.
    pub fn current_children_mut(&mut self) -> (c: &mut Vec<u32>)
        requires
            old(self).depth() > 0,
        ensures
            c@ == old(self).stack_view().last().1,
            final(self).stack_view() == old(self).stack_view().update(
                old(self).depth() - 1,
                (old(self).top_id(), final(c)@),
            ),
            final(self).arena_view() == old(self).arena_view(),
    {
        let n = self.stack.len();
        proof {
            assert(self.stack_view()[n - 1] == entry_view(self.stack@[n - 1]));
        }
        let entry = vstd::std_specs::vec::vec_index_mut(&mut self.stack, n - 1);
        &mut entry.1
    }

    /// Mutable access to the arena being built.
    pub fn arena_mut(&mut self) -> (a: &mut Arena)
        ensures
            *a == old(self).arena_view(),
            final(self).arena_view() == *final(a),
            final(self).stack_view() == old(self).stack_view(),
    {
        &mut self.arena
    }

    /// Closes every node still open, then hands out the arena.
    pub fn finish(self) -> (a: Arena)
        requires
            self.wf(),
            self.can_finish(),
        ensures
            a.wf(),
            parent_links_hold(a),
            a.spec_len() == self.arena_view().spec_len(),
            a.source_view() == self.arena_view().source_view(),
            a.type_data_view() == self.arena_view().type_data_view(),
            a.pool_view() == self.arena_view().pool_view(),
            self.depth() == 0 ==> a == self.arena_view(),
            forall|i: int|
                0 <= i < self.depth() ==> {
                    &&& a.children_of(#[trigger] self.stack_view()[i].0 as int) == closed_children(
                        self.stack_view(),
                        i,
                    )
                    &&& a.node(self.stack_view()[i].0 as int).parent == (if i == 0 {
                        NO_PARENT
                    } else {
                        self.stack_view()[i - 1].0
                    })
                    &&& same_payload(
                        a.node(self.stack_view()[i].0 as int),
                        self.arena_view().node(self.stack_view()[i].0 as int),
                    )
                },
            forall|x: int|
                0 <= x < a.spec_len() && !open_in(self.stack_view(), x) ==> {
                    &&& #[trigger] a.node(x) == self.arena_view().node(x)
                    &&& a.children_of(x) == self.arena_view().children_of(x)
                },
            node_data_kept(self.arena_view(), a),
    {
        let ghost s = self.stack_view();
        let ghost a0 = self.arena_view();
        let ghost n = s.len() as int;
        let mut b = self;
        proof {
            assert forall|i: int| 0 <= i < n implies #[trigger] b.stack_view()[i] == (
            s[i].0,
            open_entry_children(s, i, n),
        ) by {}
        }
        while b.stack.len() > 0
            invariant
                b.wf(),
                b.can_finish(),
                self.wf(),
                s == self.stack_view(),
                a0 == self.arena_view(),
                n == s.len(),
                b.depth() <= n,
                b.arena_view().spec_len() == a0.spec_len(),
                b.arena_view().source_view() == a0.source_view(),
                b.arena_view().type_data_view() == a0.type_data_view(),
                b.arena_view().pool_view() == a0.pool_view(),
                b.depth() == n ==> b.arena_view() == a0,
                node_data_kept(a0, b.arena_view()),
                forall|i: int|
                    0 <= i < b.depth() ==> #[trigger] b.stack_view()[i] == (
                        s[i].0,
                        open_entry_children(s, i, b.depth() as int),
                    ),
                forall|i: int|
                    b.depth() <= i < n ==> {
                        &&& b.arena_view().children_of(#[trigger] s[i].0 as int) == closed_children(
                            s,
                            i,
                        )
                        &&& b.arena_view().node(s[i].0 as int).parent == (if i == 0 {
                            NO_PARENT
                        } else {
                            s[i - 1].0
                        })
                    },
                forall|x: int|
                    0 <= x < a0.spec_len() ==> same_payload(
                        #[trigger] b.arena_view().node(x),
                        a0.node(x),
                    ),
                forall|x: int|
                    0 <= x < a0.spec_len() && !open_in(s, x) ==> {
                        &&& #[trigger] b.arena_view().node(x) == a0.node(x)
                        &&& b.arena_view().children_of(x) == a0.children_of(x)
                    },
            decreases b.stack@.len(),
        {
            let ghost b0 = b;
            proof {
                let s0 = b.stack_view();
                assert(pending_children(s0) == pending_children(s0.drop_last()) + s0.last().1.len()
                    + 1);
            }
            let id = b.close_node();
            proof {
                self.lemma_finish_step(b0, b, id);
            }
        }
        b.arena
    }

    /// One step of `finish`: closing the top entry keeps the loop's facts.
    proof fn lemma_finish_step(&self, b0: ArenaBuilder, b1: ArenaBuilder, id: u32)
        requires
            self.wf(),
            b0.wf(),
            b1.wf(),
            b0.depth() > 0,
            b0.depth() <= self.depth(),
            id == b0.top_id(),
            b1.arena_view().children_of(id as int) == b0.stack_view().last().1,
            b1.arena_view().children_view() == b0.arena_view().children_view() + b0.stack_view().last().1,
            b0.depth() == 1 ==> {
                &&& b1.stack_view() == Seq::<(u32, Seq<u32>)>::empty()
                &&& b1.arena_view().nodes_view() == b0.arena_view().nodes_view().update(
                    id as int,
                    ArenaNode {
                        children_start: b0.arena_view().children_view().len() as u32,
                        children_len: b0.stack_view().last().1.len() as u32,
                        ..b0.arena_view().node(id as int)
                    },
                )
            },
            b0.depth() > 1 ==> {
                let s0 = b0.stack_view();
                let p = s0[s0.len() - 2];
                &&& b1.stack_view() == s0.drop_last().drop_last().push((p.0, p.1.push(id)))
                &&& b1.arena_view().nodes_view() == b0.arena_view().nodes_view().update(
                    id as int,
                    ArenaNode {
                        children_start: b0.arena_view().children_view().len() as u32,
                        children_len: s0.last().1.len() as u32,
                        parent: p.0,
                        ..b0.arena_view().node(id as int)
                    },
                )
            },
            b1.arena_view().type_data_view() == b0.arena_view().type_data_view(),
            b1.arena_view().pool_view() == b0.arena_view().pool_view(),
            b1.arena_view().source_view() == b0.arena_view().source_view(),
            b0.arena_view().spec_len() == self.arena_view().spec_len(),
            forall|i: int|
                0 <= i < b0.depth() ==> #[trigger] b0.stack_view()[i] == (
                    self.stack_view()[i].0,
                    open_entry_children(self.stack_view(), i, b0.depth() as int),
                ),
            forall|i: int|
                b0.depth() <= i < self.depth() ==> {
                    &&& b0.arena_view().children_of(#[trigger] self.stack_view()[i].0 as int)
                        == closed_children(self.stack_view(), i)
                    &&& b0.arena_view().node(self.stack_view()[i].0 as int).parent == (if i
                        == 0 {
                        NO_PARENT
                    } else {
                        self.stack_view()[i - 1].0
                    })
                },
            forall|x: int|
                0 <= x < self.arena_view().spec_len() ==> same_payload(
                    #[trigger] b0.arena_view().node(x),
                    self.arena_view().node(x),
                ),
            forall|x: int|
                0 <= x < self.arena_view().spec_len() && !open_in(self.stack_view(), x) ==> {
                    &&& #[trigger] b0.arena_view().node(x) == self.arena_view().node(x)
                    &&& b0.arena_view().children_of(x) == self.arena_view().children_of(x)
                },
        ensures
            b1.arena_view().spec_len() == self.arena_view().spec_len(),
            forall|i: int|
                0 <= i < b1.depth() ==> #[trigger] b1.stack_view()[i] == (
                    self.stack_view()[i].0,
                    open_entry_children(self.stack_view(), i, b1.depth() as int),
                ),
            forall|i: int|
                b1.depth() <= i < self.depth() ==> {
                    &&& b1.arena_view().children_of(#[trigger] self.stack_view()[i].0 as int)
                        == closed_children(self.stack_view(), i)
                    &&& b1.arena_view().node(self.stack_view()[i].0 as int).parent == (if i
                        == 0 {
                        NO_PARENT
                    } else {
                        self.stack_view()[i - 1].0
                    })
                },
            forall|x: int|
                0 <= x < self.arena_view().spec_len() ==> same_payload(
                    #[trigger] b1.arena_view().node(x),
                    self.arena_view().node(x),
                ),
            forall|x: int|
                0 <= x < self.arena_view().spec_len() && !open_in(self.stack_view(), x) ==> {
                    &&& #[trigger] b1.arena_view().node(x) == self.arena_view().node(x)
                    &&& b1.arena_view().children_of(x) == self.arena_view().children_of(x)
                },
    {
        let s = self.stack_view();
        let a0 = self.arena_view();
        let n = s.len() as int;
        let m = b0.depth() as int;
        let t = m - 1;
        let x0 = b0.arena_view();
        let x1 = b1.arena_view();
        assert(b0.stack_view()[t] == (s[t].0, open_entry_children(s, t, m)));
        assert(id == s[t].0);
        assert(x1.nodes_view().len() == x0.nodes_view().len());
        x0.lemma_wf_bounds();
        assert(x1.children_view().subrange(0, x0.children_view().len() as int) =~= x0.children_view());
        // Every node but `id` keeps its entry and its children.
        assert forall|y: int| 0 <= y < x0.spec_len() && y != id implies #[trigger] x1.node(y)
            == x0.node(y) && x1.children_of(y) == x0.children_of(y) by {
            lemma_children_of_stable(x0, x1, y);
        }
        assert forall|i: int| 0 <= i < b1.depth() implies #[trigger] b1.stack_view()[i] == (
            s[i].0,
            open_entry_children(s, i, b1.depth() as int),
        ) by {
            assert(b0.stack_view()[i] == (s[i].0, open_entry_children(s, i, m)));
            if i == m - 2 {
                assert(b1.stack_view()[i] == (b0.stack_view()[i].0, b0.stack_view()[i].1.push(id)));
            } else {
                assert(b1.stack_view()[i] == b0.stack_view()[i]);
            }
        }
        assert forall|i: int| b1.depth() <= i < n implies {
            &&& x1.children_of(#[trigger] s[i].0 as int) == closed_children(s, i)
            &&& x1.node(s[i].0 as int).parent == (if i == 0 {
                NO_PARENT
            } else {
                s[i - 1].0
            })
        } by {
            if i == t {
                assert(b0.stack_view().last() == b0.stack_view()[t]);
                assert(open_entry_children(s, t, m) == closed_children(s, t));
                if i == 0 {
                    assert(x0.node(id as int).parent == NO_PARENT);
                } else {
                    assert(b0.stack_view()[t - 1] == (s[t - 1].0, open_entry_children(s, t - 1, m)));
                }
            } else {
                assert(s[t].0 < s[i].0);
            }
        }
        assert forall|x: int| 0 <= x < a0.spec_len() implies same_payload(
            #[trigger] x1.node(x),
            a0.node(x),
        ) by {
            assert(same_payload(x0.node(x), a0.node(x)));
        }
        assert forall|x: int| 0 <= x < a0.spec_len() && !open_in(s, x) implies {
            &&& #[trigger] x1.node(x) == a0.node(x)
            &&& x1.children_of(x) == a0.children_of(x)
        } by {
            assert(x0.node(x) == a0.node(x));
            if x == id {
                assert(open_in(s, x)) by {
                    assert(s[t].0 == x);
                }
            }
        }
    }

    /// Alias for `open_node`.
    pub fn open_node_raw(&mut self, node_type: u8) -> (id: u32)
        requires
            old(self).wf(),
            old(self).arena_view().spec_len() < u32::MAX,
        ensures
            final(self).wf(),
            id == old(self).arena_view().spec_len(),
            final(self).stack_view() == old(self).stack_view().push((id, Seq::<u32>::empty())),
            final(self).arena_view().nodes_view() == old(self).arena_view().nodes_view().push(
                fresh_node(node_type),
            ),
            final(self).arena_view().children_view() == old(self).arena_view().children_view(),
            final(self).arena_view().type_data_view() == old(self).arena_view().type_data_view(),
            final(self).arena_view().pool_view() == old(self).arena_view().pool_view(),
            final(self).arena_view().source_view() == old(self).arena_view().source_view(),
            node_data_kept(old(self).arena_view(), final(self).arena_view()),
            final(self).arena_view().node_data_of(id as int) is None,
    {
        self.open_node(node_type)
    }
}

} // verus!
