use vstd::prelude::*;
use crate::handle::{Handle, NONE_INDEX};
use crate::kind::NodeKind;
use crate::node::{Node, same_authored};
use crate::pool::{Pool, PoolError};
use crate::record::{encode_record, record_bytes};

verus! {

/// Why a structural change of the graph was refused; the graph is left as it
/// was.
#[derive(Clone, Copy, Debug, PartialEq, Eq, Structural)]
pub enum GraphError {
    /// The handle addresses no live node.
    Dangling,
    /// The requested parent is neither none nor a live node.
    InvalidParent,
    /// The change would make a node its own ancestor.
    CycleDetected,
    /// No handle is left to give out.
    Exhausted,
}

/// `h`'s parent, if it has one, is live and lists `h` among its children.
pub open spec fn parent_linked(m: Map<Handle, Node>, h: Handle) -> bool {
    let p = m[h].parent;
    p.spec_is_none() || (m.contains_key(p) && m[p].children@.contains(h))
}

/// Every child of `h` is live, has `h` as its parent, and is listed once.
pub open spec fn children_linked(m: Map<Handle, Node>, h: Handle) -> bool {
    &&& m[h].children@.no_duplicates()
    &&& forall|j: int|
        0 <= j < m[h].children@.len() ==> #[trigger] m.contains_key(m[h].children@[j])
            && m[m[h].children@[j]].parent == h
}

/// Parent and child links agree in both directions on every live node.
pub open spec fn linked(m: Map<Handle, Node>) -> bool {
    &&& forall|h: Handle| #[trigger] m.contains_key(h) ==> !h.spec_is_none()
    &&& forall|h: Handle| #[trigger] m.contains_key(h) ==> parent_linked(m, h)
    &&& forall|h: Handle| #[trigger] m.contains_key(h) ==> children_linked(m, h)
}

/// A rank for every live node, strictly above its parent's: parent chains
/// strictly descend in rank, so none of them is a cycle.
pub open spec fn ranked(m: Map<Handle, Node>, rank: Map<Handle, nat>) -> bool {
    forall|h: Handle|
        #[trigger] m.contains_key(h) ==> rank.contains_key(h) && (!m[h].parent.spec_is_none()
            ==> rank.contains_key(m[h].parent) && rank[m[h].parent] < rank[h])
}

/// The nodes of a well-formed graph form a forest: links agree and no parent
/// chain is a cycle.
pub open spec fn is_forest(m: Map<Handle, Node>) -> bool {
    linked(m) && exists|rank: Map<Handle, nat>| ranked(m, rank)
}

/// `x` is `h` or lies below it: the parent chain from `x` reaches `h`. The
/// ranks only bound the walk up the chain.
pub open spec fn descends(m: Map<Handle, Node>, rank: Map<Handle, nat>, x: Handle, h: Handle) -> bool
    decreases rank[x],
{
    if x == h {
        true
    } else if m.contains_key(x) && !m[x].parent.spec_is_none() && rank.contains_key(m[x].parent)
        && rank[m[x].parent] < rank[x] {
        descends(m, rank, m[x].parent, h)
    } else {
        false
    }
}

/// The children of `x` once `h` has left its parent for `np`, where it comes
/// last.
pub open spec fn moved_children(m: Map<Handle, Node>, h: Handle, np: Handle, x: Handle) -> Seq<Handle> {
    let base = if x == m[h].parent {
        m[x].children@.remove_value(h)
    } else {
        m[x].children@
    };
    if x == np {
        base.push(h)
    } else {
        base
    }
}

/// Node `x` of `m1` is node `x` of `m0` after `h` has moved under `np`.
pub open spec fn moved(m0: Map<Handle, Node>, m1: Map<Handle, Node>, h: Handle, np: Handle, x: Handle) -> bool {
    &&& m1[x].children@ == moved_children(m0, h, np, x)
    &&& m1[x].parent == (if x == h { np } else { m0[x].parent })
    &&& keeps_data(m1[x], m0[x])
}

/// The two nodes agree on all but their links.
pub open spec fn keeps_data(a: Node, b: Node) -> bool {
    same_authored(a, b) && a.global_visibility == b.global_visibility && a.body == b.body && a.original == b.original
}

/// Where `h` stands among its parent's children, and that it is not yet
/// among those of `np` unless that is the same parent.
proof fn lemma_reparent_position(m0: Map<Handle, Node>, rank0: Map<Handle, nat>, h: Handle, np: Handle) -> (i_h: int)
    requires
        linked(m0),
        ranked(m0, rank0),
        m0.contains_key(h),
        m0.contains_key(np),
        !descends(m0, rank0, np, h),
    ensures
        np != h,
        m0[h].parent != h,
        !m0[h].parent.spec_is_none() ==> 0 <= i_h < m0[m0[h].parent].children@.len()
            && m0[m0[h].parent].children@[i_h] == h
            && m0[m0[h].parent].children@.remove_value(h) == m0[m0[h].parent].children@.remove(i_h)
            && m0[m0[h].parent].children@.no_duplicates(),
        !m0[np].children@.contains(h) || m0[h].parent == np,
{
    let p = m0[h].parent;
    assert(parent_linked(m0, h));
    assert(np != h);
    assert(p != h);
    let mut i_h: int = 0;
    if !p.spec_is_none() {
        assert(children_linked(m0, p));
        m0[p].children@.index_of_first_ensures(h);
        i_h = m0[p].children@.index_of_first(h)->Some_0;
        assert(m0[p].children@.remove_value(h) == m0[p].children@.remove(i_h));
    }
    assert(!m0[np].children@.contains(h) || p == np) by {
        assert(children_linked(m0, np));
        if m0[np].children@.contains(h) {
            let j = choose|j: int| 0 <= j < m0[np].children@.len() && m0[np].children@[j] == h;
            assert(m0.contains_key(m0[np].children@[j]));
        }
    }
    i_h
}

proof fn lemma_reparent_links(m0: Map<Handle, Node>, m3: Map<Handle, Node>, rank0: Map<Handle, nat>, h: Handle, np: Handle)
    requires
        linked(m0),
        ranked(m0, rank0),
        m0.contains_key(h),
        m0.contains_key(np),
        !descends(m0, rank0, np, h),
        m3.dom() == m0.dom(),
        forall|x: Handle| #[trigger] m0.contains_key(x) ==> moved(m0, m3, h, np, x),
    ensures
        linked(m3),
{
    let p = m0[h].parent;
    let i_h = lemma_reparent_position(m0, rank0, h, np);
    assert forall|x: Handle| #[trigger] m3.contains_key(x) implies parent_linked(m3, x) by {
        assert(moved(m0, m3, h, np, x));
        if x == h {
            assert(moved(m0, m3, h, np, np));
            assert(m3[np].children@.last() == h);
        } else {
            assert(parent_linked(m0, x));
            let q = m0[x].parent;
            if !q.spec_is_none() {
                assert(moved(m0, m3, h, np, q));
                let j = choose|j: int| 0 <= j < m0[q].children@.len() && m0[q].children@[j] == x;
                if q == p {
                    let c = m0[p].children@.remove(i_h);
                    if j < i_h {
                        assert(c[j] == x);
                    } else {
                        assert(c[j - 1] == x);
                    }
                    assert(c.contains(x));
                    if q == np {
                        assert(m3[q].children@ == c.push(h));
                        if j < i_h {
                            assert(m3[q].children@[j] == x);
                        } else {
                            assert(m3[q].children@[j - 1] == x);
                        }
                    }
                } else if q == np {
                    assert(m3[q].children@[j] == x);
                }
            }
        }
    }
    assert forall|x: Handle| #[trigger] m3.contains_key(x) implies children_linked(m3, x) by {
        lemma_reparent_child_links(m0, m3, rank0, h, np, x);
    }
}

#[verifier::rlimit(40)]
proof fn lemma_reparent_child_links(m0: Map<Handle, Node>, m3: Map<Handle, Node>, rank0: Map<Handle, nat>, h: Handle, np: Handle, x: Handle)
    requires
        linked(m0),
        ranked(m0, rank0),
        m0.contains_key(h),
        m0.contains_key(np),
        !descends(m0, rank0, np, h),
        m3.dom() == m0.dom(),
        forall|y: Handle| #[trigger] m0.contains_key(y) ==> moved(m0, m3, h, np, y),
        m3.contains_key(x),
    ensures
        children_linked(m3, x),
{
    let p = m0[h].parent;
    let i_h = lemma_reparent_position(m0, rank0, h, np);
    assert(children_linked(m0, x));
    assert(moved(m0, m3, h, np, x));
    let c0 = m0[x].children@;
    let c3 = m3[x].children@;
    let base = if x == p { c0.remove(i_h) } else { c0 };
    assert(!base.contains(h)) by {
        if base.contains(h) {
            let k = choose|k: int| 0 <= k < base.len() && base[k] == h;
            if x == p {
                if k < i_h {
                    assert(c0[k] == h);
                } else {
                    assert(c0[k + 1] == h);
                }
            } else {
                assert(m0.contains_key(c0[k]));
            }
        }
    }
    assert(base.no_duplicates()) by {
        if x == p {
            assert forall|a: int, b: int| 0 <= a < base.len() && 0 <= b < base.len() && a != b
                implies base[a] != base[b] by {
                let ka = if a >= i_h { a + 1 } else { a };
                let kb = if b >= i_h { b + 1 } else { b };
                assert(base[a] == c0[ka]);
                assert(base[b] == c0[kb]);
            }
        }
    }
    assert forall|j: int| 0 <= j < base.len() implies #[trigger] m3.contains_key(base[j])
        && m3[base[j]].parent == x by {
        let k = if x == p && j >= i_h { j + 1 } else { j };
        assert(base[j] == c0[k]);
        assert(m0.contains_key(c0[k]));
        assert(moved(m0, m3, h, np, c0[k]));
    }
    if x == np {
        assert(c3 == base.push(h));
        assert(c3.no_duplicates()) by {
            assert forall|a: int, b: int| 0 <= a < c3.len() && 0 <= b < c3.len() && a != b
                implies c3[a] != c3[b] by {
                if a == base.len() as int {
                    assert(c3[b] == base[b]);
                } else if b == base.len() as int {
                    assert(c3[a] == base[a]);
                } else {
                    assert(c3[a] == base[a]);
                    assert(c3[b] == base[b]);
                }
            }
        }
        assert forall|j: int| 0 <= j < m3[x].children@.len() implies #[trigger] m3.contains_key(m3[x].children@[j])
            && m3[m3[x].children@[j]].parent == x by {
            if j < base.len() {
                assert(c3[j] == base[j]);
            }
        }
    } else {
        assert(c3 == base);
        assert forall|j: int| 0 <= j < m3[x].children@.len() implies #[trigger] m3.contains_key(m3[x].children@[j])
            && m3[m3[x].children@[j]].parent == x by {
            assert(c3[j] == base[j]);
            assert(m3.contains_key(base[j]));
        }
    }
    assert(m3[x].children@.no_duplicates());
    assert(forall|j: int| 0 <= j < m3[x].children@.len() ==> #[trigger] m3.contains_key(m3[x].children@[j])
        && m3[m3[x].children@[j]].parent == x);
    assert(children_linked(m3, x));
}

proof fn lemma_reparent_ranks(m0: Map<Handle, Node>, m3: Map<Handle, Node>, rank0: Map<Handle, nat>, rank1: Map<Handle, nat>, h: Handle, np: Handle)
    requires
        ranked(m0, rank0),
        m0.contains_key(h),
        m0.contains_key(np),
        !descends(m0, rank0, np, h),
        m3.dom() == m0.dom(),
        forall|x: Handle| #[trigger] m0.contains_key(x) ==> moved(m0, m3, h, np, x),
        rank1 == Map::new(
            |x: Handle| rank0.contains_key(x),
            |x: Handle| if descends(m0, rank0, x, h) { (rank0[x] + rank0[np] + 1) as nat } else { rank0[x] },
        ),
    ensures
        ranked(m3, rank1),
{
    assert forall|x: Handle| #[trigger] m3.contains_key(x) implies rank1.contains_key(x) && (
    !m3[x].parent.spec_is_none() ==> rank1.contains_key(m3[x].parent) && rank1[m3[x].parent]
        < rank1[x]) by {
        assert(m0.contains_key(x));
        assert(moved(m0, m3, h, np, x));
        if x != h {
            let q = m0[x].parent;
            if !q.spec_is_none() {
                assert(descends(m0, rank0, x, h) == descends(m0, rank0, q, h));
            }
        } else {
            assert(descends(m0, rank0, h, h));
        }
    }
}

proof fn lemma_add_child_links(m0: Map<Handle, Node>, m2: Map<Handle, Node>, h: Handle, parent: Handle, x: Handle)
    requires
        linked(m0),
        !m0.contains_key(h),
        !h.spec_is_none(),
        parent.spec_is_none() || m0.contains_key(parent),
        m2.dom() == m0.dom().insert(h),
        forall|x: Handle| #[trigger] m0.contains_key(x) && x != parent ==> m2[x] == m0[x],
        m2[h].parent == parent,
        m2[h].children@.len() == 0,
        !parent.spec_is_none() ==> m2[parent].children@ == m0[parent].children@.push(h)
            && m2[parent].parent == m0[parent].parent,
        m2.contains_key(x),
    ensures
        children_linked(m2, x),
{
    if !parent.spec_is_none() {
        assert(!m0[parent].children@.contains(h)) by {
            assert(children_linked(m0, parent));
            if m0[parent].children@.contains(h) {
                let j = choose|j: int| 0 <= j < m0[parent].children@.len() && m0[parent].children@[j] == h;
                assert(m0.contains_key(m0[parent].children@[j]));
            }
        }
    }
    if x != h {
        assert(m0.contains_key(x));
        assert(children_linked(m0, x));
        let c0 = m0[x].children@;
        let c2 = m2[x].children@;
        assert forall|j: int| 0 <= j < c0.len() implies #[trigger] m2.contains_key(c0[j])
            && m2[c0[j]].parent == x by {
            assert(m0.contains_key(c0[j]));
            assert(c0[j] != h);
        }
        if x == parent {
            assert(c2 == c0.push(h));
            assert(c2.no_duplicates()) by {
                assert forall|a: int, b: int| 0 <= a < c2.len() && 0 <= b < c2.len() && a != b
                    implies c2[a] != c2[b] by {
                    if a < c0.len() {
                        assert(c2[a] == c0[a]);
                    }
                    if b < c0.len() {
                        assert(c2[b] == c0[b]);
                    }
                }
            }
            assert forall|j: int| 0 <= j < c2.len() implies #[trigger] m2.contains_key(c2[j])
                && m2[c2[j]].parent == x by {
                if j < c0.len() {
                    assert(c2[j] == c0[j]);
                    assert(m2.contains_key(c0[j]));
                }
            }
        } else {
            assert(c2 == c0);
            assert forall|j: int| 0 <= j < c2.len() implies #[trigger] m2.contains_key(c2[j])
                && m2[c2[j]].parent == x by {
                assert(c2[j] == c0[j]);
                assert(m2.contains_key(c0[j]));
            }
        }
    } else {
        assert(m2[h].children@.no_duplicates());
    }
    assert(m2[x].children@.no_duplicates());
    assert(forall|j: int| 0 <= j < m2[x].children@.len() ==> #[trigger] m2.contains_key(m2[x].children@[j])
        && m2[m2[x].children@[j]].parent == x);
    assert(children_linked(m2, x));
}

proof fn lemma_add_links(m0: Map<Handle, Node>, m2: Map<Handle, Node>, h: Handle, parent: Handle)
    requires
        linked(m0),
        !m0.contains_key(h),
        !h.spec_is_none(),
        parent.spec_is_none() || m0.contains_key(parent),
        m2.dom() == m0.dom().insert(h),
        forall|x: Handle| #[trigger] m0.contains_key(x) && x != parent ==> m2[x] == m0[x],
        m2[h].parent == parent,
        m2[h].children@.len() == 0,
        !parent.spec_is_none() ==> m2[parent].children@ == m0[parent].children@.push(h)
            && m2[parent].parent == m0[parent].parent,
    ensures
        linked(m2),
{
    assert forall|x: Handle| #[trigger] m2.contains_key(x) implies children_linked(m2, x) by {
        lemma_add_child_links(m0, m2, h, parent, x);
    }
    assert forall|x: Handle| #[trigger] m2.contains_key(x) implies parent_linked(m2, x) by {
        if x != h {
            assert(m0.contains_key(x));
            assert(parent_linked(m0, x));
            let q = m0[x].parent;
            if !q.spec_is_none() && q == parent {
                let j = choose|j: int| 0 <= j < m0[q].children@.len() && m0[q].children@[j] == x;
                assert(m2[q].children@[j] == x);
            }
        } else if !parent.spec_is_none() {
            assert(m2[parent].children@.last() == h);
        }
    }
}

/// Visibility of `x` once propagated: its own flag and-ed with that of each
/// of its ancestors.
pub open spec fn global_vis(m: Map<Handle, Node>, rank: Map<Handle, nat>, x: Handle) -> bool
    decreases rank[x],
{
    if !m.contains_key(x) {
        false
    } else if !m[x].parent.spec_is_none() && rank.contains_key(m[x].parent)
        && rank[m[x].parent] < rank[x] {
        m[x].visibility && global_vis(m, rank, m[x].parent)
    } else {
        m[x].visibility
    }
}

/// The nodes with their global visibility recomputed.
pub open spec fn propagated(m: Map<Handle, Node>, rank: Map<Handle, nat>) -> Map<Handle, Node> {
    Map::new(
        |x: Handle| m.contains_key(x),
        |x: Handle| Node { global_visibility: global_vis(m, rank, x), ..m[x] },
    )
}

/// Both maps hold the same nodes with the same links and authored visibility.
pub open spec fn same_links(m0: Map<Handle, Node>, m1: Map<Handle, Node>) -> bool {
    &&& m1.dom() == m0.dom()
    &&& forall|x: Handle| #[trigger] m0.contains_key(x) ==> m1[x].parent == m0[x].parent
        && m1[x].children@ == m0[x].children@ && m1[x].visibility == m0[x].visibility
}

proof fn lemma_same_links_vis(m0: Map<Handle, Node>, m1: Map<Handle, Node>, rank: Map<Handle, nat>, x: Handle)
    requires
        same_links(m0, m1),
    ensures
        global_vis(m1, rank, x) == global_vis(m0, rank, x),
    decreases rank[x],
{
    if m0.contains_key(x) && !m0[x].parent.spec_is_none() && rank.contains_key(m0[x].parent)
        && rank[m0[x].parent] < rank[x] {
        lemma_same_links_vis(m0, m1, rank, m0[x].parent);
    }
}

/// Propagating visibility a second time changes nothing.
pub proof fn lemma_propagation_idempotent(m: Map<Handle, Node>, rank: Map<Handle, nat>)
    ensures
        propagated(propagated(m, rank), rank) == propagated(m, rank),
{
    let m1 = propagated(m, rank);
    assert(m1.dom() =~= m.dom());
    assert(same_links(m, m1));
    assert forall|x: Handle| #[trigger] m1.contains_key(x) implies propagated(m1, rank)[x] == m1[x] by {
        lemma_same_links_vis(m, m1, rank, x);
    }
    assert(propagated(m1, rank) =~= m1);
}

/// `p` lost its child `x` and kept everything else.
pub open spec fn detached_child(m0: Map<Handle, Node>, m1: Map<Handle, Node>, p: Handle, x: Handle) -> bool {
    &&& m1[p].children@ == m0[p].children@.remove_value(x)
    &&& m1[p].parent == m0[p].parent
    &&& keeps_data(m1[p], m0[p])
}

/// `m1` is `m0` without `x` and its descendants, `x` being detached from its
/// parent.
pub open spec fn subtree_removed(m0: Map<Handle, Node>, m1: Map<Handle, Node>, rank: Map<Handle, nat>, x: Handle) -> bool {
    &&& forall|y: Handle| #[trigger] m1.contains_key(y) <==> m0.contains_key(y) && !descends(m0, rank, y, x)
    &&& forall|y: Handle| #[trigger] m1.contains_key(y) && y != m0[x].parent ==> m1[y] == m0[y]
    &&& !m0[x].parent.spec_is_none() ==> detached_child(m0, m1, m0[x].parent, x)
}

/// Part way through removing `x`'s subtree: some of its descendants are gone,
/// and `x` has lost a tail of its children.
spec fn clearing(m0: Map<Handle, Node>, m: Map<Handle, Node>, rank: Map<Handle, nat>, x: Handle) -> bool {
    &&& forall|y: Handle| #[trigger] m.contains_key(y) ==> m0.contains_key(y) && m[y].parent == m0[y].parent
    &&& forall|y: Handle| #[trigger] m.contains_key(y) && y != x ==> m[y] == m0[y]
    &&& keeps_data(m[x], m0[x])
    &&& m[x].children@.len() <= m0[x].children@.len()
    &&& m[x].children@ == m0[x].children@.take(m[x].children@.len() as int)
    &&& forall|y: Handle| #[trigger] m0.contains_key(y) && !m.contains_key(y) ==> descends(m0, rank, y, x) && y != x
}

proof fn lemma_descends_sub(m: Map<Handle, Node>, m0: Map<Handle, Node>, rank: Map<Handle, nat>, y: Handle, c: Handle)
    requires
        forall|z: Handle| #[trigger] m.contains_key(z) ==> m0.contains_key(z) && m[z].parent == m0[z].parent,
    ensures
        descends(m, rank, y, c) ==> descends(m0, rank, y, c),
    decreases rank[y],
{
    if y != c && m.contains_key(y) && !m[y].parent.spec_is_none() && rank.contains_key(m[y].parent)
        && rank[m[y].parent] < rank[y] {
        lemma_descends_sub(m, m0, rank, m[y].parent, c);
    }
}

proof fn lemma_descends_through_parent(m0: Map<Handle, Node>, rank: Map<Handle, nat>, y: Handle, c: Handle, x: Handle)
    requires
        ranked(m0, rank),
        m0.contains_key(c),
        m0[c].parent == x,
        !x.spec_is_none(),
    ensures
        descends(m0, rank, y, c) ==> descends(m0, rank, y, x),
    decreases rank[y],
{
    if y == c {
        assert(descends(m0, rank, x, x));
    } else if m0.contains_key(y) && !m0[y].parent.spec_is_none() && rank.contains_key(m0[y].parent)
        && rank[m0[y].parent] < rank[y] {
        lemma_descends_through_parent(m0, rank, m0[y].parent, c, x);
    }
}

proof fn lemma_descends_rank(m: Map<Handle, Node>, rank: Map<Handle, nat>, y: Handle, c: Handle)
    ensures
        descends(m, rank, y, c) ==> rank[y] >= rank[c],
    decreases rank[y],
{
    if y != c && m.contains_key(y) && !m[y].parent.spec_is_none() && rank.contains_key(m[y].parent)
        && rank[m[y].parent] < rank[y] {
        lemma_descends_rank(m, rank, m[y].parent, c);
    }
}

proof fn lemma_leaf_has_no_live_descendant(m0: Map<Handle, Node>, m: Map<Handle, Node>, rank: Map<Handle, nat>, x: Handle, y: Handle)
    requires
        linked(m),
        forall|z: Handle| #[trigger] m.contains_key(z) ==> m0.contains_key(z) && m[z].parent == m0[z].parent,
        m.contains_key(x),
        m[x].children@.len() == 0,
        m.contains_key(y),
        descends(m0, rank, y, x),
    ensures
        y == x,
    decreases rank[y],
{
    if y != x {
        let q = m0[y].parent;
        assert(parent_linked(m, y));
        assert(m[q].children@.contains(y));
        if q != x {
            lemma_leaf_has_no_live_descendant(m0, m, rank, x, q);
        }
    }
}

proof fn lemma_remove_last(s: Seq<Handle>, c: Handle)
    requires
        s.no_duplicates(),
        s.len() > 0,
        s.last() == c,
    ensures
        s.remove_value(c) == s.drop_last(),
{
    s.index_of_first_ensures(c);
    let i = s.index_of_first(c)->Some_0;
    assert(i == s.len() - 1);
    assert(s.remove(i) =~= s.drop_last());
}

proof fn lemma_remove_leaf_child_links(m: Map<Handle, Node>, m1: Map<Handle, Node>, x: Handle, p: Handle, y: Handle)
    requires
        linked(m),
        m.contains_key(x),
        m[x].children@.len() == 0,
        p == m[x].parent,
        m1.dom() == m.dom().remove(x),
        forall|z: Handle| #[trigger] m1.contains_key(z) && z != p ==> m1[z] == m[z],
        !p.spec_is_none() ==> m1[p].children@ == m[p].children@.remove_value(x) && m1[p].parent == m[p].parent,
        m1.contains_key(y),
    ensures
        children_linked(m1, y),
{
    assert(children_linked(m, y));
    let c = m[y].children@;
    if y == p {
        c.index_of_first_ensures(x);
        let i = c.index_of_first(x)->Some_0;
        assert(parent_linked(m, x));
        let c1 = c.remove(i);
        assert(m1[y].children@ == c1);
        assert forall|a: int, b: int| 0 <= a < c1.len() && 0 <= b < c1.len() && a != b implies c1[a] != c1[b] by {
            let ka = if a >= i { a + 1 } else { a };
            let kb = if b >= i { b + 1 } else { b };
            assert(c1[a] == c[ka]);
            assert(c1[b] == c[kb]);
        }
        assert forall|j: int| 0 <= j < m1[y].children@.len() implies #[trigger] m1.contains_key(m1[y].children@[j])
            && m1[m1[y].children@[j]].parent == y by {
            let k = if j >= i { j + 1 } else { j };
            assert(c1[j] == c[k]);
            assert(m.contains_key(c[k]));
            assert(c[k] != x);
            assert(m1.contains_key(c[k]));
            assert(m1[c[k]].parent == m[c[k]].parent);
        }
    } else {
        assert forall|j: int| 0 <= j < m1[y].children@.len() implies #[trigger] m1.contains_key(m1[y].children@[j])
            && m1[m1[y].children@[j]].parent == y by {
            assert(m.contains_key(c[j]));
            assert(c[j] != x);
            assert(m1.contains_key(c[j]));
            assert(m1[c[j]].parent == m[c[j]].parent);
        }
    }
    assert(children_linked(m1, y));
}

proof fn lemma_remove_leaf(m: Map<Handle, Node>, m1: Map<Handle, Node>, x: Handle, p: Handle)
    requires
        linked(m),
        m.contains_key(x),
        m[x].children@.len() == 0,
        p == m[x].parent,
        m1.dom() == m.dom().remove(x),
        forall|z: Handle| #[trigger] m1.contains_key(z) && z != p ==> m1[z] == m[z],
        !p.spec_is_none() ==> m1[p].children@ == m[p].children@.remove_value(x) && m1[p].parent == m[p].parent,
    ensures
        linked(m1),
{
    assert forall|y: Handle| #[trigger] m1.contains_key(y) implies children_linked(m1, y) by {
        lemma_remove_leaf_child_links(m, m1, x, p, y);
    }
    assert forall|y: Handle| #[trigger] m1.contains_key(y) implies parent_linked(m1, y) by {
        assert(parent_linked(m, y));
        let q = m[y].parent;
        if !q.spec_is_none() {
            assert(q != x);
            if q == p {
                let c = m[p].children@;
                c.index_of_first_ensures(x);
                let i = c.index_of_first(x)->Some_0;
                let j = choose|j: int| 0 <= j < c.len() && c[j] == y;
                if j < i {
                    assert(c.remove(i)[j] == y);
                } else {
                    assert(c.remove(i)[j - 1] == y);
                }
            }
        }
    }
}

/// Both maps hold the same nodes with the same links.
proof fn lemma_same_parent_links(m0: Map<Handle, Node>, m1: Map<Handle, Node>, rank: Map<Handle, nat>)
    requires
        m1.dom() == m0.dom(),
        forall|x: Handle| #[trigger] m0.contains_key(x) ==> m1[x].parent == m0[x].parent
            && m1[x].children@ == m0[x].children@,
        linked(m0),
        ranked(m0, rank),
    ensures
        linked(m1),
        ranked(m1, rank),
{
    assert forall|x: Handle| #[trigger] m1.contains_key(x) implies parent_linked(m1, x) by {
        assert(parent_linked(m0, x));
    }
    assert forall|x: Handle| #[trigger] m1.contains_key(x) implies children_linked(m1, x) by {
        assert(children_linked(m0, x));
        assert forall|j: int| 0 <= j < m1[x].children@.len() implies #[trigger] m1.contains_key(m1[x].children@[j])
            && m1[m1[x].children@[j]].parent == x by {
            assert(m0.contains_key(m0[x].children@[j]));
        }
        assert(children_linked(m1, x));
    }
}

/// A tree of nodes held in a pool and addressed by handles.
pub struct Graph {
    pool: Pool<Node>,
    rank: Ghost<Map<Handle, nat>>,
    /// Strictly above every rank in use.
    bound: Ghost<nat>,
}

impl Graph {
    pub closed spec fn view(self) -> Map<Handle, Node> {
        self.pool.view()
    }

    pub closed spec fn wf(self) -> bool {
        &&& self.pool.wf()
        &&& linked(self.pool.view())
        &&& ranked(self.pool.view(), self.rank@)
        &&& forall|h: Handle| #[trigger] self.pool.view().contains_key(h) ==> self.rank@[h] < self.bound@
        &&& forall|h: Handle| #[trigger] self.pool.view().contains_key(h) ==> self.pool.view()[h].children@.len() < NONE_INDEX
    }

    /// The nodes of a well-formed graph form a forest.
    pub proof fn lemma_wf_forest(self)
        requires
            self.wf(),
        ensures
            is_forest(self.view()),
    {
        assert(ranked(self.view(), self.rank@));
    }

    pub fn new() -> (r: Graph)
        ensures
            r.wf(),
            r.view() == Map::<Handle, Node>::empty(),
            r.slots() == 0,
    {
        Graph { pool: Pool::new(), rank: Ghost(Map::empty()), bound: Ghost(0) }
    }

    pub fn is_valid_handle(&self, h: Handle) -> (r: bool)
        ensures
            r == self.view().contains_key(h),
    {
        self.pool.is_valid(h)
    }

    /// The node `h` addresses, or `Dangling` for a none or stale handle.
    pub fn get(&self, h: Handle) -> (r: Result<&Node, GraphError>)
        ensures
            self.view().contains_key(h) ==> r == Ok::<&Node, GraphError>(&self.view()[h]),
            !self.view().contains_key(h) ==> r == Err::<&Node, GraphError>(GraphError::Dangling),
    {
        match self.pool.get(h) {
            Ok(n) => Ok(n),
            Err(_) => Err(GraphError::Dangling),
        }
    }

    /// Adds `node` under `parent` (as a new root when `parent` is none),
    /// appending it to the parent's children. The node's own links are
    /// replaced: it gets `parent` as parent and no children.
    pub fn add(&mut self, parent: Handle, node: Node) -> (r: Result<Handle, GraphError>)
        requires
            old(self).wf(),
        ensures
            final(self).wf(),
            final(self).slots() <= old(self).slots() + 1,
            forall|g: Handle| #[trigger] old(self).issued(g) ==> final(self).issued(g),
            r is Ok ==> !old(self).issued(r->Ok_0) && final(self).issued(r->Ok_0),
            !parent.spec_is_none() && !old(self).view().contains_key(parent) ==> r
                == Err::<Handle, GraphError>(GraphError::InvalidParent),
            (parent.spec_is_none() || old(self).view().contains_key(parent)) ==> (if old(self).is_full() || (
            !parent.spec_is_none() && old(self).view()[parent].children@.len() + 1 >= NONE_INDEX) {
                r == Err::<Handle, GraphError>(GraphError::Exhausted)
            } else {
                r is Ok
            }),
            r is Err ==> final(self).view() == old(self).view(),
            r is Ok ==> ({
                let h = r->Ok_0;
                let m0 = old(self).view();
                let m1 = final(self).view();
                &&& !m0.contains_key(h)
                &&& m1.dom() == m0.dom().insert(h)
                &&& same_authored(m1[h], node)
                &&& m1[h].global_visibility == node.global_visibility
                &&& m1[h].body == node.body
                &&& m1[h].original == node.original
                &&& m1[h].parent == parent
                &&& m1[h].children@.len() == 0
                &&& forall|x: Handle| #[trigger]
                    m0.contains_key(x) && x != parent ==> m1[x] == m0[x]
                &&& !parent.spec_is_none() ==> {
                    &&& m1[parent].children@ == m0[parent].children@.push(h)
                    &&& same_authored(m1[parent], m0[parent])
                    &&& m1[parent].global_visibility == m0[parent].global_visibility
                    &&& m1[parent].parent == m0[parent].parent
                    &&& m1[parent].body == m0[parent].body
                    &&& m1[parent].original == m0[parent].original
                }
            }),
    {
        let is_root = parent.is_none();
        if !is_root && !self.pool.is_valid(parent) {
            return Err(GraphError::InvalidParent);
        }
        if self.pool.slot_count() >= (NONE_INDEX - 1) as usize {
            return Err(GraphError::Exhausted);
        }
        if !is_root && self.children_len(parent) >= (NONE_INDEX - 1) as usize {
            return Err(GraphError::Exhausted);
        }
        let mut node = node;
        node.parent = parent;
        node.children = Vec::new();
        let ghost m0 = self.pool.view();
        let ghost n0 = node;
        let h = self.pool.allocate(node);
        if !is_root {
            let pnode = self.pool.get_live_mut(parent);
            pnode.children.push(h);
        }
        proof {
            let m2 = self.pool.view();
            if is_root {
                self.rank@ = self.rank@.insert(h, 0);
                if self.bound@ == 0 {
                    self.bound@ = 1;
                }
            } else {
                self.rank@ = self.rank@.insert(h, self.rank@[parent] + 1);
                if self.bound@ <= self.rank@[h] {
                    self.bound@ = self.rank@[h] + 1;
                }
            }
            assert(m2.dom() =~= m0.dom().insert(h));
            lemma_add_links(m0, m2, h, parent);
        }
        Ok(h)
    }

    /// Number of pool slots, used or free; only `add` makes it grow, by at
    /// most one.
    pub closed spec fn slots(self) -> nat {
        self.pool.spec_slot_count()
    }

    /// `h` may have been handed out by this graph. Handles stay issued for
    /// good, and `add` only hands out handles that were never issued, so a
    /// handle made stale by `remove` never addresses a later node.
    pub closed spec fn issued(self, h: Handle) -> bool {
        self.pool.issued(h)
    }

    /// Every live handle has been issued.
    pub proof fn lemma_live_issued(self, h: Handle)
        requires
            self.wf(),
            self.view().contains_key(h),
        ensures
            self.issued(h),
    {
        self.pool.lemma_live_issued(h);
    }

    /// Every index a handle can have is taken by a slot.
    pub open spec fn is_full(self) -> bool {
        self.slots() + 1 >= NONE_INDEX
    }

    /// No node lies below itself: a node's parent never descends from it, so
    /// following parents from any node never comes back to it.
    pub proof fn lemma_no_cycle(self, x: Handle)
        requires
            self.wf(),
            self.view().contains_key(x),
            !self.view()[x].parent.spec_is_none(),
        ensures
            !self.is_descendant(self.view()[x].parent, x),
    {
        let m = self.pool.view();
        assert(m.contains_key(x));
        lemma_descends_rank(m, self.rank@, m[x].parent, x);
    }

    /// `x` is `h` exactly, or its parent is live and is `h` or lies below it.
    pub proof fn lemma_descendant_step(self, x: Handle, h: Handle)
        requires
            self.wf(),
            self.view().contains_key(x),
        ensures
            self.is_descendant(x, h) == (x == h || (!self.view()[x].parent.spec_is_none()
                && self.is_descendant(self.view()[x].parent, h))),
            !self.view()[x].parent.spec_is_none() ==> self.view().contains_key(self.view()[x].parent),
    {
        assert(parent_linked(self.pool.view(), x));
    }

    /// `x` is `h` or one of its descendants.
    pub closed spec fn is_descendant(self, x: Handle, h: Handle) -> bool {
        descends(self.pool.view(), self.rank@, x, h)
    }

    /// Whether `x` is `h` or lies below it; `x` must be live.
    fn walk_up_to(&self, x: Handle, h: Handle) -> (r: bool)
        requires
            self.wf(),
            self.view().contains_key(x),
        ensures
            r == self.is_descendant(x, h),
    {
        let ghost m = self.pool.view();
        let mut cur = x;
        loop
            invariant
                self.wf(),
                m == self.pool.view(),
                m.contains_key(cur),
                descends(m, self.rank@, x, h) == descends(m, self.rank@, cur, h),
            decreases self.rank@[cur],
        {
            if cur == h {
                return true;
            }
            let p = match self.pool.get(cur) {
                Ok(n) => n.parent,
                Err(_) => Handle::none(),
            };
            if p.is_none() {
                return false;
            }
            assert(parent_linked(m, cur));
            cur = p;
        }
    }

    /// The nodes as they are once global visibility has been propagated.
    pub closed spec fn hierarchy_updated(self) -> Map<Handle, Node> {
        propagated(self.pool.view(), self.rank@)
    }

    fn global_visibility_of(&self, x: Handle) -> (r: bool)
        requires
            self.wf(),
            self.view().contains_key(x),
        ensures
            r == global_vis(self.view(), self.rank@, x),
    {
        let ghost m = self.pool.view();
        let mut cur = x;
        let mut acc = true;
        loop
            invariant
                self.wf(),
                m == self.pool.view(),
                m.contains_key(cur),
                global_vis(m, self.rank@, x) == (acc && global_vis(m, self.rank@, cur)),
            decreases self.rank@[cur],
        {
            let (vis, p) = match self.pool.get(cur) {
                Ok(n) => (n.visibility, n.parent),
                Err(_) => (true, Handle::none()),
            };
            acc = acc && vis;
            if p.is_none() {
                return acc;
            }
            assert(parent_linked(m, cur));
            cur = p;
        }
    }

    /// Recomputes every node's global visibility from its own visibility and
    /// its ancestors'. Running it again right after changes nothing.
    pub fn update_hierarchical_data(&mut self)
        requires
            old(self).wf(),
        ensures
            final(self).wf(),
            final(self).slots() == old(self).slots(),
            forall|g: Handle| #[trigger] old(self).issued(g) ==> final(self).issued(g),
            final(self).view() == old(self).hierarchy_updated(),
            final(self).hierarchy_updated() == final(self).view(),
            final(self).view().dom() == old(self).view().dom(),
            forall|x: Handle| #[trigger] old(self).view().contains_key(x) ==> final(self).view()[x] == (Node {
                global_visibility: final(self).view()[x].visibility && (final(self).view()[x].parent.spec_is_none()
                    || final(self).view()[final(self).view()[x].parent].global_visibility),
                ..old(self).view()[x]
            }),
    {
        let ghost m0 = self.pool.view();
        let ghost rank0 = self.rank@;
        let n = self.pool.slot_count();
        let mut i: usize = 0;
        while i < n
            invariant
                self.pool.wf(),
                self.rank@ == rank0,
                self.bound@ == old(self).bound@,
                forall|g: Handle| #[trigger] old(self).pool.issued(g) ==> self.pool.issued(g),
                forall|h: Handle| #[trigger] m0.contains_key(h) ==> rank0[h] < self.bound@,
                forall|h: Handle| #[trigger] m0.contains_key(h) ==> m0[h].children@.len() < NONE_INDEX,
                linked(m0),
                ranked(m0, rank0),
                n == self.pool.spec_slot_count(),
                forall|h: Handle| #[trigger] m0.contains_key(h) ==> (h.index as int) < n,
                same_links(m0, self.pool.view()),
                forall|x: Handle| #[trigger] m0.contains_key(x) ==> self.pool.view()[x] == (Node {
                    global_visibility: self.pool.view()[x].global_visibility,
                    ..m0[x]
                }),
                forall|x: Handle| #[trigger] m0.contains_key(x) && (x.index as int) < i ==> self.pool.view()[x].global_visibility
                    == global_vis(m0, rank0, x),
            decreases n - i,
        {
            if let Some(h) = self.pool.handle_at(i) {
                proof {
                    lemma_same_parent_links(m0, self.pool.view(), rank0);
                    lemma_same_links_vis(m0, self.pool.view(), rank0, h);
                }
                let v = self.global_visibility_of(h);
                let ghost pre = self.pool.view();
                let node = self.pool.get_live_mut(h);
                node.global_visibility = v;
                proof {
                    let post = self.pool.view();
                    assert(post.dom() =~= m0.dom());
                    assert forall|x: Handle| #[trigger] m0.contains_key(x) implies post[x].parent == m0[x].parent
                        && post[x].children@ == m0[x].children@ && post[x].visibility == m0[x].visibility by {
                        assert(pre.contains_key(x));
                    }
                }
            }
            i += 1;
        }
        proof {
            let m1 = self.pool.view();
            lemma_same_parent_links(m0, m1, rank0);
            assert(m1 =~= propagated(m0, rank0));
            lemma_propagation_idempotent(m0, rank0);
            assert forall|x: Handle| #[trigger] m0.contains_key(x) implies m1[x] == (Node {
                global_visibility: m1[x].visibility && (m1[x].parent.spec_is_none()
                    || m1[m1[x].parent].global_visibility),
                ..m0[x]
            }) by {
                assert(parent_linked(m0, x));
                assert(ranked(m0, rank0));
            }
        }
    }

    fn children_len(&self, x: Handle) -> (r: usize)
        requires
            self.view().contains_key(x),
        ensures
            r == self.view()[x].children@.len(),
    {
        match self.pool.get(x) {
            Ok(n) => n.children.len(),
            Err(_) => 0,
        }
    }

    fn child_at(&self, x: Handle, i: usize) -> (r: Handle)
        requires
            self.view().contains_key(x),
            i < self.view()[x].children@.len(),
        ensures
            r == self.view()[x].children@[i as int],
    {
        match self.pool.get(x) {
            Ok(n) => n.children[i],
            Err(_) => Handle::none(),
        }
    }

    /// Frees `x` and all its descendants, deepest first, and detaches `x`
    /// from its parent.
    fn free_subtree(&mut self, x: Handle)
        requires
            old(self).wf(),
            old(self).view().contains_key(x),
        ensures
            final(self).wf(),
            final(self).slots() == old(self).slots(),
            forall|g: Handle| #[trigger] old(self).issued(g) ==> final(self).issued(g),
            final(self).rank@ == old(self).rank@,
            final(self).bound@ == old(self).bound@,
            subtree_removed(old(self).view(), final(self).view(), old(self).rank@, x),
        decreases old(self).bound@ - old(self).rank@[x],
    {
        let ghost m0 = self.pool.view();
        let ghost rank0 = self.rank@;
        proof {
            assert(m0[x].children@.take(m0[x].children@.len() as int) =~= m0[x].children@);
        }
        while self.children_len(x) > 0
            invariant
                self.wf(),
                self.rank@ == rank0,
                self.bound@ == old(self).bound@,
                linked(m0),
                ranked(m0, rank0),
                m0.contains_key(x),
                m0 == old(self).view(),
                rank0 == old(self).rank@,
                self.pool.view().contains_key(x),
                self.pool.spec_slot_count() == old(self).pool.spec_slot_count(),
                forall|g: Handle| #[trigger] old(self).issued(g) ==> self.issued(g),
                clearing(m0, self.pool.view(), rank0, x),
            decreases self.pool.view()[x].children@.len(),
        {
            let k = self.children_len(x);
            let c = self.child_at(x, k - 1);
            let ghost m = self.pool.view();
            proof {
                assert(children_linked(m, x));
                assert(m.contains_key(m[x].children@[k - 1]));
                assert(rank0[x] < rank0[c]);
                assert(rank0[c] < self.bound@);
            }
            self.free_subtree(c);
            proof {
                let m2 = self.pool.view();
                lemma_remove_last(m[x].children@, c);
                lemma_descends_rank(m, rank0, x, c);
                assert(m2.contains_key(x));
                assert(m2[x].children@ =~= m0[x].children@.take(m2[x].children@.len() as int));
                assert forall|y: Handle| #[trigger] m0.contains_key(y) && !m2.contains_key(y) implies descends(m0, rank0, y, x)
                    && y != x by {
                    if m.contains_key(y) {
                        lemma_descends_sub(m, m0, rank0, y, c);
                        lemma_descends_through_parent(m0, rank0, y, c, x);
                        lemma_descends_rank(m0, rank0, y, c);
                    }
                }
                assert forall|y: Handle| #[trigger] m2.contains_key(y) implies m0.contains_key(y) && m2[y].parent == m0[y].parent by {
                    assert(m.contains_key(y));
                }
                assert forall|y: Handle| #[trigger] m2.contains_key(y) && y != x implies m2[y] == m0[y] by {
                    assert(m.contains_key(y));
                }
            }
        }
        let ghost m = self.pool.view();
        let p = match self.pool.get(x) {
            Ok(n) => n.parent,
            Err(_) => Handle::none(),
        };
        proof {
            assert(parent_linked(m, x));
        }
        let ghost pool_a = self.pool;
        if p.is_some() {
            let pnode = self.pool.get_live_mut(p);
            let ghost c0 = pnode.children@;
            let mut i: usize = 0;
            let n = pnode.children.len();
            while pnode.children[i] != x
                invariant
                    n == pnode.children@.len(),
                    pnode.children@ == c0,
                    c0.contains(x),
                    i < n,
                    forall|j: int| 0 <= j < i ==> c0[j] != x,
                decreases n - i,
            {
                i += 1;
            }
            proof {
                c0.index_of_first_ensures(x);
            }
            pnode.children.remove(i);
        }
        let ghost pool_b = self.pool;
        let _ = self.pool.free(x);
        proof {
            assert forall|g: Handle| #[trigger] old(self).issued(g) implies self.issued(g) by {
                assert(pool_a.issued(g));
                assert(pool_b.issued(g));
            }
            let m3 = self.pool.view();
            assert(m3.dom() =~= m.dom().remove(x));
            lemma_remove_leaf(m, m3, x, p);
            assert forall|y: Handle| #[trigger] m3.contains_key(y) implies rank0.contains_key(y) && (
            !m3[y].parent.spec_is_none() ==> rank0.contains_key(m3[y].parent) && rank0[m3[y].parent]
                < rank0[y]) by {
                assert(m0.contains_key(y));
            }
            assert forall|y: Handle| #[trigger] m3.contains_key(y) <==> m0.contains_key(y) && !descends(m0, rank0, y, x) by {
                if m3.contains_key(y) && descends(m0, rank0, y, x) {
                    lemma_leaf_has_no_live_descendant(m0, m, rank0, x, y);
                }
            }
        }
    }

    /// Removes `h` together with all its descendants, and takes `h` out of
    /// its parent's children. Every handle to a removed node goes stale.
    pub fn remove(&mut self, h: Handle) -> (r: Result<Vec<Handle>, GraphError>)
        requires
            old(self).wf(),
        ensures
            final(self).wf(),
            final(self).slots() == old(self).slots(),
            forall|g: Handle| #[trigger] old(self).issued(g) ==> final(self).issued(g),
            !old(self).view().contains_key(h) ==> r == Err::<Vec<Handle>, GraphError>(GraphError::Dangling)
                && final(self).view() == old(self).view(),
            old(self).view().contains_key(h) ==> r is Ok,
            r is Ok ==> forall|y: Handle| #[trigger] r->Ok_0@.contains(y) <==> old(self).view().contains_key(y)
                && !final(self).view().contains_key(y),
            r is Ok ==> r->Ok_0@.no_duplicates(),
            r is Ok ==> forall|y: Handle| #[trigger] final(self).view().contains_key(y) <==> old(self).view().contains_key(y)
                && !old(self).is_descendant(y, h),
            r is Ok ==> forall|y: Handle| #[trigger] final(self).view().contains_key(y) && y != old(self).view()[h].parent
                ==> final(self).view()[y] == old(self).view()[y],
            r is Ok && !old(self).view()[h].parent.spec_is_none() ==> detached_child(
                old(self).view(),
                final(self).view(),
                old(self).view()[h].parent,
                h,
            ),
    {
        if !self.pool.is_valid(h) {
            return Err(GraphError::Dangling);
        }
        let before = self.handles();
        self.free_subtree(h);
        let mut removed: Vec<Handle> = Vec::new();
        let mut i: usize = 0;
        while i < before.len()
            invariant
                self.pool.wf(),
                i <= before@.len(),
                forall|y: Handle| #[trigger] before@.contains(y) <==> old(self).view().contains_key(y),
                before@.no_duplicates(),
                forall|y: Handle| #[trigger] removed@.contains(y) <==> exists|j: int|
                    0 <= j < i && before@[j] == y && !self.view().contains_key(y),
                forall|a: int, b: int| 0 <= a < removed@.len() && 0 <= b < removed@.len() && a != b ==> removed@[a] != removed@[b],
                forall|k: int| 0 <= k < removed@.len() ==> exists|j: int| 0 <= j < i && before@[j] == #[trigger] removed@[k],
            decreases before@.len() - i,
        {
            let y = before[i];
            let ghost prev = removed@;
            if !self.pool.is_valid(y) {
                removed.push(y);
                proof {
                    assert(removed@.last() == y);
                    assert forall|k: int| 0 <= k < prev.len() implies removed@[k] != y by {
                        let j = choose|j: int| 0 <= j < i && before@[j] == #[trigger] prev[k];
                        assert(before@[j] == prev[k]);
                    }
                    assert forall|z: Handle| #[trigger] removed@.contains(z) <==> exists|j: int|
                        0 <= j < i + 1 && before@[j] == z && !self.view().contains_key(z) by {
                        if removed@.contains(z) && z != y {
                            let k = choose|k: int| 0 <= k < removed@.len() && removed@[k] == z;
                            assert(prev[k] == z);
                            assert(prev.contains(z));
                        }
                        if z == y {
                            assert(before@[i as int] == z);
                        }
                        if exists|j: int| 0 <= j < i && before@[j] == z && !self.view().contains_key(z) {
                            assert(prev.contains(z));
                            let k = choose|k: int| 0 <= k < prev.len() && prev[k] == z;
                            assert(removed@[k] == z);
                        }
                    }
                    assert forall|k: int| 0 <= k < removed@.len() implies exists|j: int| 0 <= j < i + 1 && before@[j] == #[trigger] removed@[k] by {
                        if k < prev.len() {
                            assert(removed@[k] == prev[k]);
                        } else {
                            assert(before@[i as int] == removed@[k]);
                        }
                    }
                }
            } else {
                proof {
                    assert forall|z: Handle| #[trigger] removed@.contains(z) <==> exists|j: int|
                        0 <= j < i + 1 && before@[j] == z && !self.view().contains_key(z) by {
                        if exists|j: int| 0 <= j < i + 1 && before@[j] == z && !self.view().contains_key(z) {
                            let j = choose|j: int| 0 <= j < i + 1 && before@[j] == z && !self.view().contains_key(z);
                            assert(j != i);
                        }
                    }
                }
            }
            i += 1;
        }
        proof {
            assert forall|y: Handle| #[trigger] removed@.contains(y) <==> old(self).view().contains_key(y)
                && !self.view().contains_key(y) by {
                if old(self).view().contains_key(y) && !self.view().contains_key(y) {
                    assert(before@.contains(y));
                    let j = choose|j: int| 0 <= j < before@.len() && before@[j] == y;
                    assert(exists|j: int| 0 <= j < before@.len() && before@[j] == y && !self.view().contains_key(y));
                }
                if removed@.contains(y) {
                    let j = choose|j: int| 0 <= j < before@.len() && before@[j] == y && !self.view().contains_key(y);
                    assert(before@.contains(y));
                }
            }
        }
        Ok(removed)
    }

    /// The first live node, in slot order, with the given name.
    pub fn find_by_name(&self, name: &String) -> (r: Option<Handle>)
        requires
            self.wf(),
        ensures
            r is Some ==> self.view().contains_key(r->Some_0) && self.view()[r->Some_0].name@ == name@,
            r is Some ==> forall|h: Handle| #[trigger] self.view().contains_key(h) && h.index < r->Some_0.index
                ==> self.view()[h].name@ != name@,
            r is None ==> forall|h: Handle| #[trigger] self.view().contains_key(h) ==> self.view()[h].name@ != name@,
    {
        let n = self.pool.slot_count();
        let mut i: usize = 0;
        while i < n
            invariant
                self.wf(),
                n == self.pool.spec_slot_count(),
                forall|h: Handle| #[trigger] self.view().contains_key(h) ==> (h.index as int) < n,
                forall|h: Handle| #[trigger] self.view().contains_key(h) && (h.index as int) < i ==> self.view()[h].name@ != name@,
            decreases n - i,
        {
            if let Some(h) = self.pool.handle_at(i) {
                let node = match self.pool.get(h) {
                    Ok(node) => node,
                    Err(_) => {
                        return None;
                    },
                };
                if node.name == *name {
                    return Some(h);
                }
            }
            i += 1;
        }
        None
    }

    /// Sets the authored visibility of `h`; global visibility follows on the
    /// next update.
    pub fn set_visibility(&mut self, h: Handle, visibility: bool) -> (r: Result<(), GraphError>)
        requires
            old(self).wf(),
        ensures
            final(self).wf(),
            final(self).slots() == old(self).slots(),
            forall|g: Handle| #[trigger] old(self).issued(g) ==> final(self).issued(g),
            !old(self).view().contains_key(h) ==> r == Err::<(), GraphError>(GraphError::Dangling)
                && final(self).view() == old(self).view(),
            old(self).view().contains_key(h) ==> r is Ok && final(self).view() == old(self).view().insert(
                h,
                Node { visibility, ..old(self).view()[h] },
            ),
    {
        if !self.pool.is_valid(h) {
            return Err(GraphError::Dangling);
        }
        let ghost m0 = self.pool.view();
        let node = self.pool.get_live_mut(h);
        node.visibility = visibility;
        proof {
            let m1 = self.pool.view();
            assert(m1.dom() =~= m0.dom());
            lemma_same_parent_links(m0, m1, self.rank@);
        }
        Ok(())
    }

    /// Renames `h`.
    pub fn set_name(&mut self, h: Handle, name: String) -> (r: Result<(), GraphError>)
        requires
            old(self).wf(),
        ensures
            final(self).wf(),
            final(self).slots() == old(self).slots(),
            forall|g: Handle| #[trigger] old(self).issued(g) ==> final(self).issued(g),
            !old(self).view().contains_key(h) ==> r == Err::<(), GraphError>(GraphError::Dangling)
                && final(self).view() == old(self).view(),
            old(self).view().contains_key(h) ==> r is Ok && final(self).view() == old(self).view().insert(
                h,
                Node { name: name, ..old(self).view()[h] },
            ),
    {
        if !self.pool.is_valid(h) {
            return Err(GraphError::Dangling);
        }
        let ghost m0 = self.pool.view();
        let node = self.pool.get_live_mut(h);
        node.name = name;
        proof {
            let m1 = self.pool.view();
            assert(m1.dom() =~= m0.dom());
            lemma_same_parent_links(m0, m1, self.rank@);
        }
        Ok(())
    }

    /// Changes the variant of `h`.
    pub fn set_kind(&mut self, h: Handle, kind: NodeKind) -> (r: Result<(), GraphError>)
        requires
            old(self).wf(),
        ensures
            final(self).wf(),
            final(self).slots() == old(self).slots(),
            forall|g: Handle| #[trigger] old(self).issued(g) ==> final(self).issued(g),
            !old(self).view().contains_key(h) ==> r == Err::<(), GraphError>(GraphError::Dangling)
                && final(self).view() == old(self).view(),
            old(self).view().contains_key(h) ==> r is Ok && final(self).view() == old(self).view().insert(
                h,
                Node { kind: kind, ..old(self).view()[h] },
            ),
    {
        if !self.pool.is_valid(h) {
            return Err(GraphError::Dangling);
        }
        let ghost m0 = self.pool.view();
        let node = self.pool.get_live_mut(h);
        node.kind = kind;
        proof {
            let m1 = self.pool.view();
            assert(m1.dom() =~= m0.dom());
            lemma_same_parent_links(m0, m1, self.rank@);
        }
        Ok(())
    }

    /// Attaches `h` to a physics body, or detaches it with the none handle.
    pub fn set_body(&mut self, h: Handle, body: Handle) -> (r: Result<(), GraphError>)
        requires
            old(self).wf(),
        ensures
            final(self).wf(),
            final(self).slots() == old(self).slots(),
            forall|g: Handle| #[trigger] old(self).issued(g) ==> final(self).issued(g),
            !old(self).view().contains_key(h) ==> r == Err::<(), GraphError>(GraphError::Dangling)
                && final(self).view() == old(self).view(),
            old(self).view().contains_key(h) ==> r is Ok && final(self).view() == old(self).view().insert(
                h,
                Node { body: body, ..old(self).view()[h] },
            ),
    {
        if !self.pool.is_valid(h) {
            return Err(GraphError::Dangling);
        }
        let ghost m0 = self.pool.view();
        let node = self.pool.get_live_mut(h);
        node.body = body;
        proof {
            let m1 = self.pool.view();
            assert(m1.dom() =~= m0.dom());
            lemma_same_parent_links(m0, m1, self.rank@);
        }
        Ok(())
    }

    /// Records the template model `h` was instantiated from.
    pub fn set_resource(&mut self, h: Handle, resource: u64) -> (r: Result<(), GraphError>)
        requires
            old(self).wf(),
        ensures
            final(self).wf(),
            final(self).slots() == old(self).slots(),
            forall|g: Handle| #[trigger] old(self).issued(g) ==> final(self).issued(g),
            !old(self).view().contains_key(h) ==> r == Err::<(), GraphError>(GraphError::Dangling)
                && final(self).view() == old(self).view(),
            old(self).view().contains_key(h) ==> r is Ok && final(self).view() == old(self).view().insert(
                h,
                Node { resource: Some(resource), ..old(self).view()[h] },
            ),
    {
        if !self.pool.is_valid(h) {
            return Err(GraphError::Dangling);
        }
        let ghost m0 = self.pool.view();
        let node = self.pool.get_live_mut(h);
        node.resource = Some(resource);
        proof {
            let m1 = self.pool.view();
            assert(m1.dom() =~= m0.dom());
            lemma_same_parent_links(m0, m1, self.rank@);
        }
        Ok(())
    }

    /// Records the node of the template that `h` copies.
    pub fn set_original_handle(&mut self, h: Handle, original: Handle) -> (r: Result<(), GraphError>)
        requires
            old(self).wf(),
        ensures
            final(self).wf(),
            final(self).slots() == old(self).slots(),
            forall|g: Handle| #[trigger] old(self).issued(g) ==> final(self).issued(g),
            !old(self).view().contains_key(h) ==> r == Err::<(), GraphError>(GraphError::Dangling)
                && final(self).view() == old(self).view(),
            old(self).view().contains_key(h) ==> r is Ok && final(self).view() == old(self).view().insert(
                h,
                Node { original: original, ..old(self).view()[h] },
            ),
    {
        if !self.pool.is_valid(h) {
            return Err(GraphError::Dangling);
        }
        let ghost m0 = self.pool.view();
        let node = self.pool.get_live_mut(h);
        node.original = original;
        proof {
            let m1 = self.pool.view();
            assert(m1.dom() =~= m0.dom());
            lemma_same_parent_links(m0, m1, self.rank@);
        }
        Ok(())
    }

    /// Every live node's handle, once each, in slot order.
    pub fn handles(&self) -> (r: Vec<Handle>)
        requires
            self.wf(),
        ensures
            forall|h: Handle| #[trigger] r@.contains(h) <==> self.view().contains_key(h),
            r@.no_duplicates(),
    {
        let n = self.pool.slot_count();
        let mut out: Vec<Handle> = Vec::new();
        let mut i: usize = 0;
        while i < n
            invariant
                self.wf(),
                n == self.pool.spec_slot_count(),
                i <= n,
                forall|h: Handle| #[trigger] self.view().contains_key(h) ==> (h.index as int) < n,
                forall|h: Handle| #[trigger] out@.contains(h) <==> self.view().contains_key(h) && (h.index as int) < i,
                forall|j: int| 0 <= j < out@.len() ==> (#[trigger] out@[j].index as int) < i,
                out@.no_duplicates(),
            decreases n - i,
        {
            if let Some(h) = self.pool.handle_at(i) {
                let ghost before = out@;
                out.push(h);
                proof {
                    assert forall|g: Handle| #[trigger] out@.contains(g) implies self.view().contains_key(g) && (g.index as int) < i + 1 by {
                        if g != h {
                            let j = choose|j: int| 0 <= j < out@.len() && out@[j] == g;
                            assert(j < before.len());
                            assert(before[j] == g);
                            assert(before.contains(g));
                        }
                    }
                    assert forall|g: Handle| #[trigger] self.view().contains_key(g) && (g.index as int) < i + 1 implies out@.contains(g) by {
                        if g.index as int == i as int {
                            assert(g == h);
                            assert(out@[out@.len() - 1] == h);
                        } else {
                            assert(before.contains(g));
                            let j = choose|j: int| 0 <= j < before.len() && before[j] == g;
                            assert(out@[j] == g);
                        }
                    }
                    assert forall|a: int, b: int| 0 <= a < out@.len() && 0 <= b < out@.len() && a != b implies out@[a] != out@[b] by {
                        if a < before.len() && b < before.len() {
                            assert(out@[a] == before[a] && out@[b] == before[b]);
                        } else if a < before.len() {
                            assert(out@[a] == before[a]);
                            assert((before[a].index as int) < i);
                        } else if b < before.len() {
                            assert(out@[b] == before[b]);
                            assert((before[b].index as int) < i);
                        }
                    }
                    assert forall|j: int| 0 <= j < out@.len() implies (#[trigger] out@[j].index as int) < i + 1 by {
                        if j < before.len() {
                            assert(out@[j] == before[j]);
                        }
                    }
                }
            }
            i += 1;
        }
        out
    }

    /// The stored record of every live node, with its handle, once each and
    /// in slot order.
    pub fn records(&self) -> (r: Vec<(Handle, Vec<u8>)>)
        requires
            self.wf(),
        ensures
            forall|j: int|
                #![trigger r@[j]]
                0 <= j < r@.len() ==> self.view().contains_key(r@[j].0) && r@[j].1@ == record_bytes(
                    self.view()[r@[j].0],
                ),
            forall|h: Handle| #[trigger]
                self.view().contains_key(h) ==> exists|j: int| 0 <= j < r@.len() && #[trigger] r@[j].0 == h,
            forall|a: int, b: int| 0 <= a < r@.len() && 0 <= b < r@.len() && a != b ==> r@[a].0 != r@[b].0,
    {
        let hs = self.handles();
        let mut out: Vec<(Handle, Vec<u8>)> = Vec::new();
        let mut i: usize = 0;
        while i < hs.len()
            invariant
                self.wf(),
                forall|h: Handle| #[trigger] hs@.contains(h) <==> self.view().contains_key(h),
                hs@.no_duplicates(),
                i <= hs@.len(),
                out@.len() == i,
                forall|j: int| #![trigger out@[j]] 0 <= j < i ==> out@[j].0 == hs@[j] && out@[j].1@ == record_bytes(self.view()[hs@[j]]),
            decreases hs@.len() - i,
        {
            let h = hs[i];
            assert(hs@.contains(h));
            let bytes = match self.pool.get(h) {
                Ok(node) => encode_record(node),
                Err(_) => Vec::new(),
            };
            out.push((h, bytes));
            i += 1;
        }
        proof {
            assert forall|j: int| #![trigger out@[j]] 0 <= j < out@.len() implies self.view().contains_key(out@[j].0)
                && out@[j].1@ == record_bytes(self.view()[out@[j].0]) by {
                assert(hs@.contains(hs@[j]));
            }
            assert forall|h: Handle| #[trigger] self.view().contains_key(h) implies exists|j: int|
                0 <= j < out@.len() && #[trigger] out@[j].0 == h by {
                assert(hs@.contains(h));
                let j = choose|j: int| 0 <= j < hs@.len() && hs@[j] == h;
                assert(out@[j].0 == h);
            }
            assert forall|a: int, b: int| 0 <= a < out@.len() && 0 <= b < out@.len() && a != b implies out@[a].0 != out@[b].0 by {
                assert(out@[a].0 == hs@[a]);
                assert(out@[b].0 == hs@[b]);
            }
        }
        out
    }

    /// Moves `h` with its subtree under `new_parent`, as its last child, and
    /// takes it out of its former parent's children.
    pub fn reparent(&mut self, h: Handle, new_parent: Handle) -> (r: Result<(), GraphError>)
        requires
            old(self).wf(),
        ensures
            final(self).wf(),
            final(self).slots() == old(self).slots(),
            forall|g: Handle| #[trigger] old(self).issued(g) ==> final(self).issued(g),
            !old(self).view().contains_key(h) ==> r == Err::<(), GraphError>(GraphError::Dangling),
            old(self).view().contains_key(h) && !old(self).view().contains_key(new_parent) ==> r
                == Err::<(), GraphError>(GraphError::InvalidParent),
            old(self).view().contains_key(h) && old(self).view().contains_key(new_parent) ==> (r
                == Err::<(), GraphError>(GraphError::CycleDetected) <==> old(self).is_descendant(
                new_parent,
                h,
            )),
            old(self).view().contains_key(h) && old(self).view().contains_key(new_parent) && !old(
                self,
            ).is_descendant(new_parent, h) ==> (if old(self).view()[new_parent].children@.len() + 1 >= NONE_INDEX {
                r == Err::<(), GraphError>(GraphError::Exhausted)
            } else {
                r is Ok
            }),
            r is Err ==> final(self).view() == old(self).view(),
            r is Ok ==> final(self).view().dom() == old(self).view().dom(),
            r is Ok ==> forall|x: Handle| #[trigger]
                old(self).view().contains_key(x) ==> moved(old(self).view(), final(self).view(), h, new_parent, x),
    {
        if !self.pool.is_valid(h) {
            return Err(GraphError::Dangling);
        }
        if !self.pool.is_valid(new_parent) {
            return Err(GraphError::InvalidParent);
        }
        if self.walk_up_to(new_parent, h) {
            return Err(GraphError::CycleDetected);
        }
        if self.children_len(new_parent) >= (NONE_INDEX - 1) as usize {
            return Err(GraphError::Exhausted);
        }
        let ghost m0 = self.pool.view();
        let ghost rank0 = self.rank@;
        let p = match self.pool.get(h) {
            Ok(n) => n.parent,
            Err(_) => Handle::none(),
        };
        assert(parent_linked(m0, h));
        let ghost mut i_h: int = 0;
        if p.is_some() {
            let pnode = self.pool.get_live_mut(p);
            let ghost c0 = pnode.children@;
            let mut i: usize = 0;
            let n = pnode.children.len();
            while pnode.children[i] != h
                invariant
                    n == pnode.children@.len(),
                    pnode.children@ == c0,
                    c0.contains(h),
                    i < n,
                    forall|j: int| 0 <= j < i ==> c0[j] != h,
                decreases n - i,
            {
                i += 1;
            }
            proof {
                i_h = i as int;
            }
            pnode.children.remove(i);
        }
        let hnode = self.pool.get_live_mut(h);
        hnode.parent = new_parent;
        let npnode = self.pool.get_live_mut(new_parent);
        npnode.children.push(h);
        proof {
            let m3 = self.pool.view();
            let np = new_parent;
            let rank1 = Map::new(
                |x: Handle| rank0.contains_key(x),
                |x: Handle| if descends(m0, rank0, x, h) { (rank0[x] + rank0[np] + 1) as nat } else { rank0[x] },
            );
            assert(m0.contains_key(h));
            if !p.spec_is_none() {
                m0[p].children@.index_of_first_ensures(h);
                assert(m0[p].children@.remove_value(h) == m0[p].children@.remove(i_h));
            }
            assert(m3.dom() =~= m0.dom());
            assert forall|x: Handle| #[trigger] m0.contains_key(x) implies moved(m0, m3, h, new_parent, x) by {
                if x == p && x == new_parent {
                    assert(m3[x].children@ == moved_children(m0, h, new_parent, x));
                }
            }
            lemma_reparent_links(m0, m3, rank0, h, new_parent);
            lemma_reparent_ranks(m0, m3, rank0, rank1, h, new_parent);
            self.rank@ = rank1;
            self.bound@ = self.bound@ + self.bound@;
        }
        Ok(())
    }
}

} // verus!
