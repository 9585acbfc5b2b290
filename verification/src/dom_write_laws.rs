//! Reading and writing are lossless: writing the document that a canonical sequence of reader
//! events builds gives back exactly the text those events stand for.
use vstd::prelude::*;
use crate::dom::{DocV, NodeId, KindV, BuildV, DomErrorKind, lemma_child, lemma_depth_bound, lemma_node_ok, attrs_written, build_start, built, fed, fed_all, flushed, finished, ref_char, MAX_EVENTS};
use crate::xml::{XmlEventV, attrs_spec, text_char};
use crate::xml::escaped_text;

verus! {

/// Every child link points at a node of the document.
pub open spec fn closed(d: DocV) -> bool {
    forall|x: int, i: int| 0 <= x < d.nodes.len() && 0 <= i < d.nodes[x].children.len() ==> (#[trigger] d.nodes[x].children[i]) < d.nodes.len()
}

/// Writing `n` with `fuel` visits `p`.
pub open spec fn reach_f(d: DocV, n: NodeId, p: NodeId, fuel: nat) -> bool
    decreases fuel, 0nat,
{
    if fuel == 0 {
        false
    } else if n == p {
        true
    } else {
        reach_list(d, d.children(n), p, (fuel - 1) as nat)
    }
}

/// Writing the nodes `cs` with `fuel` visits `p`.
pub open spec fn reach_list(d: DocV, cs: Seq<NodeId>, p: NodeId, fuel: nat) -> bool
    decreases fuel, cs.len(),
{
    if cs.len() == 0 {
        false
    } else {
        reach_list(d, cs.drop_last(), p, fuel) || reach_f(d, cs.last(), p, fuel)
    }
}

/// `d2` keeps every node of `d1` but `p` as it was (new nodes may follow).
pub open spec fn kept_but(d1: DocV, d2: DocV, p: NodeId) -> bool {
    &&& d1.nodes.len() <= d2.nodes.len()
    &&& forall|x: int| 0 <= x < d1.nodes.len() && x != p ==> #[trigger] d2.nodes[x] == d1.nodes[x]
}

/// Writing a node that does not visit `p` is the same in a document that changed only `p`.
proof fn lemma_frame_f(d1: DocV, d2: DocV, p: NodeId, n: NodeId, fuel: nat)
    requires
        closed(d1),
        kept_but(d1, d2, p),
        (n as int) < d1.nodes.len(),
        !reach_f(d1, n, p, fuel),
    ensures
        d2.written_f(n, fuel) == d1.written_f(n, fuel),
        forall|s: NodeId| #[trigger] reach_f(d2, n, s, fuel) == reach_f(d1, n, s, fuel),
    decreases fuel, 0nat,
{
    if fuel > 0 {
        assert(d2.nodes[n as int] == d1.nodes[n as int]);
        let cs = d1.children(n);
        assert forall|i: int| 0 <= i < cs.len() implies (#[trigger] cs[i] as int) < d1.nodes.len() by {
            assert(d1.nodes[n as int].children[i] == cs[i]);
        }
        lemma_frame_list(d1, d2, p, cs, (fuel - 1) as nat);
        assert(d2.children(n) == cs);
        assert forall|s: NodeId| #[trigger] reach_f(d2, n, s, fuel) == reach_f(d1, n, s, fuel) by {
            assert(reach_list(d2, cs, s, (fuel - 1) as nat) == reach_list(d1, cs, s, (fuel - 1) as nat));
        }
    }
}

proof fn lemma_frame_list(d1: DocV, d2: DocV, p: NodeId, cs: Seq<NodeId>, fuel: nat)
    requires
        closed(d1),
        kept_but(d1, d2, p),
        forall|i: int| 0 <= i < cs.len() ==> (#[trigger] cs[i] as int) < d1.nodes.len(),
        !reach_list(d1, cs, p, fuel),
    ensures
        d2.written_list(cs, fuel) == d1.written_list(cs, fuel),
        forall|s: NodeId| #[trigger] reach_list(d2, cs, s, fuel) == reach_list(d1, cs, s, fuel),
    decreases fuel, cs.len(),
{
    if cs.len() > 0 {
        lemma_frame_list(d1, d2, p, cs.drop_last(), fuel);
        lemma_frame_f(d1, d2, p, cs.last(), fuel);
        assert forall|s: NodeId| #[trigger] reach_list(d2, cs, s, fuel) == reach_list(d1, cs, s, fuel) by {
            assert(reach_list(d2, cs.drop_last(), s, fuel) == reach_list(d1, cs.drop_last(), s, fuel));
            assert(reach_f(d2, cs.last(), s, fuel) == reach_f(d1, cs.last(), s, fuel));
        }
    }
}

/// Escaping text piece by piece.
proof fn lemma_escaped_concat(a: Seq<char>, b: Seq<char>)
    ensures
        escaped_text(a + b) == escaped_text(a) + escaped_text(b),
    decreases b.len(),
{
    if b.len() > 0 {
        lemma_escaped_concat(a, b.drop_last());
        assert((a + b).drop_last() =~= a + b.drop_last());
        assert((a + b).last() == b.last());
    } else {
        assert(a + b =~= a);
    }
}

/// The fuel the laws write with: more than any stack of open elements is deep.
pub open spec fn wfuel() -> nat {
    0x1_0000_0000_0000
}

/// An element written with separate start and end tags.
pub open spec fn open_element(k: KindV) -> bool {
    k matches KindV::Element { self_closing, .. } && !self_closing
}

/// How an open element's start tag is written.
pub open spec fn open_head(d: DocV, e: NodeId) -> Seq<char> {
    match d.kind(e) {
        KindV::Element { name, attrs, close_ws, .. } => "<"@ + name + attrs_written(attrs) + close_ws + ">"@,
        _ => seq![],
    }
}

/// What has been written of the open elements `st[j..]` and their finished children: for each
/// level, its finished children, then the start tag of the next open element.
pub open spec fn level_text(d: DocV, st: Seq<NodeId>, j: int) -> Seq<char>
    decreases st.len() - j,
{
    if j < 0 || j >= st.len() {
        seq![]
    } else if j == st.len() - 1 {
        d.written_list(d.children(st[j]), (wfuel() - j) as nat)
    } else {
        d.written_list(d.children(st[j]).drop_last(), (wfuel() - j) as nat) + open_head(d, st[j + 1]) + level_text(d, st, j + 1)
    }
}

/// The shape of a document while it is read: the open elements `st` form a chain from the
/// document node, each the last child of the one before; every other node is finished and
/// reaches no open element.
pub open spec fn open_chain(d: DocV, st: Seq<NodeId>) -> bool {
    &&& closed(d)
    &&& st.len() >= 1
    &&& st.len() < wfuel()
    &&& st[0] == 0
    &&& st.no_duplicates()
    &&& forall|j: int| 0 <= j < st.len() ==> (#[trigger] st[j] as int) < d.nodes.len()
    &&& forall|j: int| 0 <= j < st.len() - 1 ==> d.children(#[trigger] st[j]).len() > 0 && d.children(st[j]).last() == st[j + 1]
    &&& forall|j: int| 1 <= j < st.len() ==> open_element(#[trigger] d.kind(st[j]))
    &&& forall|j: int, i: int| 0 <= j < st.len() && 0 <= i < d.children(st[j]).len()
        && (j == st.len() - 1 || i < d.children(st[j]).len() - 1) ==> !st.contains(#[trigger] d.children(st[j])[i])
    &&& forall|x: NodeId, s: NodeId, f: nat| (x as int) < d.nodes.len() && !st.contains(x) && st.contains(s)
        ==> !#[trigger] reach_f(d, x, s, f)
}

/// Nodes none of which reaches `p` do not reach it as a list.
proof fn lemma_reach_list_none(d: DocV, cs: Seq<NodeId>, p: NodeId, fuel: nat)
    requires
        forall|i: int| 0 <= i < cs.len() ==> !reach_f(d, #[trigger] cs[i], p, fuel),
    ensures
        !reach_list(d, cs, p, fuel),
    decreases cs.len(),
{
    if cs.len() > 0 {
        lemma_reach_list_none(d, cs.drop_last(), p, fuel);
        assert(cs.last() == cs[cs.len() - 1]);
    }
}

/// A new leaf of kind `k` as the last child of the innermost open element.
pub open spec fn leaf_nodes(d: DocV, st: Seq<NodeId>, k: KindV) -> Seq<crate::dom::NodeV> {
    d.leaf_added(st.last(), k).nodes
}

proof fn lemma_leaf_shape(d: DocV, st: Seq<NodeId>, k: KindV, d2: DocV)
    requires
        open_chain(d, st),
        d.nodes.len() + 1 < u32::MAX,
        d2.nodes == leaf_nodes(d, st, k),
    ensures
        d2.nodes.len() == d.nodes.len() + 1,
        kept_but(d, d2, st.last()),
        d2.children(st.last()) == d.children(st.last()).push(d.nodes.len() as NodeId),
        d2.kind(st.last()) == d.kind(st.last()),
        d2.kind(d.nodes.len() as NodeId) == k,
        d2.children(d.nodes.len() as NodeId) == Seq::<NodeId>::empty(),
{
    let t = st.last();
    assert(st[st.len() - 1] == t);
    let d1 = d.allocated(k);
    assert(d1.children(t) == d.children(t));
}

/// Written text below the open element `st[j]` in a document that changed only at the innermost
/// open element is the same, up to what that element gained.
#[verifier::spinoff_prover]
#[verifier::rlimit(50)]
proof fn lemma_levels_grow(d: DocV, d2: DocV, st: Seq<NodeId>, j: int, w: Seq<char>)
    requires
        open_chain(d, st),
        0 <= j < st.len(),
        kept_but(d, d2, st.last()),
        forall|i: int| 0 <= i < st.len() ==> d2.kind(#[trigger] st[i]) == d.kind(st[i]),
        d2.written_list(d2.children(st.last()), (wfuel() - (st.len() - 1)) as nat)
            == d.written_list(d.children(st.last()), (wfuel() - (st.len() - 1)) as nat) + w,
    ensures
        level_text(d2, st, j) == level_text(d, st, j) + w,
    decreases st.len() - j,
{
    let t = st.last();
    assert(st[st.len() - 1] == t);
    if j < st.len() - 1 {
        lemma_levels_grow(d, d2, st, j + 1, w);
        let sj = st[j];
        assert(sj != t) by {
            assert(st[j] != st[st.len() - 1]);
        }
        assert(d2.nodes[sj as int] == d.nodes[sj as int]);
        let cs = d.children(sj).drop_last();
        let f = (wfuel() - j) as nat;
        assert forall|i: int| 0 <= i < cs.len() implies (#[trigger] cs[i] as int) < d.nodes.len() && !reach_f(d, cs[i], t, f) by {
            assert(cs[i] == d.children(sj)[i]);
            assert(!st.contains(d.children(sj)[i]));
            assert(st.contains(t));
        }
        lemma_reach_list_none(d, cs, t, f);
        lemma_frame_list(d, d2, t, cs, f);
        assert(d2.children(sj) == d.children(sj));
        assert(open_head(d2, st[j + 1]) == open_head(d, st[j + 1]));
        assert(level_text(d2, st, j) == d2.written_list(cs, f) + open_head(d2, st[j + 1]) + level_text(d2, st, j + 1));
        assert(level_text(d2, st, j) =~= level_text(d, st, j) + w);
    }
}

/// Adding a leaf at the innermost open element writes that leaf after everything so far, and
/// keeps the shape.
#[verifier::spinoff_prover]
#[verifier::rlimit(50)]
proof fn lemma_add_leaf(d: DocV, st: Seq<NodeId>, k: KindV, d2: DocV)
    requires
        open_chain(d, st),
        d.nodes.len() + 1 < u32::MAX,
        d2.nodes == leaf_nodes(d, st, k),
    ensures
        level_text(d2, st, 0) == level_text(d, st, 0) + d2.written_f(d.nodes.len() as NodeId, (wfuel() - (st.len() - 1)) as nat),
        open_chain(d2, st),
        d2.nodes.len() == d.nodes.len() + 1,
{
    let t = st.last();
    let n = d.nodes.len() as NodeId;
    assert(st[st.len() - 1] == t);
    lemma_leaf_shape(d, st, k, d2);
    let f = (wfuel() - (st.len() - 1)) as nat;
    let cs = d.children(t);
    assert forall|i: int| 0 <= i < cs.len() implies (#[trigger] cs[i] as int) < d.nodes.len() && !reach_f(d, cs[i], t, f) by {
        assert(!st.contains(cs[i]));
        assert(st.contains(t));
    }
    lemma_reach_list_none(d, cs, t, f);
    lemma_frame_list(d, d2, t, cs, f);
    assert(d2.children(t).drop_last() =~= cs);
    assert(d2.written_list(d2.children(t), f) == d.written_list(cs, f) + d2.written_f(n, f));
    assert forall|i: int| 0 <= i < st.len() implies d2.kind(#[trigger] st[i]) == d.kind(st[i]) by {
        if st[i] != t {
            assert(d2.nodes[st[i] as int] == d.nodes[st[i] as int]);
        }
    }
    lemma_levels_grow(d, d2, st, 0, d2.written_f(n, f));
    // the shape
    assert(closed(d2)) by {
        assert forall|x: int, i: int| 0 <= x < d2.nodes.len() && 0 <= i < d2.nodes[x].children.len() implies (#[trigger] d2.nodes[x].children[i]) < d2.nodes.len() by {
            if x == n {
            } else if x == t {
                if i < cs.len() {
                    assert(d2.nodes[x].children[i] == cs[i]);
                }
            } else {
                assert(d2.nodes[x] == d.nodes[x]);
            }
        }
    }
    assert forall|j: int| 0 <= j < st.len() - 1 implies d2.children(#[trigger] st[j]).len() > 0 && d2.children(st[j]).last() == st[j + 1] by {
        assert(st[j] != t);
        assert(d2.nodes[st[j] as int] == d.nodes[st[j] as int]);
    }
    assert forall|j: int| 1 <= j < st.len() implies open_element(#[trigger] d2.kind(st[j])) by {
        assert(d2.kind(st[j]) == d.kind(st[j]));
    }
    assert forall|j: int, i: int| 0 <= j < st.len() && 0 <= i < d2.children(st[j]).len()
        && (j == st.len() - 1 || i < d2.children(st[j]).len() - 1) implies !st.contains(#[trigger] d2.children(st[j])[i]) by {
        if st[j] == t {
            if i < cs.len() {
                assert(d2.children(t)[i] == cs[i]);
            } else {
                assert(d2.children(t)[i] == n);
                if st.contains(n) {
                    let q = choose|q: int| 0 <= q < st.len() && st[q] == n;
                    assert((st[q] as int) < d.nodes.len());
                }
            }
        } else {
            assert(d2.nodes[st[j] as int] == d.nodes[st[j] as int]);
        }
    }
    assert forall|x: NodeId, s: NodeId, g: nat| (x as int) < d2.nodes.len() && !st.contains(x) && st.contains(s)
        implies !#[trigger] reach_f(d2, x, s, g) by {
        if x == n {
            if g > 0 {
                if n == s {
                    let q = choose|q: int| 0 <= q < st.len() && st[q] == s;
                    assert((st[q] as int) < d.nodes.len());
                }
                assert(!reach_list(d2, d2.children(n), s, (g - 1) as nat));
            }
        } else {
            assert(st.contains(t));
            assert(!reach_f(d, x, t, g));
            lemma_frame_f(d, d2, t, x, g);
        }
    }
}

/// Below level `j`, the levels of `st2` (which agrees with `st` up to `t`) write what those of
/// `st` write, followed by `w`, when level `t` does.
#[verifier::spinoff_prover]
#[verifier::rlimit(50)]
proof fn lemma_levels_same_below(d: DocV, d2: DocV, st: Seq<NodeId>, st2: Seq<NodeId>, t: int, j: int, w: Seq<char>)
    requires
        open_chain(d, st),
        0 <= j <= t,
        t < st.len(),
        t < st2.len(),
        forall|i: int| 0 <= i <= t ==> st2[i] == st[i],
        forall|i: int| 0 <= i < t ==> d2.nodes[st[i] as int] == d.nodes[st[i] as int] && (#[trigger] st[i] as int) < d2.nodes.len(),
        forall|i: int| 0 <= i < t ==> d2.kind(#[trigger] st[i + 1]) == d.kind(st[i + 1]),
        kept_but(d, d2, st[t]),
        level_text(d2, st2, t) == level_text(d, st, t) + w,
    ensures
        level_text(d2, st2, j) == level_text(d, st, j) + w,
    decreases t - j,
{
    if j < t {
        lemma_levels_same_below(d, d2, st, st2, t, j + 1, w);
        let sj = st[j];
        assert(sj != st[t]) by {
            assert(st[j] != st[t]);
        }
        let cs = d.children(sj).drop_last();
        let f = (wfuel() - j) as nat;
        assert forall|i: int| 0 <= i < cs.len() implies (#[trigger] cs[i] as int) < d.nodes.len() && !reach_f(d, cs[i], st[t], f) by {
            assert(cs[i] == d.children(sj)[i]);
            assert(!st.contains(d.children(sj)[i]));
            assert(st.contains(st[t]));
        }
        lemma_reach_list_none(d, cs, st[t], f);
        lemma_frame_list(d, d2, st[t], cs, f);
        assert(d2.children(st2[j]) == d.children(sj));
        assert(open_head(d2, st2[j + 1]) == open_head(d, st[j + 1]));
        assert(j < st2.len() - 1);
        assert(j < st.len() - 1);
        assert(level_text(d2, st2, j) =~= level_text(d, st, j) + w);
    }
}

/// Opening an element at the innermost open element writes its start tag.
#[verifier::spinoff_prover]
#[verifier::rlimit(50)]
proof fn lemma_push(d: DocV, st: Seq<NodeId>, k: KindV, d2: DocV)
    requires
        open_chain(d, st),
        d.nodes.len() + 1 < u32::MAX,
        st.len() + 1 < wfuel(),
        d2.nodes == leaf_nodes(d, st, k),
        open_element(k),
    ensures
        level_text(d2, st.push(d.nodes.len() as NodeId), 0) == level_text(d, st, 0) + open_head(d2, d.nodes.len() as NodeId),
        open_chain(d2, st.push(d.nodes.len() as NodeId)),
        d2.nodes.len() == d.nodes.len() + 1,
{
    let t = st.last();
    let ti = st.len() - 1;
    let n = d.nodes.len() as NodeId;
    let st2 = st.push(n);
    assert(st[ti] == t);
    lemma_add_leaf(d, st, k, d2);
    lemma_leaf_shape(d, st, k, d2);
    let f = (wfuel() - ti) as nat;
    let cs = d.children(t);
    assert forall|i: int| 0 <= i < cs.len() implies (#[trigger] cs[i] as int) < d.nodes.len() && !reach_f(d, cs[i], t, f) by {
        assert(!st.contains(cs[i]));
        assert(st.contains(t));
    }
    lemma_reach_list_none(d, cs, t, f);
    lemma_frame_list(d, d2, t, cs, f);
    assert(d2.children(t).drop_last() =~= cs);
    assert(st2[ti] == t && st2[ti + 1] == n);
    assert(level_text(d2, st2, ti + 1) == d2.written_list(Seq::<NodeId>::empty(), (wfuel() - (ti + 1)) as nat));
    assert(level_text(d2, st2, ti) =~= level_text(d, st, ti) + open_head(d2, n));
    assert forall|i: int| 0 <= i < ti implies d2.nodes[st[i] as int] == d.nodes[st[i] as int] && (#[trigger] st[i] as int) < d2.nodes.len() by {
        assert(st[i] != st[ti]);
    }
    assert forall|i: int| 0 <= i < ti implies d2.kind(#[trigger] st[i + 1]) == d.kind(st[i + 1]) by {
        if st[i + 1] != t {
            assert(d2.nodes[st[i + 1] as int] == d.nodes[st[i + 1] as int]);
        }
    }
    lemma_levels_same_below(d, d2, st, st2, ti, 0, open_head(d2, n));
    // the shape: `open_chain(d2, st)` holds, and the new element is its childless last child
    assert(!st.contains(n)) by {
        if st.contains(n) {
            let q = choose|q: int| 0 <= q < st.len() && st[q] == n;
            assert((st[q] as int) < d.nodes.len());
        }
    }
    assert(st2.no_duplicates()) by {
        assert forall|a: int, b: int| 0 <= a < st2.len() && 0 <= b < st2.len() && a != b implies st2[a] != st2[b] by {
            if a < st.len() && b < st.len() {
                assert(st2[a] == st[a] && st2[b] == st[b]);
            } else if a < st.len() {
                assert(st2[a] == st[a]);
                assert(st.contains(st[a]));
            } else if b < st.len() {
                assert(st2[b] == st[b]);
                assert(st.contains(st[b]));
            }
        }
    }
    assert forall|j: int| 0 <= j < st2.len() implies (#[trigger] st2[j] as int) < d2.nodes.len() by {
        if j < st.len() {
            assert(st2[j] == st[j]);
        }
    }
    assert forall|j: int| 0 <= j < st2.len() - 1 implies d2.children(#[trigger] st2[j]).len() > 0 && d2.children(st2[j]).last() == st2[j + 1] by {
        if j < ti {
            assert(st2[j] == st[j] && st2[j + 1] == st[j + 1]);
        }
    }
    assert forall|j: int| 1 <= j < st2.len() implies open_element(#[trigger] d2.kind(st2[j])) by {
        if j < st.len() {
            assert(st2[j] == st[j]);
        }
    }
    assert forall|j: int, i: int| 0 <= j < st2.len() && 0 <= i < d2.children(st2[j]).len()
        && (j == st2.len() - 1 || i < d2.children(st2[j]).len() - 1) implies !st2.contains(#[trigger] d2.children(st2[j])[i]) by {
        if j == st2.len() - 1 {
            assert(d2.children(n).len() == 0);
        } else {
            assert(st2[j] == st[j]);
            let c = d2.children(st[j])[i];
            assert(!st.contains(c));
            if c == n {
                if st[j] == t {
                    assert(i < cs.len());
                    assert(c == cs[i]);
                    assert((cs[i] as int) < d.nodes.len());
                } else {
                    assert(d2.nodes[st[j] as int] == d.nodes[st[j] as int]);
                    assert((d.nodes[st[j] as int].children[i] as int) < d.nodes.len());
                }
            }
            if st2.contains(c) {
                let q = choose|q: int| 0 <= q < st2.len() && st2[q] == c;
                if q < st.len() {
                    assert(st[q] == c);
                }
            }
        }
    }
    assert forall|x: NodeId, s: NodeId, g: nat| (x as int) < d2.nodes.len() && !st2.contains(x) && st2.contains(s)
        implies !#[trigger] reach_f(d2, x, s, g) by {
        assert(!st.contains(x)) by {
            if st.contains(x) {
                let q = choose|q: int| 0 <= q < st.len() && st[q] == x;
                assert(st2[q] == x);
            }
        }
        if s == n {
            if x != n {
                assert(!reach_f(d, x, t, g));
                lemma_frame_f(d, d2, t, x, g);
                lemma_reach_new(d, d2, t, n, x, g);
            }
        } else {
            let q = choose|q: int| 0 <= q < st2.len() && st2[q] == s;
            assert(st[q] == s);
            assert(st.contains(s));
        }
    }
}

/// A node that does not reach `t` does not reach a node new in `d2` whose only link is from `t`.
proof fn lemma_reach_new(d: DocV, d2: DocV, t: NodeId, n: NodeId, x: NodeId, g: nat)
    requires
        closed(d),
        kept_but(d, d2, t),
        (n as int) >= d.nodes.len(),
        (x as int) < d.nodes.len(),
        !reach_f(d, x, t, g),
    ensures
        !reach_f(d, x, n, g),
    decreases g, 0nat,
{
    if g > 0 {
        let cs = d.children(x);
        lemma_reach_new_list(d, d2, t, n, cs, (g - 1) as nat);
    }
}

proof fn lemma_reach_new_list(d: DocV, d2: DocV, t: NodeId, n: NodeId, cs: Seq<NodeId>, g: nat)
    requires
        closed(d),
        kept_but(d, d2, t),
        (n as int) >= d.nodes.len(),
        forall|i: int| 0 <= i < cs.len() ==> (#[trigger] cs[i] as int) < d.nodes.len(),
        !reach_list(d, cs, t, g),
    ensures
        !reach_list(d, cs, n, g),
    decreases g, cs.len(),
{
    if cs.len() > 0 {
        lemma_reach_new_list(d, d2, t, n, cs.drop_last(), g);
        let c = cs.last();
        assert(c == cs[cs.len() - 1]);
        if g > 0 {
            assert forall|i: int| 0 <= i < d.children(c).len() implies (#[trigger] d.children(c)[i] as int) < d.nodes.len() by {
                assert(d.nodes[c as int].children[i] == d.children(c)[i]);
            }
        }
        lemma_reach_new(d, d2, t, n, c, g);
    }
}

/// Closing the innermost open element writes its end tag.
#[verifier::spinoff_prover]
#[verifier::rlimit(50)]
proof fn lemma_pop(d: DocV, st: Seq<NodeId>)
    requires
        open_chain(d, st),
        st.len() >= 2,
    ensures
        level_text(d, st.drop_last(), 0) == level_text(d, st, 0) + "</"@ + d.qname(st.last()) + ">"@,
        open_chain(d, st.drop_last()),
{
    let ti = st.len() - 1;
    let t = st[ti];
    let st2 = st.drop_last();
    let p = st[ti - 1];
    assert(st.last() == t);
    assert(st2[ti - 1] == p);
    let close = "</"@ + d.qname(t) + ">"@;
    let f = (wfuel() - (ti - 1)) as nat;
    assert(d.children(p).last() == t);
    assert(open_element(d.kind(t)));
    assert(d.written_f(t, f) =~= open_head(d, t) + d.written_list(d.children(t), (f - 1) as nat) + close);
    assert(level_text(d, st, ti) == d.written_list(d.children(t), (wfuel() - ti) as nat));
    assert(level_text(d, st2, ti - 1) == d.written_list(d.children(p), f));
    assert(level_text(d, st2, ti - 1) =~= level_text(d, st, ti - 1) + close);
    assert forall|i: int| 0 <= i <= ti - 1 implies st2[i] == st[i] by {}
    assert forall|i: int| 0 <= i < ti - 1 implies d.nodes[st[i] as int] == d.nodes[st[i] as int] && (#[trigger] st[i] as int) < d.nodes.len() by {}
    lemma_levels_same_below(d, d, st, st2, ti - 1, 0, close);
    // the shape
    assert(st2.no_duplicates());
    assert forall|j: int| 0 <= j < st2.len() implies (#[trigger] st2[j] as int) < d.nodes.len() by {
        assert(st2[j] == st[j]);
    }
    assert forall|j: int| 0 <= j < st2.len() - 1 implies d.children(#[trigger] st2[j]).len() > 0 && d.children(st2[j]).last() == st2[j + 1] by {
        assert(st2[j] == st[j] && st2[j + 1] == st[j + 1]);
    }
    assert forall|j: int| 1 <= j < st2.len() implies open_element(#[trigger] d.kind(st2[j])) by {
        assert(st2[j] == st[j]);
    }
    assert forall|j: int, i: int| 0 <= j < st2.len() && 0 <= i < d.children(st2[j]).len()
        && (j == st2.len() - 1 || i < d.children(st2[j]).len() - 1) implies !st2.contains(#[trigger] d.children(st2[j])[i]) by {
        assert(st2[j] == st[j]);
        let c = d.children(st[j])[i];
        if st2.contains(c) {
            let q = choose|q: int| 0 <= q < st2.len() && st2[q] == c;
            assert(st[q] == c);
            if j == st2.len() - 1 && i == d.children(st[j]).len() - 1 {
                assert(c == t);
                assert(st[q] == st[ti]);
            } else {
                assert(st.contains(c));
            }
        }
    }
    assert forall|x: NodeId, s: NodeId, g: nat| (x as int) < d.nodes.len() && !st2.contains(x) && st2.contains(s)
        implies !#[trigger] reach_f(d, x, s, g) by {
        let q = choose|q: int| 0 <= q < st2.len() && st2[q] == s;
        assert(st[q] == s);
        assert(st.contains(s));
        if x == t {
            if g > 0 {
                assert(s != t) by {
                    assert(st[q] != st[ti]);
                }
                let cs = d.children(t);
                assert forall|i: int| 0 <= i < cs.len() implies !reach_f(d, #[trigger] cs[i], s, (g - 1) as nat) by {
                    assert(!st.contains(cs[i]));
                    assert((cs[i] as int) < d.nodes.len());
                }
                lemma_reach_list_none(d, cs, s, (g - 1) as nat);
            }
        } else {
            if st.contains(x) {
                let r = choose|r: int| 0 <= r < st.len() && st[r] == x;
                if r < ti {
                    assert(st2[r] == x);
                }
            }
        }
    }
}

/// Attribute text written back exactly as read: writing the attributes it describes (each with
/// its leading whitespace, double-quoted, escaped), then the whitespace before the tag's end,
/// gives the text again.
pub open spec fn attrs_canonical(raw: Seq<char>) -> bool {
    attrs_spec(raw) matches Ok(p) && attrs_written(p.0) + p.1 == raw
}

/// A reference written back as read: one of `&amp;`, `&lt;`, `&gt;`, `&quot;`.
pub open spec fn ref_canonical(name: Seq<char>) -> bool {
    ref_char(name) matches Ok(c) && text_char(c) == "&"@ + name + ";"@
}

/// The text reader events stand for, the names of the elements still open after them, and
/// whether each is in canonical form: text without `& < > "`, references and attributes as
/// above, and each end tag closing an open element.
pub open spec fn events_read(evs: Seq<XmlEventV>) -> (Seq<char>, Seq<Seq<char>>, bool)
    decreases evs.len(),
{
    if evs.len() == 0 {
        (seq![], seq![], true)
    } else {
        let r = events_read(evs.drop_last());
        event_read(r.0, r.1, r.2, evs.last())
    }
}

/// One event read after text `t`, with the elements `names` open.
pub open spec fn event_read(t: Seq<char>, names: Seq<Seq<char>>, ok: bool, ev: XmlEventV) -> (Seq<char>, Seq<Seq<char>>, bool) {
    match ev {
        XmlEventV::Text(s) => (t + s, names, ok && escaped_text(s) == s),
        XmlEventV::Ref(n) => (t + "&"@ + n + ";"@, names, ok && ref_canonical(n)),
        XmlEventV::Start { name, attrs } => (t + "<"@ + name + attrs + ">"@, names.push(name), ok && attrs_canonical(attrs)),
        XmlEventV::Empty { name, attrs } => (t + "<"@ + name + attrs + "/>"@, names, ok && attrs_canonical(attrs)),
        XmlEventV::End => if names.len() > 0 {
            (t + "</"@ + names.last() + ">"@, names.drop_last(), ok)
        } else {
            (t, names, false)
        },
        XmlEventV::CData(s) => (t + "<![CDATA["@ + s + "]]>"@, names, ok),
        XmlEventV::Comment(s) => (t + "<!--"@ + s + "-->"@, names, ok),
        XmlEventV::PI(s) => (t + "<?"@ + s + "?>"@, names, ok),
        XmlEventV::Decl(s) => (t + "<?"@ + s + "?>"@, names, ok),
        XmlEventV::DocType(s) => (t + "<!DOCTYPE "@ + s + ">"@, names, ok),
        XmlEventV::Eof => (t, names, false),
    }
}

/// The text the events stand for.
pub open spec fn events_text(evs: Seq<XmlEventV>) -> Seq<char> {
    events_read(evs).0
}

/// Every event is in canonical form and every element is closed.
pub open spec fn canonical_events(evs: Seq<XmlEventV>) -> bool {
    events_read(evs).2 && events_read(evs).1.len() == 0
}

/// The reader state after canonical events: the open elements are those named, and what the
/// events stand for is what is written of the document so far, then the pending text.
pub open spec fn reading_ok(b: BuildV, names: Seq<Seq<char>>, text: Seq<char>) -> bool {
    &&& open_chain(b.doc, b.stack)
    &&& b.stack.len() == names.len() + 1
    &&& forall|i: int| 0 <= i < names.len() ==> names[i] == b.doc.qname(#[trigger] b.stack[i + 1])
    &&& !b.done
    &&& (!b.pending ==> b.buf == Seq::<char>::empty())
    &&& text == level_text(b.doc, b.stack, 0) + (if b.pending { escaped_text(b.buf) } else { seq![] })
}

/// Writing a fresh leaf.
proof fn lemma_leaf_written(d2: DocV, n: NodeId, f: nat)
    requires
        f > 0,
        d2.children(n) == Seq::<NodeId>::empty(),
    ensures
        d2.written_f(n, f) == match d2.kind(n) {
            KindV::Document => seq![],
            KindV::Element { name, attrs, self_closing, close_ws } => if self_closing {
                "<"@ + name + attrs_written(attrs) + close_ws + "/>"@
            } else {
                "<"@ + name + attrs_written(attrs) + close_ws + ">"@ + "</"@ + name + ">"@
            },
            KindV::Text(t) => escaped_text(t),
            KindV::CData(t) => "<![CDATA["@ + t + "]]>"@,
            KindV::Comment(t) => "<!--"@ + t + "-->"@,
            KindV::PI(t) => "<?"@ + t + "?>"@,
            KindV::Decl(t) => "<?"@ + t + "?>"@,
            KindV::DocType(t) => "<!DOCTYPE "@ + t + ">"@,
        },
{
    match d2.kind(n) {
        KindV::Element { name, attrs, self_closing, close_ws } => {
            assert(d2.written_list(Seq::<NodeId>::empty(), (f - 1) as nat) == Seq::<char>::empty());
            if !self_closing {
                assert(d2.written_f(n, f) =~= "<"@ + name + attrs_written(attrs) + close_ws + ">"@ + "</"@ + name + ">"@);
            }
        },
        _ => {},
    }
}

/// A leaf added at the innermost open element keeps the reading state, the leaf's text written.
proof fn lemma_leaf_step(b: BuildV, names: Seq<Seq<char>>, text: Seq<char>, k: KindV, b2: BuildV)
    requires
        reading_ok(b, names, text),
        !b.pending,
        b.doc.nodes.len() + 1 < u32::MAX,
        b2.doc.nodes == leaf_nodes(b.doc, b.stack, k),
        b2.stack == b.stack,
        b2.pending == b.pending,
        b2.buf == b.buf,
        b2.done == b.done,
    ensures
        reading_ok(b2, names, text + b2.doc.written_f(b.doc.nodes.len() as NodeId, (wfuel() - (b.stack.len() - 1)) as nat)),
        b2.doc.nodes.len() == b.doc.nodes.len() + 1,
        b2.doc.kind(b.doc.nodes.len() as NodeId) == k,
        b2.doc.children(b.doc.nodes.len() as NodeId) == Seq::<NodeId>::empty(),
{
    let d = b.doc;
    let st = b.stack;
    lemma_add_leaf(d, st, k, b2.doc);
    lemma_leaf_shape(d, st, k, b2.doc);
    assert forall|i: int| 0 <= i < names.len() implies names[i] == b2.doc.qname(#[trigger] b2.stack[i + 1]) by {
        let x = st[i + 1];
        assert(names[i] == d.qname(x));
        if x != st.last() {
            assert((x as int) < d.nodes.len());
            assert(b2.doc.nodes[x as int] == d.nodes[x as int]);
        }
    }
}

/// The pending text, written as a text node, changes nothing of what is written.
proof fn lemma_flush(b: BuildV, names: Seq<Seq<char>>, text: Seq<char>)
    requires
        reading_ok(b, names, text),
        b.doc.nodes.len() + 1 < u32::MAX,
    ensures
        reading_ok(flushed(b), names, text),
        !flushed(b).pending,
        flushed(b).doc.nodes.len() <= b.doc.nodes.len() + 1,
        flushed(b).stack == b.stack,
{
    if b.pending {
        let b2 = flushed(b);
        let b3 = BuildV { pending: false, buf: seq![], ..b };
        assert(reading_ok(b3, names, level_text(b.doc, b.stack, 0)));
        let f = (wfuel() - (b.stack.len() - 1)) as nat;
        lemma_leaf_step(b3, names, level_text(b.doc, b.stack, 0), KindV::Text(b.buf), b2);
        lemma_leaf_written(b2.doc, b.doc.nodes.len() as NodeId, f);
    }
}

/// The state after one more canonical event.
pub open spec fn step_ok(b: BuildV, names: Seq<Seq<char>>, t: Seq<char>, ev: XmlEventV) -> bool {
    let r = event_read(t, names, true, ev);
    &&& fed(b, ev) is Ok
    &&& reading_ok(fed(b, ev)->Ok_0, r.1, r.0)
    &&& fed(b, ev)->Ok_0.doc.nodes.len() <= b.doc.nodes.len() + 2
    &&& fed(b, ev)->Ok_0.stack.len() <= b.stack.len() + 1
}

/// The requirements of one step.
pub open spec fn step_pre(b: BuildV, names: Seq<Seq<char>>, t: Seq<char>, ev: XmlEventV) -> bool {
    &&& reading_ok(b, names, t)
    &&& event_read(t, names, true, ev).2
    &&& b.doc.nodes.len() + 2 < u32::MAX
    &&& b.stack.len() + 1 < wfuel()
}

#[verifier::rlimit(40)]
proof fn lemma_step_text(b: BuildV, names: Seq<Seq<char>>, t: Seq<char>, ev: XmlEventV)
    requires
        step_pre(b, names, t, ev),
        ev is Text || ev is Ref,
    ensures
        step_ok(b, names, t, ev),
{
    match ev {
        XmlEventV::Text(s) => {
            let b2 = BuildV { buf: b.buf + s, pending: true, ..b };
            assert(fed(b, ev) == Ok::<BuildV, crate::dom::DomErrorKind>(b2));
            lemma_escaped_concat(b.buf, s);
            if !b.pending {
                assert(b.buf + s =~= s);
                assert(escaped_text(Seq::<char>::empty()) == Seq::<char>::empty());
            }
            assert(event_read(t, names, true, ev).0 =~= level_text(b2.doc, b2.stack, 0) + escaped_text(b2.buf));
        },
        XmlEventV::Ref(n) => {
            let c = ref_char(n)->Ok_0;
            let b2 = BuildV { buf: b.buf.push(c), pending: true, ..b };
            assert(fed(b, ev) == Ok::<BuildV, crate::dom::DomErrorKind>(b2));
            assert(b.buf.push(c).drop_last() =~= b.buf);
            assert(escaped_text(b.buf.push(c)) == escaped_text(b.buf) + text_char(c));
            if !b.pending {
                assert(escaped_text(Seq::<char>::empty()) == Seq::<char>::empty());
            }
            assert(event_read(t, names, true, ev).0 =~= level_text(b2.doc, b2.stack, 0) + escaped_text(b2.buf));
        },
        _ => {},
    }
}

#[verifier::rlimit(40)]
proof fn lemma_step_end(b: BuildV, names: Seq<Seq<char>>, t: Seq<char>)
    requires
        step_pre(b, names, t, XmlEventV::End),
    ensures
        step_ok(b, names, t, XmlEventV::End),
{
    let ev = XmlEventV::End;
    lemma_flush(b, names, t);
    let b1 = flushed(b);
    assert(b1.stack.len() >= 2);
    let b2 = BuildV { stack: b1.stack.drop_last(), ..b1 };
    assert(fed(b, ev) == Ok::<BuildV, crate::dom::DomErrorKind>(b2));
    lemma_pop(b1.doc, b1.stack);
    assert(names.last() == b1.doc.qname(b1.stack.last())) by {
        assert(b1.stack.last() == b1.stack[names.len() - 1 + 1]);
    }
    assert forall|i: int| 0 <= i < names.drop_last().len() implies names.drop_last()[i] == b2.doc.qname(#[trigger] b2.stack[i + 1]) by {
        assert(b2.stack[i + 1] == b1.stack[i + 1]);
    }
    assert(event_read(t, names, true, ev).0 =~= level_text(b2.doc, b2.stack, 0));
}

#[verifier::rlimit(60)]
proof fn lemma_step_start(b: BuildV, names: Seq<Seq<char>>, t: Seq<char>, name: Seq<char>, attrs: Seq<char>)
    requires
        step_pre(b, names, t, XmlEventV::Start { name, attrs }),
    ensures
        step_ok(b, names, t, XmlEventV::Start { name, attrs }),
{
    let ev = XmlEventV::Start { name, attrs };
    lemma_flush(b, names, t);
    let b1 = flushed(b);
    let p = b1.stack.last();
    let (a, cw) = attrs_spec(attrs)->Ok_0;
    let k = KindV::Element { name: name, attrs: a, self_closing: false, close_ws: cw };
    let d2 = b1.doc.element_added(p, k);
    let n = b1.doc.nodes.len() as NodeId;
    let b2 = BuildV { doc: d2, stack: b1.stack.push(n), ..b1 };
    assert(fed(b, ev) == Ok::<BuildV, crate::dom::DomErrorKind>(b2));
    assert(d2.nodes == leaf_nodes(b1.doc, b1.stack, k));
    lemma_push(b1.doc, b1.stack, k, d2);
    lemma_leaf_shape(b1.doc, b1.stack, k, d2);
    assert(open_head(d2, n) =~= "<"@ + name + attrs + ">"@);
    assert forall|i: int| 0 <= i < names.push(name).len() implies names.push(name)[i] == b2.doc.qname(#[trigger] b2.stack[i + 1]) by {
        if i < names.len() {
            let x = b1.stack[i + 1];
            assert(b2.stack[i + 1] == x);
            if x != p {
                assert((x as int) < b1.doc.nodes.len());
                assert(d2.nodes[x as int] == b1.doc.nodes[x as int]);
            }
        }
    }
    assert(event_read(t, names, true, ev).0 =~= level_text(b2.doc, b2.stack, 0));
}

#[verifier::rlimit(60)]
#[verifier::spinoff_prover]
proof fn lemma_step_empty(b: BuildV, names: Seq<Seq<char>>, t: Seq<char>, name: Seq<char>, attrs: Seq<char>)
    requires
        step_pre(b, names, t, XmlEventV::Empty { name, attrs }),
    ensures
        step_ok(b, names, t, XmlEventV::Empty { name, attrs }),
{
    let ev = XmlEventV::Empty { name, attrs };
    lemma_flush(b, names, t);
    let b1 = flushed(b);
    let p = b1.stack.last();
    let f = (wfuel() - (b1.stack.len() - 1)) as nat;
    let n = b1.doc.nodes.len() as NodeId;
    let (a, cw) = attrs_spec(attrs)->Ok_0;
    let k = KindV::Element { name: name, attrs: a, self_closing: true, close_ws: cw };
    let d2 = b1.doc.element_added(p, k);
    let b2 = BuildV { doc: d2, ..b1 };
    assert(fed(b, ev) == Ok::<BuildV, crate::dom::DomErrorKind>(b2));
    assert(d2.nodes == leaf_nodes(b1.doc, b1.stack, k));
    lemma_leaf_step(b1, names, t, k, b2);
    lemma_leaf_written(d2, n, f);
    assert(event_read(t, names, true, ev).0 =~= t + d2.written_f(n, f));
}

/// How a leaf that is not an element is written.
pub open spec fn leaf_text(k: KindV) -> Seq<char> {
    match k {
        KindV::CData(s) => "<![CDATA["@ + s + "]]>"@,
        KindV::Comment(s) => "<!--"@ + s + "-->"@,
        KindV::PI(s) => "<?"@ + s + "?>"@,
        KindV::Decl(s) => "<?"@ + s + "?>"@,
        KindV::DocType(s) => "<!DOCTYPE "@ + s + ">"@,
        _ => seq![],
    }
}

#[verifier::rlimit(60)]
#[verifier::spinoff_prover]
proof fn lemma_step_plain(b: BuildV, names: Seq<Seq<char>>, t: Seq<char>, ev: XmlEventV, k: KindV)
    requires
        step_pre(b, names, t, ev),
        k is CData || k is Comment || k is PI || k is Decl || k is DocType,
        fed(b, ev) == Ok::<BuildV, crate::dom::DomErrorKind>(BuildV { doc: flushed(b).doc.leaf_added(flushed(b).stack.last(), k), ..flushed(b) }),
        event_read(t, names, true, ev).0 =~= t + leaf_text(k),
        event_read(t, names, true, ev).1 == names,
    ensures
        step_ok(b, names, t, ev),
{
    lemma_flush(b, names, t);
    let b1 = flushed(b);
    let p = b1.stack.last();
    let f = (wfuel() - (b1.stack.len() - 1)) as nat;
    let n = b1.doc.nodes.len() as NodeId;
    let b2 = BuildV { doc: b1.doc.leaf_added(p, k), ..b1 };
    lemma_leaf_step(b1, names, t, k, b2);
    lemma_leaf_written(b2.doc, n, f);
    assert(b2.doc.written_f(n, f) == leaf_text(k));
}

/// Reading canonical events keeps the reading state.
#[verifier::spinoff_prover]
#[verifier::rlimit(50)]
proof fn lemma_reading(evs: Seq<XmlEventV>, source_len: usize)
    requires
        events_read(evs).2,
        evs.len() < MAX_EVENTS,
    ensures
        fed_all(build_start(source_len), evs) is Ok,
        reading_ok(fed_all(build_start(source_len), evs)->Ok_0, events_read(evs).1, events_read(evs).0),
        fed_all(build_start(source_len), evs)->Ok_0.doc.nodes.len() <= 1 + 2 * evs.len(),
        fed_all(build_start(source_len), evs)->Ok_0.stack.len() <= 1 + evs.len(),
    decreases evs.len(),
{
    if evs.len() == 0 {
        let b = build_start(source_len);
        assert(b.stack[0] == 0);
        assert(closed(b.doc));
        assert forall|x: NodeId, s: NodeId, f: nat| (x as int) < b.doc.nodes.len() && !b.stack.contains(x) && b.stack.contains(s)
            implies !#[trigger] reach_f(b.doc, x, s, f) by {
            assert(x == 0);
            assert(b.stack[0] == x);
        }
        assert(level_text(b.doc, b.stack, 0) == b.doc.written_list(Seq::<NodeId>::empty(), wfuel()));
        assert(events_read(evs).0 =~= Seq::<char>::empty());
    } else {
        let pre = evs.drop_last();
        let ev = evs.last();
        let r0 = events_read(pre);
        lemma_reading(pre, source_len);
        let b = fed_all(build_start(source_len), pre)->Ok_0;
        assert(fed_all(build_start(source_len), evs) == fed(b, ev));
        assert(event_read(r0.0, r0.1, true, ev).2);
        assert(events_read(evs) == event_read(r0.0, r0.1, r0.2, ev));
        assert(event_read(r0.0, r0.1, r0.2, ev).0 == event_read(r0.0, r0.1, true, ev).0);
        assert(event_read(r0.0, r0.1, r0.2, ev).1 == event_read(r0.0, r0.1, true, ev).1);
        assert(step_pre(b, r0.1, r0.0, ev));
        match ev {
            XmlEventV::Text(_) => lemma_step_text(b, r0.1, r0.0, ev),
            XmlEventV::Ref(_) => lemma_step_text(b, r0.1, r0.0, ev),
            XmlEventV::End => lemma_step_end(b, r0.1, r0.0),
            XmlEventV::Start { name, attrs } => lemma_step_start(b, r0.1, r0.0, name, attrs),
            XmlEventV::Eof => {},
            XmlEventV::Empty { name, attrs } => lemma_step_empty(b, r0.1, r0.0, name, attrs),
            XmlEventV::CData(x) => lemma_step_plain(b, r0.1, r0.0, ev, KindV::CData(x)),
            XmlEventV::Comment(x) => lemma_step_plain(b, r0.1, r0.0, ev, KindV::Comment(x)),
            XmlEventV::PI(x) => lemma_step_plain(b, r0.1, r0.0, ev, KindV::PI(x)),
            XmlEventV::Decl(x) => lemma_step_plain(b, r0.1, r0.0, ev, KindV::Decl(x)),
            XmlEventV::DocType(x) => lemma_step_plain(b, r0.1, r0.0, ev, KindV::DocType(x)),
        }
    }
}
/// Writing does not depend on more fuel than the node's height needs.
proof fn lemma_fuel_f(d: DocV, n: NodeId, f: nat, g: nat)
    requires
        d.wf(),
        d.valid(n),
        f >= d.nodes.len() - d.dep(n),
        g >= d.nodes.len() - d.dep(n),
    ensures
        d.written_f(n, f) == d.written_f(n, g),
    decreases f, 0nat,
{
    lemma_depth_bound(d, n);
    let cs = d.children(n);
    assert forall|i: int| 0 <= i < cs.len() implies d.valid(#[trigger] cs[i]) && d.dep(cs[i]) == d.dep(n) + 1 by {
        lemma_child(d, n, i);
    }
    lemma_fuel_list(d, n, cs, (f - 1) as nat, (g - 1) as nat);
}

proof fn lemma_fuel_list(d: DocV, m: NodeId, cs: Seq<NodeId>, f: nat, g: nat)
    requires
        d.wf(),
        forall|i: int| 0 <= i < cs.len() ==> d.valid(#[trigger] cs[i]) && d.dep(cs[i]) == d.dep(m) + 1,
        f >= d.nodes.len() - d.dep(m) - 1,
        g >= d.nodes.len() - d.dep(m) - 1,
    ensures
        d.written_list(cs, f) == d.written_list(cs, g),
    decreases f, cs.len(),
{
    if cs.len() > 0 {
        lemma_fuel_list(d, m, cs.drop_last(), f, g);
        assert(cs.last() == cs[cs.len() - 1]);
        lemma_fuel_f(d, cs.last(), f, g);
    }
}

/// Writing looks only at the nodes.
proof fn lemma_same_nodes_f(d1: DocV, d2: DocV, n: NodeId, f: nat)
    requires
        d1.nodes == d2.nodes,
    ensures
        d1.written_f(n, f) == d2.written_f(n, f),
    decreases f, 0nat,
{
    if f > 0 {
        lemma_same_nodes_list(d1, d2, d1.children(n), (f - 1) as nat);
    }
}

proof fn lemma_same_nodes_list(d1: DocV, d2: DocV, cs: Seq<NodeId>, f: nat)
    requires
        d1.nodes == d2.nodes,
    ensures
        d1.written_list(cs, f) == d2.written_list(cs, f),
    decreases f, cs.len(),
{
    if cs.len() > 0 {
        lemma_same_nodes_list(d1, d2, cs.drop_last(), f);
        lemma_same_nodes_f(d1, d2, cs.last(), f);
    }
}

/// Reading and writing are lossless: the document that canonical reader events build (see
/// `canonical_events`: text without `& < > "`, only the references `&amp; &lt; &gt; &quot;`,
/// attributes written back as read, end tags `</name>` closing what is open) is written as
/// exactly the text the events stand for.
#[verifier::spinoff_prover]
#[verifier::rlimit(50)]
pub proof fn law_write_from_events(evs: Seq<XmlEventV>, source_len: usize, dv: DocV)
    requires
        canonical_events(evs),
        evs.len() < MAX_EVENTS,
        built(evs, source_len) == Ok::<DocV, DomErrorKind>(dv),
        dv.wf(),
    ensures
        dv.serialized() == events_text(evs),
{
    lemma_reading(evs, source_len);
    let b = fed_all(build_start(source_len), evs)->Ok_0;
    let r = events_read(evs);
    lemma_flush(b, r.1, r.0);
    let b1 = flushed(b);
    let d = b1.doc;
    assert(b1.stack.len() == 1);
    assert(b1.stack[0] == 0);
    assert(r.0 == d.written_list(d.children(0), wfuel()));
    assert(finished(b) == Ok::<DocV, DomErrorKind>(dv));
    assert(dv.nodes == d.nodes);
    lemma_same_nodes_list(d, dv, d.children(0), wfuel());
    assert(dv.children(0) == d.children(0));
    lemma_node_ok(dv, 0);
    assert forall|i: int| 0 <= i < dv.children(0).len() implies dv.valid(#[trigger] dv.children(0)[i]) && dv.dep(dv.children(0)[i]) == dv.dep(0) + 1 by {
        lemma_child(dv, 0, i);
    }
    lemma_fuel_list(dv, 0, dv.children(0), wfuel(), (dv.nodes.len() - 1 - dv.dep(0)) as nat);
}

} // verus!
