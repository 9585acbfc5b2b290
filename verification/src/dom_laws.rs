//! Laws of the document model: what reading gives back after each kind of write.
use vstd::prelude::*;
use crate::dom::{DocV, KindV, NodeId, lemma_index_of, lemma_child, lemma_local_name_after, attrs_distinct, lemma_attrs_set_get, lemma_attrs_remove_get, lemma_attr_pos, lemma_node_ok, lemma_anc_unfold, lemma_anc_dep, pos_in};

verus! {

/// Reading an attribute just written gives the written value; other attributes of the node,
/// and every attribute of every other node, read as before.
pub proof fn law_attr_after_set(d: DocV, n: NodeId, name: Seq<char>, value: Seq<char>, m: NodeId, other: Seq<char>)
    requires
        d.wf(),
        d.valid(n),
        d.valid(m),
        d.is_element(n),
    ensures
        d.attr_set(n, name, value).attr(n, name) == Some(value),
        other != name ==> d.attr_set(n, name, value).attr(n, other) == d.attr(n, other),
        m != n ==> d.attr_set(n, name, value).attr(m, other) == d.attr(m, other),
{
    lemma_attrs_set_get(d.attrs(n), name, value, other);
}

/// Once an attribute is removed it reads as absent (names of the node distinct); the other
/// attributes read as before.
pub proof fn law_attr_after_remove(d: DocV, n: NodeId, name: Seq<char>, m: NodeId, other: Seq<char>)
    requires
        d.wf(),
        d.valid(n),
        d.valid(m),
        attrs_distinct(d.attrs(n)),
    ensures
        d.attr_removed(n, name).attr(n, name) is None,
        other != name ==> d.attr_removed(n, name).attr(n, other) == d.attr(n, other),
        m != n ==> d.attr_removed(n, name).attr(m, other) == d.attr(m, other),
{
    lemma_attrs_remove_get(d.attrs(n), name, other);
    lemma_attr_pos(d.attrs(n), name);
}

/// Text written into a Text or CData node reads back.
pub proof fn law_text_after_set(d: DocV, n: NodeId, s: Seq<char>)
    requires
        d.wf(),
        d.valid(n),
        d.is_text(n),
    ensures
        d.text_set(n, s).text(n) == Some(s),
{
}

/// A detached node has no parent and its former parent no longer lists it.
pub proof fn law_detached(d: DocV, n: NodeId)
    requires
        d.wf(),
        d.valid(n),
    ensures
        d.detached(n).parent(n) is None,
        d.parent(n) matches Some(p) ==> !d.detached(n).children(p).contains(n),
{
    match d.parent(n) {
        Some(p) => {
            lemma_node_ok(d, n);
            lemma_node_ok(d, p);
            let cs = d.children(p);
            let i = pos_in(cs, n);
            assert(0 <= i < cs.len() && cs[i] == n);
            let cs2 = cs.remove(i);
            assert(p != n);
            if cs2.contains(n) {
                let j = choose|j: int| 0 <= j < cs2.len() && cs2[j] == n;
                if j < i {
                    assert(cs[j] == n);
                } else {
                    assert(cs[j + 1] == n);
                }
            }
        },
        None => {},
    }
}

/// An appended node is its new parent's last child.
pub proof fn law_appended(d: DocV, p: NodeId, n: NodeId)
    requires
        d.wf(),
        d.valid(p),
        d.valid(n),
        d.can_attach(n, p),
    ensures
        d.appended(p, n).parent(n) == Some(p),
        d.appended(p, n).children(p).last() == n,
{
    let d1 = d.detached(n);
    law_detached(d, n);
    match d.parent(n) {
        Some(q) => {
            lemma_node_ok(d, n);
            assert(d1.nodes == d.detach_struct(n, q).nodes);
        },
        None => {},
    }
    assert(d1.nodes.len() == d.nodes.len());
    assert(p != n) by {
        lemma_anc_unfold(d, n, p);
    }
    let i = d1.children(p).len() as int;
    let d2 = d1.attached_at(p, i, n);
    assert(d2.nodes == d1.attach_struct(p, i, n).nodes);
    assert(d2.children(p) == d1.children(p).insert(i, n));
    assert(d1.children(p).insert(i, n).last() == n);
}


/// Siblings are nodes of the document.
pub proof fn law_sibling_valid(d: DocV, n: NodeId)
    requires
        d.wf(),
        d.valid(n),
    ensures
        d.prev_sibling(n) matches Some(x) ==> d.valid(x),
        d.next_sibling(n) matches Some(x) ==> d.valid(x),
{
    match d.parent(n) {
        Some(p) => {
            lemma_node_ok(d, n);
            lemma_node_ok(d, p);
            let cs = d.children(p);
            let i = pos_in(cs, n);
            assert(0 <= i < cs.len() && cs[i] == n);
            if i > 0 {
                assert(d.child_ok(p, cs[i - 1]));
            }
            if i + 1 < cs.len() {
                assert(d.child_ok(p, cs[i + 1]));
            }
        },
        None => {},
    }
}


/// Detaching `n` leaves its former parent's depth as it was.
pub proof fn law_detach_keeps_depth(d: DocV, n: NodeId, p: NodeId)
    requires
        d.wf(),
        d.valid(n),
        d.parent(n) == Some(p),
    ensures
        d.detached(n).dep(p) == d.dep(p),
        d.detached(n).nodes.len() == d.nodes.len(),
{
    lemma_node_ok(d, n);
    let d1 = d.detach_struct(n, p);
    assert(d.detached(n).depth == d1.depth);
    if d.anc_or_self(n, p) {
        lemma_anc_dep(d, n, p);
    }
}

/// `defs` asked twice gives one element: when the root has no `<defs>` child, the one `defs`
/// makes is a `<defs>` element and the root's first child, so it is afterwards the root's first
/// `<defs>` child, and a second call returns it and changes nothing.
pub proof fn law_defs_made_is_found(d: DocV)
    requires
        d.wf(),
        d.nodes.len() + 1 < u32::MAX,
        d.first_defs(d.children(d.svg)) is None,
    ensures
        d.defs_made().first_defs(d.defs_made().children(d.defs_made().svg)) == Some(d.nodes.len() as NodeId),
        d.defs_made().svg == d.svg,
        d.defs_made().children(d.svg).len() > 0 && d.defs_made().children(d.svg)[0] == d.nodes.len() as NodeId,
        d.defs_made().is_element(d.nodes.len() as NodeId) && d.defs_made().tag(d.nodes.len() as NodeId) == "defs"@,
{
    reveal_strlit("defs");
    let r = d.nodes.len() as NodeId;
    let d1 = d.allocated(KindV::Element { name: "defs"@, attrs: seq![], self_closing: true, close_ws: seq![] });
    let d2 = d.defs_made();
    lemma_node_ok(d, d.svg);
    assert(d1.children(d.svg) == d.children(d.svg));
    assert(d1.parent(r) is None);
    assert(d1.detached(r) == d1);
    if d1.children(d.svg).len() == 0 {
        assert(d2.children(d.svg) =~= seq![r]);
    } else {
        let cs = d1.children(d.svg);
        lemma_child(d, d.svg, 0);
        assert(d1.parent(cs[0]) == Some(d.svg));
        lemma_index_of(cs, 0, cs[0]);
        assert(d2.children(d.svg) == cs.insert(0, r));
        assert(d2.children(d.svg)[0] == r);
    }
    assert(d2.svg == d.svg);
    assert(d2.kind(r) == d1.kind(r));
    lemma_local_name_after("defs"@, -1);
    assert("defs"@.subrange(0, 4) =~= "defs"@);
    assert(d2.is_element(r) && d2.tag(r) == "defs"@);
}

} // verus!
