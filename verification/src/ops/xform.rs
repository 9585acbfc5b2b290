//! What transforming a path does to its editor attributes.
use vstd::prelude::*;
use crate::cleanup::{contains_pat, contains_pat_exec};
use crate::dom::{Doc, DocV, NodeId, AttrV, attrs_view};
use crate::style::strings_view;

verus! {

/// An editor attribute a transformed path drops: a `sodipodi` or `inkscape` name, but not one of
/// the `inkscape-academic` / `inkscape-scientific` compatibility names.
pub open spec fn is_editor_attr(k: Seq<char>) -> bool {
    &&& (contains_pat(k, "sodipodi"@) || contains_pat(k, "inkscape"@))
    &&& !contains_pat(k, "inkscape-academic"@)
    &&& !contains_pat(k, "inkscape-scientific"@)
}

/// The names among `attrs` that `is_editor_attr` picks, in order.
pub open spec fn editor_attr_names(attrs: Seq<AttrV>) -> Seq<Seq<char>>
    decreases attrs.len(),
{
    if attrs.len() == 0 {
        seq![]
    } else {
        let a = editor_attr_names(attrs.drop_last());
        if is_editor_attr(attrs.last().name) {
            a.push(attrs.last().name)
        } else {
            a
        }
    }
}

/// `names` removed from `n` one after the other.
pub open spec fn names_removed(d: DocV, n: NodeId, names: Seq<Seq<char>>) -> DocV
    decreases names.len(),
{
    if names.len() == 0 {
        d
    } else {
        names_removed(d, n, names.drop_last()).attr_removed(n, names.last())
    }
}

fn is_editor_attr_exec(k: &str) -> (r: bool)
    ensures
        r == is_editor_attr(k@),
{
    (contains_pat_exec(k, "sodipodi") || contains_pat_exec(k, "inkscape"))
        && !contains_pat_exec(k, "inkscape-academic")
        && !contains_pat_exec(k, "inkscape-scientific")
}

/// A transformed path loses its `sodipodi:*` / `inkscape:*` attributes, except the
/// `inkscape-academic*` / `inkscape-scientific*` ones.
pub fn remove_inkscape_attrs(doc: &mut Doc, el: NodeId)
    requires
        old(doc).wf(),
        old(doc)@.valid(el),
    ensures
        final(doc).wf(),
        final(doc)@ == names_removed(old(doc)@, el, editor_attr_names(old(doc)@.attrs(el))),
{
    let ghost d0 = doc@;
    let mut names: Vec<String> = Vec::new();
    {
        let attrs = doc.attrs(el);
        let mut i: usize = 0;
        while i < attrs.len()
            invariant
                attrs_view(attrs@) == d0.attrs(el),
                i <= attrs@.len(),
                strings_view(names@) == editor_attr_names(attrs_view(attrs@).subrange(0, i as int)),
            decreases attrs@.len() - i,
        {
            proof {
                assert(attrs_view(attrs@).subrange(0, i + 1).drop_last() =~= attrs_view(attrs@).subrange(0, i as int));
                assert(attrs_view(attrs@).subrange(0, i + 1).last() == attrs@[i as int]@);
            }
            if is_editor_attr_exec(attrs[i].name.as_str()) {
                let ghost before = strings_view(names@);
                names.push(attrs[i].name.clone());
                proof {
                    assert(strings_view(names@) =~= before.push(attrs@[i as int].name@));
                }
            }
            i = i + 1;
        }
        proof {
            assert(attrs_view(attrs@).subrange(0, attrs@.len() as int) =~= attrs_view(attrs@));
        }
    }
    let ghost ns = strings_view(names@);
    let mut k: usize = 0;
    while k < names.len()
        invariant
            doc.wf(),
            d0.valid(el),
            ns == strings_view(names@),
            k <= names@.len(),
            doc@.nodes.len() == d0.nodes.len(),
            doc@ == names_removed(d0, el, ns.subrange(0, k as int)),
        decreases names@.len() - k,
    {
        proof {
            assert(ns.subrange(0, k + 1).drop_last() =~= ns.subrange(0, k as int));
            assert(ns.subrange(0, k + 1).last() == names@[k as int]@);
        }
        doc.remove_attr(el, names[k].as_str());
        k = k + 1;
    }
    proof {
        assert(ns.subrange(0, ns.len() as int) =~= ns);
    }
}

} // verus!
