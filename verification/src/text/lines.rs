//! Where a text element's lines come from: which node supplies each entry's `x` and `y`, which
//! `sodipodi:role="line"` entries are in effect and how they are typed, and which runs open a
//! line. The coordinate values themselves are numbers the caller reads and carries; only whether
//! an entry has a first `x`/`y` value, and whether it has exactly one, matters here.
use vstd::prelude::*;
use crate::dom::{Doc, DocV, NodeId};
use crate::text::parse::SprlType;
use crate::text::tree::{Run, TextTree, opt_int, run_text, run_text_of, text_runs, text_tree};
use crate::text::whitespace::{lemma_text_tree_ok, runs_ok, run_ok};
use crate::cli::opt_view;
use crate::text::anchor::{Anchor, anchor_of};
use crate::cascade::specified_of;
use crate::style::style_get;
use crate::ops::clip::{element_children, element_kids};
use crate::xml::{trim, trimmed};
use crate::strs::str_eq;

verus! {

/// What the caller read of an entry's `x` and `y` lists: whether the first value is present,
/// and whether the list has exactly one value. A comment or non-element has one absent value.
#[derive(Debug, Clone, Copy, PartialEq, Eq, Structural)]
pub struct XyFlags {
    pub x_set: bool,
    pub x_single: bool,
    pub y_set: bool,
    pub y_single: bool,
}

/// Per-entry results of the position analysis.
pub struct PositionsPlan {
    /// `sodipodi:role="line"` in effect.
    pub esprl: Vec<bool>,
    pub types: Vec<SprlType>,
    /// The entry whose `x` (`y`) list the entry takes, its own when it has one.
    pub xsrc: Vec<usize>,
    pub ysrc: Vec<usize>,
}

/// The entry's own `.text` (none for a comment).
pub open spec fn own_text_of(d: DocV, es: Seq<(NodeId, Option<int>)>, i: int) -> Option<Seq<char>> {
    if d.is_comment(es[i].0) {
        None
    } else {
        run_text_of(d, Run { ddi: i as usize, node: es[i].0, is_tail: false, style_node: es[i].0 })
    }
}

/// The entry has no own text, or an empty one.
pub open spec fn text_empty(d: DocV, es: Seq<(NodeId, Option<int>)>, i: int) -> bool {
    match own_text_of(d, es, i) {
        None => true,
        Some(t) => t.len() == 0,
    }
}

/// An element with `sodipodi:role="line"`.
pub open spec fn line_role(d: DocV, n: NodeId) -> bool {
    d.is_element(n) && d.attr(n, "sodipodi:role"@) == Some("line"@)
}

/// Whether following parent links from `p` reaches entry `a` (at most `fuel` more steps).
pub open spec fn desc_from(es: Seq<(NodeId, Option<int>)>, p: Option<int>, a: int, fuel: nat) -> bool
    decreases fuel,
{
    match p {
        None => false,
        Some(q) => if q == a {
            true
        } else if fuel == 0 || q < 0 || q >= es.len() {
            false
        } else {
            desc_from(es, es[q].1, a, (fuel - 1) as nat)
        },
    }
}

/// Entry `j` lies under entry `a`.
pub open spec fn is_desc(es: Seq<(NodeId, Option<int>)>, j: int, a: int) -> bool {
    desc_from(es, es[j].1, a, es.len())
}

/// The first entry from `j` on that does not lie under `i` (the number of entries if none).
pub open spec fn sub_end_from(es: Seq<(NodeId, Option<int>)>, i: int, j: int) -> int
    decreases es.len() - j,
{
    if j < 0 || j >= es.len() {
        es.len() as int
    } else if is_desc(es, j, i) {
        sub_end_from(es, i, j + 1)
    } else {
        j
    }
}

/// Some entry from `j` up to `stop` has a position and non-empty text of its own.
pub open spec fn blocked_from(d: DocV, es: Seq<(NodeId, Option<int>)>, fl: Seq<XyFlags>, j: int, stop: int) -> bool
    decreases stop - j,
{
    if j < 0 || j >= stop || j >= es.len() {
        false
    } else {
        ((fl[j].x_set || fl[j].y_set) && !text_empty(d, es, j)) || blocked_from(d, es, fl, j + 1, stop)
    }
}

/// `sodipodi:role="line"` in effect: a child of the text element with exactly one `x` and one
/// `y`, unless its own text is empty and an entry under it has a position and text.
pub open spec fn esprl_at(d: DocV, es: Seq<(NodeId, Option<int>)>, fl: Seq<XyFlags>, i: int) -> bool {
    &&& line_role(d, es[i].0) && fl[i].x_single && fl[i].y_single && es[i].1 == Some(0int)
    &&& !(text_empty(d, es, i) && blocked_from(d, es, fl, i + 1, sub_end_from(es, i, i + 1)))
}

/// The first run from `k` on that is entry `i`'s own text (-1 if none).
pub open spec fn own_run_from(runs: Seq<Run>, i: int, k: int) -> int
    decreases runs.len() - k,
{
    if k < 0 || k >= runs.len() {
        -1
    } else if !runs[k].is_tail && runs[k].ddi == i {
        k
    } else {
        own_run_from(runs, i, k + 1)
    }
}

/// A line in effect is preceded when a non-empty tail comes right before its own text, or when
/// it is the first child and the text element has text of its own; else it starts a new line
/// stacked under the previous one.
pub open spec fn type_at(d: DocV, es: Seq<(NodeId, Option<int>)>, runs: Seq<Run>, fl: Seq<XyFlags>, i: int) -> SprlType {
    if !esprl_at(d, es, fl, i) {
        SprlType::Normal
    } else {
        let ri = own_run_from(runs, i, 0);
        let preceded = ri > 0 && runs[ri - 1].is_tail && run_text_of(d, runs[ri - 1]) is Some;
        let first_kid = es[i].1 == Some(0int) && i == 1;
        if preceded || (first_kid && own_text_of(d, es, 0) is Some) {
            SprlType::PrecededSprl
        } else {
            SprlType::TlvlSprl
        }
    }
}

pub open spec fn fset(fl: Seq<XyFlags>, is_x: bool, j: int) -> bool {
    if is_x {
        fl[j].x_set
    } else {
        fl[j].y_set
    }
}

/// Walking down from `j` through text-less entries to their first child, stopping at a line in
/// effect.
pub open spec fn down_from(d: DocV, es: Seq<(NodeId, Option<int>)>, fl: Seq<XyFlags>, j: int) -> int
    decreases es.len() - j,
{
    if 0 <= j && j + 1 < es.len() && text_empty(d, es, j) && es[j + 1].1 == Some(j) && !esprl_at(d, es, fl, j + 1) {
        down_from(d, es, fl, j + 1)
    } else {
        j
    }
}

/// Walking up from `j` to text-less parents, stopping at a line in effect.
pub open spec fn up_from(d: DocV, es: Seq<(NodeId, Option<int>)>, fl: Seq<XyFlags>, j: int) -> int
    decreases j,
{
    if 0 < j < es.len() && text_empty(d, es, j - 1) && es[j].1 == Some(j - 1) && !esprl_at(d, es, fl, j - 1) {
        up_from(d, es, fl, j - 1)
    } else {
        j
    }
}

/// The last entry from `k` down to `lo` with a value (-1 if none).
pub open spec fn last_set_in(fl: Seq<XyFlags>, is_x: bool, lo: int, k: int) -> int
    decreases k + 1,
{
    if k < 0 || k < lo || k >= fl.len() {
        -1
    } else if fset(fl, is_x, k) {
        k
    } else {
        last_set_in(fl, is_x, lo, k - 1)
    }
}

/// The first entry from `k` up to `hi` with a value (-1 if none).
pub open spec fn first_set_in(fl: Seq<XyFlags>, is_x: bool, k: int, hi: int) -> int
    decreases hi + 1 - k,
{
    if k < 0 || k > hi || k >= fl.len() {
        -1
    } else if fset(fl, is_x, k) {
        k
    } else {
        first_set_in(fl, is_x, k + 1, hi)
    }
}

/// The entry whose `x` (`is_x`) or `y` list entry `i` takes: its own when it has a first value;
/// else, among the entries reached through text-less parent/child links, the nearest earlier one
/// with a value, then the nearest later one; else its own.
pub open spec fn src_at(d: DocV, es: Seq<(NodeId, Option<int>)>, fl: Seq<XyFlags>, is_x: bool, i: int) -> int {
    if fset(fl, is_x, i) {
        i
    } else {
        let jmax = down_from(d, es, fl, i);
        let hi = if jmax + 1 < es.len() && text_empty(d, es, jmax) {
            i
        } else {
            jmax
        };
        let lo = up_from(d, es, fl, i);
        let a = last_set_in(fl, is_x, lo, i - 1);
        if a >= 0 {
            a
        } else {
            let b = first_set_in(fl, is_x, i + 1, hi);
            if b >= 0 {
                b
            } else {
                i
            }
        }
    }
}

/// `t` is the text tree of its first entry, as `TextTree::new` builds it.
pub open spec fn built_tree(d: DocV, t: TextTree) -> bool {
    &&& t.well_formed()
    &&& t.dds@.len() > 0
    &&& d.valid(t.dds@[0])
    &&& t.entries() == text_tree(d, t.dds@[0])
}

proof fn lemma_tree_valid(d: DocV, t: TextTree)
    requires
        d.wf(),
        built_tree(d, t),
    ensures
        forall|k: int| 0 <= k < t.dds@.len() ==> d.valid(#[trigger] t.dds@[k]),
        forall|k: int| 0 <= k < t.dds@.len() ==> t.entries()[k] == (t.dds@[k], opt_int(t.parent@[k])),
        t.entries().len() == t.dds@.len(),
        runs_ok(d, text_runs(d, t.dds@[0])),
{
    lemma_text_tree_ok(d, t.dds@[0]);
    assert forall|k: int| 0 <= k < t.dds@.len() implies d.valid(#[trigger] t.dds@[k]) by {
        assert(t.entries()[k].0 == t.dds@[k]);
    }
}

/// Whether entry `i` has no own text (or an empty one), and whether it has own text at all.
fn own_text_flags(doc: &Doc, tree: &TextTree, i: usize) -> (r: (bool, bool))
    requires
        doc.wf(),
        built_tree(doc@, *tree),
        i < tree.dds@.len(),
    ensures
        r.0 == text_empty(doc@, tree.entries(), i as int),
        r.1 == own_text_of(doc@, tree.entries(), i as int) is Some,
{
    proof {
        lemma_tree_valid(doc@, *tree);
    }
    let nd = tree.dds[i];
    if doc.is_comment(nd) {
        return (true, false);
    }
    let r = Run { ddi: i, node: nd, is_tail: false, style_node: nd };
    match run_text(doc, &r) {
        Some(t) => (t.as_str().is_empty(), true),
        None => (true, false),
    }
}

/// Whether entry `j` lies under entry `a`.
fn is_desc_exec(tree: &TextTree, j: usize, a: usize) -> (r: bool)
    requires
        tree.well_formed(),
        j < tree.dds@.len(),
    ensures
        r == is_desc(tree.entries(), j as int, a as int),
{
    let ghost es = tree.entries();
    let n = tree.parent.len();
    let mut cur: Option<usize> = tree.parent[j];
    let mut fuel: usize = n;
    loop
        invariant
            tree.well_formed(),
            es == tree.entries(),
            n == es.len(),
            fuel <= n,
            is_desc(es, j as int, a as int) == desc_from(es, opt_int(cur), a as int, fuel as nat),
        decreases fuel,
    {
        match cur {
            None => {
                return false;
            },
            Some(q) => {
                if q == a {
                    return true;
                }
                if fuel == 0 || q >= n {
                    return false;
                }
                proof {
                    assert(es[q as int].1 == opt_int(tree.parent@[q as int]));
                }
                cur = tree.parent[q];
                fuel = fuel - 1;
            },
        }
    }
}

/// Whether `sodipodi:role="line"` is in effect for each entry.
fn esprl_of(doc: &Doc, tree: &TextTree, fl: &Vec<XyFlags>, empt: &Vec<bool>) -> (r: Vec<bool>)
    requires
        doc.wf(),
        built_tree(doc@, *tree),
        fl@.len() == tree.dds@.len(),
        empt@.len() == tree.dds@.len(),
        forall|k: int| 0 <= k < empt@.len() ==> empt@[k] == text_empty(doc@, tree.entries(), k),
    ensures
        r@.len() == tree.dds@.len(),
        forall|k: int| 0 <= k < r@.len() ==> r@[k] == esprl_at(doc@, tree.entries(), fl@, k),
{
    let ghost es = tree.entries();
    let ghost d = doc@;
    proof {
        lemma_tree_valid(d, *tree);
        reveal_strlit("sodipodi:role");
        reveal_strlit("line");
    }
    let n = tree.dds.len();
    let mut out: Vec<bool> = Vec::new();
    let mut i: usize = 0;
    while i < n
        invariant
            doc.wf(),
            built_tree(d, *tree),
            d == doc@,
            es == tree.entries(),
            n == tree.dds@.len(),
            es.len() == n,
            fl@.len() == n,
            empt@.len() == n,
            forall|k: int| 0 <= k < n ==> empt@[k] == text_empty(d, es, k),
            forall|k: int| 0 <= k < n ==> d.valid(#[trigger] tree.dds@[k]),
            forall|k: int| 0 <= k < n ==> es[k] == (tree.dds@[k], opt_int(tree.parent@[k])),
            i <= n,
            out@.len() == i,
            forall|k: int| 0 <= k < i ==> out@[k] == esprl_at(d, es, fl@, k),
        decreases n - i,
    {
        let nd = tree.dds[i];
        let role = doc.is_element(nd) && match doc.attr(nd, "sodipodi:role") {
            Some(v) => crate::strs::str_eq(v, "line"),
            None => false,
        };
        let top = tree.is_top_level(i);
        let base = role && fl[i].x_single && fl[i].y_single && top;
        proof {
            assert(role == line_role(d, es[i as int].0));
            assert(top == (es[i as int].1 == Some(0int)));
        }
        let mut e = base;
        if base && empt[i] {
            let mut stop: usize = i + 1;
            while stop < n && is_desc_exec(tree, stop, i)
                invariant
                    tree.well_formed(),
                    es == tree.entries(),
                    n == es.len(),
                    i < stop <= n,
                    sub_end_from(es, i as int, i + 1) == sub_end_from(es, i as int, stop as int),
                decreases n - stop,
            {
                stop = stop + 1;
            }
            let ghost se = sub_end_from(es, i as int, i + 1);
            assert(se == stop);
            let mut j: usize = i + 1;
            let mut blocked = false;
            while j < stop
                invariant
                    i < j <= stop <= n,
                    es.len() == n,
                    fl@.len() == n,
                    empt@.len() == n,
                    forall|k: int| 0 <= k < n ==> empt@[k] == text_empty(d, es, k),
                    blocked_from(d, es, fl@, i + 1, stop as int) == (blocked || blocked_from(d, es, fl@, j as int, stop as int)),
                decreases stop - j,
            {
                if (fl[j].x_set || fl[j].y_set) && !empt[j] {
                    blocked = true;
                }
                j = j + 1;
            }
            if blocked {
                e = false;
            }
        }
        out.push(e);
        i = i + 1;
    }
    out
}

/// The analysis of a text element's entries: which line roles are in effect, how they are typed,
/// and where each entry's `x` and `y` come from.
pub fn position_sources(doc: &Doc, tree: &TextTree, fl: &Vec<XyFlags>) -> (r: PositionsPlan)
    requires
        doc.wf(),
        built_tree(doc@, *tree),
        fl@.len() == tree.dds@.len(),
    ensures
        r.esprl@.len() == tree.dds@.len() && r.types@.len() == tree.dds@.len(),
        r.xsrc@.len() == tree.dds@.len() && r.ysrc@.len() == tree.dds@.len(),
        forall|k: int| 0 <= k < tree.dds@.len() ==> r.esprl@[k] == esprl_at(doc@, tree.entries(), fl@, k),
        forall|k: int| 0 <= k < tree.dds@.len() ==> r.types@[k] == type_at(doc@, tree.entries(), text_runs(doc@, tree.dds@[0]), fl@, k),
        forall|k: int| 0 <= k < tree.dds@.len() ==> r.xsrc@[k] == src_at(doc@, tree.entries(), fl@, true, k),
        forall|k: int| 0 <= k < tree.dds@.len() ==> r.ysrc@[k] == src_at(doc@, tree.entries(), fl@, false, k),
{
    let ghost es = tree.entries();
    let ghost d = doc@;
    proof {
        lemma_tree_valid(d, *tree);
    }
    let n = tree.dds.len();
    let mut empt: Vec<bool> = Vec::new();
    let mut i: usize = 0;
    while i < n
        invariant
            doc.wf(),
            built_tree(d, *tree),
            d == doc@,
            es == tree.entries(),
            n == tree.dds@.len(),
            i <= n,
            empt@.len() == i,
            forall|k: int| 0 <= k < i ==> empt@[k] == text_empty(d, es, k),
        decreases n - i,
    {
        let (e, _) = own_text_flags(doc, tree, i);
        empt.push(e);
        i = i + 1;
    }
    let (_, text0) = own_text_flags(doc, tree, 0);
    let esprl = esprl_of(doc, tree, fl, &empt);
    let xsrc = sources(doc, tree, fl, &empt, &esprl, true);
    let ysrc = sources(doc, tree, fl, &empt, &esprl, false);
    let types = types_of(doc, tree, fl, &esprl, text0);
    PositionsPlan { esprl, types, xsrc, ysrc }
}

fn fset_exec(fl: &Vec<XyFlags>, is_x: bool, j: usize) -> (r: bool)
    requires
        j < fl@.len(),
    ensures
        r == fset(fl@, is_x, j as int),
{
    if is_x {
        fl[j].x_set
    } else {
        fl[j].y_set
    }
}

/// The source entry of each entry's `x` (`is_x`) or `y` list.
fn sources(doc: &Doc, tree: &TextTree, fl: &Vec<XyFlags>, empt: &Vec<bool>, esp: &Vec<bool>, is_x: bool) -> (r: Vec<usize>)
    requires
        doc.wf(),
        built_tree(doc@, *tree),
        fl@.len() == tree.dds@.len(),
        empt@.len() == tree.dds@.len(),
        esp@.len() == tree.dds@.len(),
        forall|k: int| 0 <= k < empt@.len() ==> empt@[k] == text_empty(doc@, tree.entries(), k),
        forall|k: int| 0 <= k < esp@.len() ==> esp@[k] == esprl_at(doc@, tree.entries(), fl@, k),
    ensures
        r@.len() == tree.dds@.len(),
        forall|k: int| 0 <= k < r@.len() ==> r@[k] == src_at(doc@, tree.entries(), fl@, is_x, k),
{
    let ghost es = tree.entries();
    let ghost d = doc@;
    proof {
        lemma_tree_valid(d, *tree);
    }
    let n = tree.dds.len();
    let mut out: Vec<usize> = Vec::new();
    let mut i: usize = 0;
    while i < n
        invariant
            n == tree.dds@.len(),
            es == tree.entries(),
            es.len() == n,
            tree.parent@.len() == n,
            forall|k: int| 0 <= k < n ==> es[k] == (tree.dds@[k], opt_int(tree.parent@[k])),
            fl@.len() == n,
            empt@.len() == n,
            esp@.len() == n,
            forall|k: int| 0 <= k < n ==> empt@[k] == text_empty(d, es, k),
            forall|k: int| 0 <= k < n ==> esp@[k] == esprl_at(d, es, fl@, k),
            i <= n,
            out@.len() == i,
            forall|k: int| 0 <= k < i ==> out@[k] == src_at(d, es, fl@, is_x, k),
        decreases n - i,
    {
        if fset_exec(fl, is_x, i) {
            out.push(i);
        } else {
            let mut jmax: usize = i;
            while jmax + 1 < n && empt[jmax] && tree.parent[jmax + 1] == Some(jmax) && !esp[jmax + 1]
                invariant
                    i <= jmax < n,
                    es.len() == n,
                    tree.parent@.len() == n,
                    forall|k: int| 0 <= k < n ==> es[k] == (tree.dds@[k], opt_int(tree.parent@[k])),
                    empt@.len() == n,
                    esp@.len() == n,
                    forall|k: int| 0 <= k < n ==> empt@[k] == text_empty(d, es, k),
                    forall|k: int| 0 <= k < n ==> esp@[k] == esprl_at(d, es, fl@, k),
                    down_from(d, es, fl@, i as int) == down_from(d, es, fl@, jmax as int),
                decreases n - jmax,
            {
                jmax = jmax + 1;
            }
            let hi = if jmax + 1 < n && empt[jmax] {
                i
            } else {
                jmax
            };
            let mut lo: usize = i;
            while lo > 0 && empt[lo - 1] && tree.parent[lo] == Some((lo - 1) as usize) && !esp[lo - 1]
                invariant
                    lo <= i < n,
                    es.len() == n,
                    tree.parent@.len() == n,
                    forall|k: int| 0 <= k < n ==> es[k] == (tree.dds@[k], opt_int(tree.parent@[k])),
                    empt@.len() == n,
                    esp@.len() == n,
                    forall|k: int| 0 <= k < n ==> empt@[k] == text_empty(d, es, k),
                    forall|k: int| 0 <= k < n ==> esp@[k] == esprl_at(d, es, fl@, k),
                    up_from(d, es, fl@, i as int) == up_from(d, es, fl@, lo as int),
                decreases lo,
            {
                lo = lo - 1;
            }
            let mut k: usize = i;
            let mut found: Option<usize> = None;
            while k > lo && found.is_none()
                invariant
                    lo <= k <= i < n,
                    fl@.len() == n,
                    found is None ==> last_set_in(fl@, is_x, lo as int, i - 1) == last_set_in(fl@, is_x, lo as int, k - 1),
                    found matches Some(f) ==> last_set_in(fl@, is_x, lo as int, i - 1) == f,
                decreases k + (if found is None { 1int } else { 0int }),
            {
                if fset_exec(fl, is_x, k - 1) {
                    assert(last_set_in(fl@, is_x, lo as int, k - 1) == k - 1);
                    found = Some(k - 1);
                } else {
                    k = k - 1;
                }
            }
            match found {
                Some(f) => out.push(f),
                None => {
                    let mut m: usize = i + 1;
                    let mut got: Option<usize> = None;
                    while m <= hi && m < n && got.is_none()
                        invariant
                            i < m,
                            hi < n,
                            fl@.len() == n,
                            got is None ==> first_set_in(fl@, is_x, i + 1, hi as int) == first_set_in(fl@, is_x, m as int, hi as int),
                            got matches Some(g) ==> first_set_in(fl@, is_x, i + 1, hi as int) == g,
                        decreases n - m + (if got is None { 1int } else { 0int }),
                    {
                        if fset_exec(fl, is_x, m) {
                            assert(first_set_in(fl@, is_x, m as int, hi as int) == m);
                            got = Some(m);
                        } else {
                            m = m + 1;
                        }
                    }
                    match got {
                        Some(g) => out.push(g),
                        None => out.push(i),
                    }
                },
            }
        }
        i = i + 1;
    }
    out
}

/// How each entry's line role is typed.
fn types_of(doc: &Doc, tree: &TextTree, fl: &Vec<XyFlags>, esp: &Vec<bool>, text0: bool) -> (r: Vec<SprlType>)
    requires
        doc.wf(),
        built_tree(doc@, *tree),
        fl@.len() == tree.dds@.len(),
        esp@.len() == tree.dds@.len(),
        forall|k: int| 0 <= k < esp@.len() ==> esp@[k] == esprl_at(doc@, tree.entries(), fl@, k),
        text0 == own_text_of(doc@, tree.entries(), 0) is Some,
    ensures
        r@.len() == tree.dds@.len(),
        forall|k: int| 0 <= k < r@.len() ==> r@[k] == type_at(doc@, tree.entries(), text_runs(doc@, tree.dds@[0]), fl@, k),
{
    let ghost es = tree.entries();
    let ghost d = doc@;
    proof {
        lemma_tree_valid(d, *tree);
    }
    let runs = tree.runs(doc);
    let ghost rs = runs@;
    let n = tree.dds.len();
    let mut out: Vec<SprlType> = Vec::new();
    let mut i: usize = 0;
    while i < n
        invariant
            doc.wf(),
            d == doc@,
            n == tree.dds@.len(),
            es == tree.entries(),
            es.len() == n,
            tree.parent@.len() == n,
            forall|k: int| 0 <= k < n ==> es[k] == (tree.dds@[k], opt_int(tree.parent@[k])),
            rs == runs@,
            rs == text_runs(d, tree.dds@[0]),
            runs_ok(d, rs),
            esp@.len() == n,
            forall|k: int| 0 <= k < n ==> esp@[k] == esprl_at(d, es, fl@, k),
            text0 == own_text_of(d, es, 0) is Some,
            i <= n,
            out@.len() == i,
            forall|k: int| 0 <= k < i ==> out@[k] == type_at(d, es, rs, fl@, k),
        decreases n - i,
    {
        if !esp[i] {
            out.push(SprlType::Normal);
        } else {
            let mut k: usize = 0;
            let mut found = false;
            while k < runs.len() && !found
                invariant
                    k <= runs@.len(),
                    rs == runs@,
                    !found ==> own_run_from(rs, i as int, 0) == own_run_from(rs, i as int, k as int),
                    found ==> k < runs@.len() && own_run_from(rs, i as int, 0) == k,
                decreases runs@.len() - k + (if found { 0int } else { 1int }),
            {
                if !runs[k].is_tail && runs[k].ddi == i {
                    assert(own_run_from(rs, i as int, k as int) == k);
                    found = true;
                } else {
                    k = k + 1;
                }
            }
            proof {
                if !found {
                    assert(own_run_from(rs, i as int, k as int) == -1);
                }
            }
            let preceded = if found && k > 0 && runs[k - 1].is_tail {
                proof {
                    assert(run_ok(d, rs[k - 1]));
                }
                run_text(doc, &runs[k - 1]).is_some()
            } else {
                false
            };
            proof {
                if found && k > 0 && rs[k - 1].is_tail {
                    assert(preceded == (run_text_of(d, rs[k - 1]) is Some));
                }
            }
            let first_kid = tree.is_top_level(i) && i == 1;
            if preceded || (first_kid && text0) {
                out.push(SprlType::PrecededSprl);
            } else {
                out.push(SprlType::TlvlSprl);
            }
        }
        i = i + 1;
    }
    out
}

// ---------------------------------------------------------------------------------------------
// Line openings

/// Where a line's first `x` (or `y`) values come from.
#[derive(Debug, Clone, Copy, PartialEq, Eq, Structural)]
pub enum Coord {
    /// The list of entry `k` (that of its source entry, see `PositionsPlan`).
    Entry(usize),
    /// Only the first value of entry `k`'s list.
    FirstOf(usize),
    /// The first value of the `l`-th line.
    LineFirst(usize),
    /// The first value of the `l`-th line moved down by one line height of the run's entry (the
    /// larger of its own and its parent element's, over its font scale).
    Below(usize),
}

/// A run that opens a line, and how the line is placed; the caller turns the coordinates into
/// numbers.
#[derive(Debug, Clone, Copy, PartialEq, Eq, Structural)]
pub struct LineOpening {
    /// Index of the run that opens the line.
    pub first_run: usize,
    pub x: Coord,
    pub y: Coord,
    /// The entries the line's `x` and `y` are taken from.
    pub xsrc: usize,
    pub ysrc: usize,
    /// The line starts a `sodipodi:role="line"` line stacked under the previous one.
    pub sprl: bool,
    pub anchor: Anchor,
    pub rtl: bool,
    /// Which element child of the text element the line belongs to.
    pub tlvlno: Option<usize>,
    /// `x` (`y`) carried on from the line before (or the text element).
    pub continue_x: bool,
    pub continue_y: bool,
    pub style_node: NodeId,
}

/// Entry `i` has a first `x` (`is_x`) or `y` value once inherited; the text element always has
/// one (it defaults to 0).
pub open spec fn set_after(pl: PositionsPlan, fl: Seq<XyFlags>, is_x: bool, i: int) -> bool {
    i == 0 || fset(fl, is_x, (if is_x { pl.xsrc@[i] } else { pl.ysrc@[i] }) as int)
}

/// The first entry from `k` on holding `node` (-1 if none).
pub open spec fn index_from(es: Seq<(NodeId, Option<int>)>, node: NodeId, k: int) -> int
    decreases es.len() - k,
{
    if k < 0 || k >= es.len() {
        -1
    } else if es[k].0 == node {
        k
    } else {
        index_from(es, node, k + 1)
    }
}

/// The first entry holding `node`, or the text element.
pub open spec fn entry_of(es: Seq<(NodeId, Option<int>)>, node: NodeId) -> int {
    let k = index_from(es, node, 0);
    if k < 0 {
        0
    } else {
        k
    }
}

/// The first index of `x` in `s` (-1 if none).
pub open spec fn pos_from(s: Seq<NodeId>, x: NodeId, k: int) -> int
    decreases s.len() - k,
{
    if k < 0 || k >= s.len() {
        -1
    } else if s[k] == x {
        k
    } else {
        pos_from(s, x, k + 1)
    }
}

/// The run has non-empty text.
pub open spec fn has_text_at(d: DocV, r: Run) -> bool {
    match run_text_of(d, r) {
        Some(t) => t.len() > 0,
        None => false,
    }
}

/// The anchor a line gets: the `text-anchor` of its style node, unless an earlier line exists
/// and the entry is not a line role in effect (then the earlier line's), else `start`; swapped
/// start/end under `direction: rtl`.
pub open spec fn anchor_for(d: DocV, sel: NodeId, lines: Seq<LineOpening>, esprl_edi: bool, edi: int) -> Anchor {
    let sty = specified_of(d, sel);
    let a0 = match style_get(sty, "text-anchor"@) {
        Some(v) => anchor_of(v),
        None => None,
    };
    let a1 = if lines.len() > 0 && !esprl_edi && edi > 0 {
        Some(lines.last().anchor)
    } else {
        a0
    };
    let a = match a1 {
        Some(x) => x,
        None => Anchor::Start,
    };
    if rtl_for(d, sel) {
        match a {
            Anchor::Start => Anchor::End,
            Anchor::End => Anchor::Start,
            Anchor::Middle => Anchor::Middle,
        }
    } else {
        a
    }
}

/// The style node's `direction` is `rtl`.
pub open spec fn rtl_for(d: DocV, sel: NodeId) -> bool {
    match style_get(specified_of(d, sel), "direction"@) {
        Some(v) => trimmed(v) == "rtl"@,
        None => false,
    }
}

/// The line opened by run `ri` after the lines so far, given the line a stacked line is placed
/// under.
pub open spec fn opening_at(
    d: DocV,
    es: Seq<(NodeId, Option<int>)>,
    runs: Seq<Run>,
    pl: PositionsPlan,
    fl: Seq<XyFlags>,
    lines: Seq<LineOpening>,
    inh: Option<int>,
    ri: int,
) -> LineOpening {
    let r = runs[ri];
    let newsprl = !r.is_tail && pl.types@[r.ddi as int] == SprlType::TlvlSprl;
    let edi = if r.is_tail { entry_of(es, r.style_node) } else { r.ddi as int };
    let base_x = (Coord::Entry(edi as usize), pl.xsrc@[edi] as int, false);
    let base_y = (Coord::Entry(edi as usize), pl.ysrc@[edi] as int, false);
    let (x, y) = if newsprl {
        match inh {
            None => ((Coord::FirstOf(0), pl.xsrc@[0] as int, false), (Coord::FirstOf(0), pl.ysrc@[0] as int, false)),
            Some(li) => (
                (Coord::LineFirst(li as usize), entry_of(es, es[lines[li].xsrc as int].0), false),
                (Coord::Below(li as usize), entry_of(es, es[lines[li].ysrc as int].0), false),
            ),
        }
    } else {
        let x = if set_after(pl, fl, true, edi) {
            base_x
        } else if lines.len() > 0 {
            (Coord::LineFirst((lines.len() - 1) as usize), entry_of(es, es[lines.last().xsrc as int].0), true)
        } else {
            (Coord::Entry(0), pl.xsrc@[0] as int, true)
        };
        let y = if set_after(pl, fl, false, edi) {
            base_y
        } else if lines.len() > 0 {
            (Coord::LineFirst((lines.len() - 1) as usize), entry_of(es, es[lines.last().ysrc as int].0), true)
        } else {
            (Coord::Entry(0), pl.ysrc@[0] as int, true)
        };
        (x, y)
    };
    let kids = element_kids(d, es[0].0);
    let kp = pos_from(kids, es[r.ddi as int].0, 0);
    let tlvlno = if kp >= 0 {
        Some(kp as usize)
    } else if edi == 0 {
        Some(0usize)
    } else {
        None
    };
    LineOpening {
        first_run: ri as usize,
        x: x.0,
        y: y.0,
        xsrc: x.1 as usize,
        ysrc: y.1 as usize,
        sprl: newsprl,
        anchor: anchor_for(d, r.style_node, lines, pl.esprl@[edi], edi),
        rtl: rtl_for(d, r.style_node),
        tlvlno: tlvlno,
        continue_x: x.2,
        continue_y: y.2,
        style_node: r.style_node,
    }
}

/// The lines opened by the first `k` runs, and the line a new stacked line is placed under (the
/// first line, or the latest stacked one). A run opens a line when it has text or starts a
/// stacked line, and it is the first such run, starts a stacked line, or is an entry's own text
/// with a position of its own outside a line role.
pub open spec fn openings(
    d: DocV,
    es: Seq<(NodeId, Option<int>)>,
    runs: Seq<Run>,
    pl: PositionsPlan,
    fl: Seq<XyFlags>,
    k: int,
) -> (Seq<LineOpening>, Option<int>)
    decreases k,
{
    if k <= 0 {
        (seq![], None)
    } else {
        let (lines, inh) = openings(d, es, runs, pl, fl, k - 1);
        let ri = k - 1;
        let r = runs[ri];
        let newsprl = !r.is_tail && pl.types@[r.ddi as int] == SprlType::TlvlSprl;
        let makeline = lines.len() == 0 || (!r.is_tail && (newsprl || (pl.types@[r.ddi as int] == SprlType::Normal
            && (set_after(pl, fl, true, r.ddi as int) || set_after(pl, fl, false, r.ddi as int)))));
        if !(has_text_at(d, r) || newsprl) || !makeline {
            (lines, inh)
        } else {
            let l2 = lines.push(opening_at(d, es, runs, pl, fl, lines, inh, ri));
            (l2, if newsprl || l2.len() == 1 { Some(l2.len() - 1) } else { inh })
        }
    }
}

fn entry_of_exec(tree: &TextTree, node: NodeId) -> (r: usize)
    requires
        tree.well_formed(),
        tree.dds@.len() > 0,
    ensures
        r as int == entry_of(tree.entries(), node),
        r < tree.dds@.len(),
{
    let ghost es = tree.entries();
    let mut k: usize = 0;
    while k < tree.dds.len()
        invariant
            es == tree.entries(),
            es.len() == tree.dds@.len(),
            k <= tree.dds@.len(),
            index_from(es, node, 0) == index_from(es, node, k as int),
        decreases tree.dds@.len() - k,
    {
        assert(es[k as int].0 == tree.dds@[k as int]);
        if tree.dds[k] == node {
            return k;
        }
        k = k + 1;
    }
    0
}

fn pos_exec(s: &Vec<NodeId>, x: NodeId) -> (r: Option<usize>)
    ensures
        match r {
            Some(k) => pos_from(s@, x, 0) == k,
            None => pos_from(s@, x, 0) == -1,
        },
{
    let mut k: usize = 0;
    while k < s.len()
        invariant
            k <= s@.len(),
            pos_from(s@, x, 0) == pos_from(s@, x, k as int),
        decreases s@.len() - k,
    {
        if s[k] == x {
            return Some(k);
        }
        k = k + 1;
    }
    None
}

fn rtl_exec(doc: &Doc, sel: NodeId) -> (r: bool)
    requires
        doc.wf(),
        doc@.valid(sel),
    ensures
        r == rtl_for(doc@, sel),
{
    let sty = doc.specified_style(sel);
    proof {
        reveal_strlit("rtl");
    }
    match sty.get("direction") {
        Some(v) => {
            let t = trim(v);
            str_eq(t.as_str(), "rtl")
        },
        None => false,
    }
}

fn anchor_exec(doc: &Doc, sel: NodeId, lines: &Vec<LineOpening>, esprl_edi: bool, edi: usize) -> (r: Anchor)
    requires
        doc.wf(),
        doc@.valid(sel),
    ensures
        r == anchor_for(doc@, sel, lines@, esprl_edi, edi as int),
{
    let sty = doc.specified_style(sel);
    let a0 = match sty.get("text-anchor") {
        Some(v) => Anchor::parse(v),
        None => None,
    };
    let a1 = if lines.len() > 0 && !esprl_edi && edi > 0 {
        Some(lines[lines.len() - 1].anchor)
    } else {
        a0
    };
    let a = match a1 {
        Some(x) => x,
        None => Anchor::Start,
    };
    if rtl_exec(doc, sel) {
        match a {
            Anchor::Start => Anchor::End,
            Anchor::End => Anchor::Start,
            Anchor::Middle => Anchor::Middle,
        }
    } else {
        a
    }
}

/// The runs that open a text element's lines, in order, and how each line is placed (see
/// `openings`).
pub fn line_openings(doc: &Doc, tree: &TextTree, runs: &Vec<Run>, pl: &PositionsPlan, fl: &Vec<XyFlags>) -> (r: Vec<LineOpening>)
    requires
        doc.wf(),
        built_tree(doc@, *tree),
        fl@.len() == tree.dds@.len(),
        pl.esprl@.len() == tree.dds@.len() && pl.types@.len() == tree.dds@.len(),
        pl.xsrc@.len() == tree.dds@.len() && pl.ysrc@.len() == tree.dds@.len(),
        forall|k: int| 0 <= k < tree.dds@.len() ==> pl.xsrc@[k] < tree.dds@.len() && pl.ysrc@[k] < tree.dds@.len(),
        forall|k: int| 0 <= k < runs@.len() ==> (#[trigger] runs@[k]).ddi < tree.dds@.len() && doc@.valid(runs@[k].node)
            && doc@.valid(runs@[k].style_node),
    ensures
        r@ == openings(doc@, tree.entries(), runs@, *pl, fl@, runs@.len() as int).0,
{
    let ghost es = tree.entries();
    let ghost d = doc@;
    proof {
        lemma_tree_valid(d, *tree);
    }
    let n = tree.dds.len();
    let kids = element_children(doc, tree.dds[0]);
    let mut lines: Vec<LineOpening> = Vec::new();
    let mut inh: Option<usize> = None;
    let mut ri: usize = 0;
    while ri < runs.len()
        invariant
            doc.wf(),
            d == doc@,
            built_tree(d, *tree),
            es == tree.entries(),
            n == tree.dds@.len(),
            es.len() == n,
            forall|k: int| 0 <= k < n ==> es[k] == (tree.dds@[k], opt_int(tree.parent@[k])),
            forall|k: int| 0 <= k < n ==> d.valid(#[trigger] tree.dds@[k]),
            kids@ == element_kids(d, es[0].0),
            fl@.len() == n,
            pl.esprl@.len() == n && pl.types@.len() == n && pl.xsrc@.len() == n && pl.ysrc@.len() == n,
            forall|k: int| 0 <= k < n ==> pl.xsrc@[k] < n && pl.ysrc@[k] < n,
            forall|k: int| 0 <= k < runs@.len() ==> (#[trigger] runs@[k]).ddi < n && d.valid(runs@[k].node)
                && d.valid(runs@[k].style_node),
            ri <= runs@.len(),
            (lines@, opt_int(inh)) == openings(d, es, runs@, *pl, fl@, ri as int),
            forall|k: int| 0 <= k < lines@.len() ==> (#[trigger] lines@[k]).xsrc < n && lines@[k].ysrc < n,
            inh matches Some(li) ==> li < lines@.len(),
        decreases runs@.len() - ri,
    {
        let r = runs[ri];
        let ghost gl = lines@;
        let ghost gi = opt_int(inh);
        let has_txt = match run_text(doc, &r) {
            Some(t) => !t.as_str().is_empty(),
            None => false,
        };
        let newsprl = !r.is_tail && pl.types[r.ddi] == SprlType::TlvlSprl;
        let xa = r.ddi == 0 || fset_exec(fl, true, pl.xsrc[r.ddi]);
        let ya = r.ddi == 0 || fset_exec(fl, false, pl.ysrc[r.ddi]);
        let makeline = lines.len() == 0 || (!r.is_tail && (newsprl || (pl.types[r.ddi] == SprlType::Normal && (xa || ya))));
        if (has_txt || newsprl) && makeline {
            let edi = if r.is_tail {
                entry_of_exec(tree, r.style_node)
            } else {
                r.ddi
            };
            let (x, xsrc, cx, y, ysrc, cy) = if newsprl {
                match inh {
                    None => (Coord::FirstOf(0), pl.xsrc[0], false, Coord::FirstOf(0), pl.ysrc[0], false),
                    Some(li) => {
                        let lx = entry_of_exec(tree, tree.dds[lines[li].xsrc]);
                        let ly = entry_of_exec(tree, tree.dds[lines[li].ysrc]);
                        (Coord::LineFirst(li), lx, false, Coord::Below(li), ly, false)
                    },
                }
            } else {
                let xe = edi == 0 || fset_exec(fl, true, pl.xsrc[edi]);
                let ye = edi == 0 || fset_exec(fl, false, pl.ysrc[edi]);
                let (x, xsrc, cx) = if xe {
                    (Coord::Entry(edi), pl.xsrc[edi], false)
                } else if lines.len() > 0 {
                    let lx = entry_of_exec(tree, tree.dds[lines[lines.len() - 1].xsrc]);
                    (Coord::LineFirst(lines.len() - 1), lx, true)
                } else {
                    (Coord::Entry(0), pl.xsrc[0], true)
                };
                let (y, ysrc, cy) = if ye {
                    (Coord::Entry(edi), pl.ysrc[edi], false)
                } else if lines.len() > 0 {
                    let ly = entry_of_exec(tree, tree.dds[lines[lines.len() - 1].ysrc]);
                    (Coord::LineFirst(lines.len() - 1), ly, true)
                } else {
                    (Coord::Entry(0), pl.ysrc[0], true)
                };
                (x, xsrc, cx, y, ysrc, cy)
            };
            let kp = pos_exec(&kids, tree.dds[r.ddi]);
            let tlvlno = match kp {
                Some(k) => Some(k),
                None => if edi == 0 {
                    Some(0usize)
                } else {
                    None
                },
            };
            let anchor = anchor_exec(doc, r.style_node, &lines, pl.esprl[edi], edi);
            let rtl = rtl_exec(doc, r.style_node);
            let op = LineOpening {
                first_run: ri,
                x,
                y,
                xsrc,
                ysrc,
                sprl: newsprl,
                anchor,
                rtl,
                tlvlno,
                continue_x: cx,
                continue_y: cy,
                style_node: r.style_node,
            };
            proof {
                assert(es[r.ddi as int].0 == tree.dds@[r.ddi as int]);
                assert(op == opening_at(d, es, runs@, *pl, fl@, gl, gi, ri as int));
            }
            lines.push(op);
            if newsprl || lines.len() == 1 {
                inh = Some(lines.len() - 1);
            }
        }
        proof {
            assert(runs@[ri as int] == r);
        }
        ri = ri + 1;
    }
    lines
}

} // verus!
