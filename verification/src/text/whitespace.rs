//! Normalising a text element before it is parsed: position lists longer than the text they
//! place, XML whitespace, stray line breaks and comments inside text.
use vstd::prelude::*;
use crate::dom::{Doc, DocV, NodeId, KindV, lemma_child, lemma_node_ok, lemma_depth_bound, lemma_index_of};
use crate::strs::{chars_of, push_char, str_eq};
use crate::text::tree::{Run, TextTree, kept, run_text, run_text_node, run_text_of, run_text_set, set_run_text, text_runs, text_tree, tt_f, tt_list, fuel_of, opt_int};
use crate::text::Warnings;
use crate::style::strings_view;
use crate::xml::{is_ws, is_whitespace, trim, trimmed};

verus! {

// ---------------------------------------------------------------------------------------------
// Whitespace in strings

/// The XML whitespace the clean-up collapses: space, tab, CR, LF, form feed, vertical tab.
pub open spec fn is_ws6(c: char) -> bool {
    c == ' ' || c == '\t' || c == '\r' || c == '\n' || c == '\x0c' || c == '\x0b'
}

fn ws6(c: char) -> (r: bool)
    ensures
        r == is_ws6(c),
{
    c == ' ' || c == '\t' || c == '\r' || c == '\n' || c == '\x0c' || c == '\x0b'
}

/// Every maximal run of whitespace replaced by one space.
pub open spec fn collapsed(s: Seq<char>) -> Seq<char>
    decreases s.len(),
{
    if s.len() == 0 {
        seq![]
    } else {
        let c = s.last();
        let pre = collapsed(s.drop_last());
        if is_ws6(c) {
            if s.len() >= 2 && is_ws6(s[s.len() - 2]) {
                pre
            } else {
                pre.push(' ')
            }
        } else {
            pre.push(c)
        }
    }
}

pub fn collapse(s: &str) -> (r: String)
    ensures
        r@ == collapsed(s@),
{
    let cs = chars_of(s);
    let mut out = String::new();
    let mut in_ws = false;
    let mut i: usize = 0;
    while i < cs.len()
        invariant
            cs@ == s@,
            i <= cs@.len(),
            out@ == collapsed(cs@.subrange(0, i as int)),
            in_ws == (i > 0 && is_ws6(cs@[i - 1])),
        decreases cs@.len() - i,
    {
        let c = cs[i];
        proof {
            let p = cs@.subrange(0, i + 1);
            assert(p.drop_last() =~= cs@.subrange(0, i as int));
            assert(p.last() == c);
            if i > 0 {
                assert(p[p.len() - 2] == cs@[i - 1]);
            }
        }
        if ws6(c) {
            if !in_ws {
                push_char(&mut out, ' ');
            }
            in_ws = true;
        } else {
            push_char(&mut out, c);
            in_ws = false;
        }
        i = i + 1;
    }
    proof {
        assert(cs@.subrange(0, cs@.len() as int) =~= cs@);
    }
    out
}

pub open spec fn ws6_start(s: Seq<char>, i: int) -> int
    decreases s.len() - i,
{
    if i < 0 || i >= s.len() || !is_ws6(s[i]) {
        i
    } else {
        ws6_start(s, i + 1)
    }
}

pub open spec fn ws6_end(s: Seq<char>, j: int) -> int
    decreases j,
{
    if j <= 0 || j > s.len() || !is_ws6(s[j - 1]) {
        j
    } else {
        ws6_end(s, j - 1)
    }
}

/// `s` without the XML whitespace it starts and ends with.
pub open spec fn trimmed6(s: Seq<char>) -> Seq<char> {
    let a = ws6_start(s, 0);
    let b = ws6_end(s, s.len() as int);
    if a >= b {
        seq![]
    } else {
        s.subrange(a, b)
    }
}

pub fn trim6(s: &str) -> (r: String)
    ensures
        r@ == trimmed6(s@),
{
    let cs = chars_of(s);
    let mut a: usize = 0;
    while a < cs.len() && ws6(cs[a])
        invariant
            a <= cs@.len(),
            ws6_start(cs@, a as int) == ws6_start(cs@, 0),
        decreases cs@.len() - a,
    {
        a = a + 1;
    }
    let mut b = cs.len();
    while b > 0 && ws6(cs[b - 1])
        invariant
            b <= cs@.len(),
            ws6_end(cs@, b as int) == ws6_end(cs@, cs@.len() as int),
        decreases b,
    {
        b = b - 1;
    }
    if a >= b {
        String::new()
    } else {
        crate::strs::string_from(crate::strs::slice_range(cs.as_slice(), a, b))
    }
}

/// Whitespace for line-break clean-up: the XML whitespace and the no-break space.
pub open spec fn is_space_like(c: char) -> bool {
    is_ws6(c) || c == '\u{A0}'
}

pub open spec fn is_break(c: char) -> bool {
    c == '\n' || c == '\r'
}

/// Some line break comes before position `i` in the run of whitespace that ends there.
pub open spec fn break_before(s: Seq<char>, i: int) -> bool
    decreases i,
{
    if i <= 0 || i > s.len() {
        false
    } else if !is_space_like(s[i - 1]) {
        false
    } else if is_break(s[i - 1]) {
        true
    } else {
        break_before(s, i - 1)
    }
}

/// In each maximal run of whitespace the first line break becomes a space and later ones vanish.
pub open spec fn first_break_spaced(s: Seq<char>) -> Seq<char>
    decreases s.len(),
{
    if s.len() == 0 {
        seq![]
    } else {
        let c = s.last();
        let pre = first_break_spaced(s.drop_last());
        if is_break(c) {
            if break_before(s, s.len() - 1) {
                pre
            } else {
                pre.push(' ')
            }
        } else {
            pre.push(c)
        }
    }
}

proof fn lemma_break_before_prefix(s: Seq<char>, k: int, i: int)
    requires
        0 <= i <= k <= s.len(),
    ensures
        break_before(s.subrange(0, k), i) == break_before(s, i),
    decreases i,
{
    if i > 0 {
        assert(s.subrange(0, k)[i - 1] == s[i - 1]);
        lemma_break_before_prefix(s, k, i - 1);
    }
}

pub fn first_newline_to_space(s: &str) -> (r: String)
    ensures
        r@ == first_break_spaced(s@),
{
    let cs = chars_of(s);
    let mut out = String::new();
    let mut seen = false;
    let mut i: usize = 0;
    while i < cs.len()
        invariant
            cs@ == s@,
            i <= cs@.len(),
            out@ == first_break_spaced(cs@.subrange(0, i as int)),
            seen == break_before(cs@, i as int),
        decreases cs@.len() - i,
    {
        let c = cs[i];
        proof {
            let p = cs@.subrange(0, i + 1);
            assert(p.drop_last() =~= cs@.subrange(0, i as int));
            assert(p.last() == c);
            lemma_break_before_prefix(cs@, i + 1, i as int);
        }
        if c == '\n' || c == '\r' {
            if !seen {
                push_char(&mut out, ' ');
            }
            seen = true;
        } else {
            push_char(&mut out, c);
            if !(ws6(c) || c == '\u{A0}') {
                seen = false;
            }
        }
        i = i + 1;
    }
    proof {
        assert(cs@.subrange(0, cs@.len() as int) =~= cs@);
    }
    out
}

/// Line breaks cleaned: in the last span of a line, a final run of whitespace is treated as if a
/// line break followed it.
pub open spec fn returns_cleaned(s: Seq<char>, last_span: bool) -> Seq<char> {
    if last_span {
        let t = first_break_spaced(s.push('\n'));
        if t.len() == 0 {
            t
        } else {
            t.drop_last()
        }
    } else {
        first_break_spaced(s)
    }
}

pub fn cleanup_returns(s: &str, last_span: bool) -> (r: String)
    ensures
        r@ == returns_cleaned(s@, last_span),
{
    if last_span {
        let mut t = s.to_owned();
        push_char(&mut t, '\n');
        let u = first_newline_to_space(t.as_str());
        let cs = chars_of(u.as_str());
        if cs.len() == 0 {
            return u;
        }
        crate::strs::string_from(crate::strs::slice_prefix(cs.as_slice(), cs.len() - 1))
    } else {
        first_newline_to_space(s)
    }
}

// ---------------------------------------------------------------------------------------------
// Facts about runs

/// A run the passes may read and write: its node is in the document and a tail's node has a
/// parent.
pub open spec fn run_ok(d: DocV, r: Run) -> bool {
    d.valid(r.node) && (r.is_tail ==> d.parent(r.node) is Some)
}

pub open spec fn runs_ok(d: DocV, runs: Seq<Run>) -> bool {
    forall|k: int| 0 <= k < runs.len() ==> #[trigger] run_ok(d, runs[k])
}

/// Rewriting the text of an existing text node changes no link and no other node.
proof fn lemma_text_set_frame(d: DocV, t: NodeId, v: Seq<char>, x: NodeId)
    requires
        d.wf(),
        d.valid(t),
        d.valid(x),
    ensures
        d.text_set(t, v).nodes.len() == d.nodes.len(),
        d.text_set(t, v).parent(x) == d.parent(x),
        d.text_set(t, v).children(x) == d.children(x),
        x != t ==> d.text_set(t, v).kind(x) == d.kind(x),
        d.text_set(t, v).depth == d.depth,
        d.text_set(t, v).svg == d.svg,
{
}

/// A run's text written where one exists keeps every link and the kind of every non-text node.
proof fn lemma_rewrite_frame(d: DocV, r: Run, v: Seq<char>, x: NodeId)
    requires
        d.wf(),
        d.valid(r.node),
        run_text_node(d, r) is Some,
        d.valid(x),
    ensures
        run_text_set(d, r, Some(v)).nodes.len() == d.nodes.len(),
        run_text_set(d, r, Some(v)).parent(x) == d.parent(x),
        run_text_set(d, r, Some(v)).children(x) == d.children(x),
        !d.is_text(x) ==> run_text_set(d, r, Some(v)).kind(x) == d.kind(x),
{
    let t = run_text_node(d, r).unwrap();
    crate::text::tree::lemma_run_text_node_valid(d, r);
    lemma_text_set_frame(d, t, v, x);
}

// ---------------------------------------------------------------------------------------------
// Whitespace clean-up

/// `n` has an element or comment child.
pub open spec fn has_node_children(d: DocV, n: NodeId) -> bool {
    exists|i: int| 0 <= i < d.children(n).len() && #[trigger] kept(d, d.children(n)[i])
}

/// The last element or comment of `cs`.
pub open spec fn last_kept(d: DocV, cs: Seq<NodeId>) -> Option<NodeId>
    decreases cs.len(),
{
    if cs.len() == 0 {
        None
    } else if kept(d, cs.last()) {
        Some(cs.last())
    } else {
        last_kept(d, cs.drop_last())
    }
}

/// `n` is the last element or comment child of its parent.
pub open spec fn is_last_child(d: DocV, n: NodeId) -> bool {
    match d.parent(n) {
        Some(p) => last_kept(d, d.children(p)) == Some(n),
        None => false,
    }
}

fn node_children(doc: &Doc, n: NodeId) -> (r: bool)
    requires
        doc.wf(),
        doc@.valid(n),
    ensures
        r == has_node_children(doc@, n),
{
    let cs = doc.children(n);
    let mut i: usize = 0;
    while i < cs.len()
        invariant
            doc.wf(),
            doc@.valid(n),
            cs@ == doc@.children(n),
            i <= cs@.len(),
            forall|j: int| 0 <= j < i ==> !#[trigger] kept(doc@, cs@[j]),
        decreases cs@.len() - i,
    {
        proof {
            lemma_child(doc@, n, i as int);
        }
        if doc.is_element(cs[i]) || doc.is_comment(cs[i]) {
            proof {
                assert(kept(doc@, doc@.children(n)[i as int]));
            }
            return true;
        }
        i = i + 1;
    }
    false
}

fn last_child_of_parent(doc: &Doc, n: NodeId) -> (r: bool)
    requires
        doc.wf(),
        doc@.valid(n),
    ensures
        r == is_last_child(doc@, n),
{
    match doc.parent(n) {
        None => false,
        Some(p) => {
            proof {
                lemma_node_ok(doc@, n);
            }
            let cs = doc.children(p);
            let mut i = cs.len();
            proof {
                assert(cs@.subrange(0, cs@.len() as int) =~= cs@);
            }
            while i > 0
                invariant
                    doc.wf(),
                    doc@.valid(p),
                    doc@.parent(n) == Some(p),
                    cs@ == doc@.children(p),
                    i <= cs@.len(),
                    last_kept(doc@, cs@.subrange(0, i as int)) == last_kept(doc@, cs@),
                decreases i,
            {
                proof {
                    lemma_child(doc@, p, i - 1);
                    assert(cs@.subrange(0, i as int).drop_last() =~= cs@.subrange(0, i - 1));
                }
                let c = cs[i - 1];
                proof {
                    assert(cs@.subrange(0, i as int).last() == c);
                }
                if doc.is_element(c) || doc.is_comment(c) {
                    return c == n;
                }
                i = i - 1;
            }
            false
        },
    }
}

/// What the whitespace clean-up makes of a run's text `txt` (of two characters or more): runs
/// collapsed and the ends trimmed; a `.text` keeps one trailing space when it ended in
/// whitespace and the node has children, a `.tail` keeps one leading space when it began with
/// whitespace.
pub open spec fn ws_cleaned(d: DocV, r: Run, txt: Seq<char>) -> Seq<char> {
    let core = trimmed6(collapsed(txt));
    if !r.is_tail {
        if has_node_children(d, r.node) && txt.len() > 0 && is_ws6(txt.last()) {
            core.push(' ')
        } else {
            core
        }
    } else if txt.len() > 0 && is_ws6(txt[0]) {
        seq![' '] + core
    } else {
        core
    }
}

pub open spec fn ws_step(d: DocV, r: Run) -> DocV {
    match run_text_of(d, r) {
        None => d,
        Some(txt) => if txt.len() <= 1 {
            d
        } else {
            run_text_set(d, r, Some(ws_cleaned(d, r, txt)))
        },
    }
}

pub open spec fn ws_pass(d: DocV, runs: Seq<Run>) -> DocV
    decreases runs.len(),
{
    if runs.len() == 0 {
        d
    } else {
        ws_step(ws_pass(d, runs.drop_last()), runs.last())
    }
}

/// Line breaks cleaned in one run; a run is the last span of its line when it is a `.text` of
/// a node without children or the `.tail` of a parent's last child.
pub open spec fn returns_step(d: DocV, r: Run) -> DocV {
    match run_text_of(d, r) {
        None => d,
        Some(txt) => {
            let last_span = if r.is_tail {
                is_last_child(d, r.node)
            } else {
                !has_node_children(d, r.node)
            };
            let new = returns_cleaned(txt, last_span);
            if new != txt {
                run_text_set(d, r, Some(new))
            } else {
                d
            }
        },
    }
}

pub open spec fn returns_pass(d: DocV, runs: Seq<Run>) -> DocV
    decreases runs.len(),
{
    if runs.len() == 0 {
        d
    } else {
        returns_step(returns_pass(d, runs.drop_last()), runs.last())
    }
}

/// Whitespace collapsed (unless `xml:space="preserve"` applies to the text element) and line
/// breaks cleaned (unless it is flowed text).
pub open spec fn whitespace_cleaned(d: DocV, el: NodeId, runs: Seq<Run>, is_flow: bool) -> DocV {
    let d1 = if !d.xml_space_preserve(el) {
        ws_pass(d, runs)
    } else {
        d
    };
    if !is_flow {
        returns_pass(d1, runs)
    } else {
        d1
    }
}

fn cleaned_text(doc: &Doc, r: &Run, txt: &str) -> (out: String)
    requires
        doc.wf(),
        doc@.valid(r.node),
    ensures
        out@ == ws_cleaned(doc@, *r, txt@),
{
    let c = collapse(txt);
    let core = trim6(c.as_str());
    let cs = chars_of(txt);
    if !r.is_tail {
        if node_children(doc, r.node) && cs.len() > 0 && ws6(cs[cs.len() - 1]) {
            let mut s = core;
            push_char(&mut s, ' ');
            s
        } else {
            core
        }
    } else if cs.len() > 0 && ws6(cs[0]) {
        let mut s = String::from_str(" ");
        s.append(core.as_str());
        proof {
            reveal_strlit(" ");
        }
        s
    } else {
        core
    }
}

fn cleanup_whitespace(doc: &mut Doc, el: NodeId, runs: &[Run], is_flow: bool)
    requires
        old(doc).wf(),
        old(doc)@.valid(el),
        runs_ok(old(doc)@, runs@),
    ensures
        final(doc).wf(),
        final(doc)@ == whitespace_cleaned(old(doc)@, el, runs@, is_flow),
        final(doc)@.nodes.len() == old(doc)@.nodes.len(),
        forall|x: NodeId| old(doc)@.valid(x) ==> {
            &&& final(doc)@.parent(x) == old(doc)@.parent(x)
            &&& final(doc)@.children(x) == old(doc)@.children(x)
            &&& (!old(doc)@.is_text(x) ==> final(doc)@.kind(x) == old(doc)@.kind(x))
        },
{
    let ghost d0 = doc@;
    if !doc.xml_space_preserve(el) {
        let mut i: usize = 0;
        while i < runs.len()
            invariant
                doc.wf(),
                i <= runs@.len(),
                runs_ok(d0, runs@),
                doc@ == ws_pass(d0, runs@.subrange(0, i as int)),
                doc@.nodes.len() == d0.nodes.len(),
                forall|x: NodeId| d0.valid(x) ==> {
                    &&& doc@.parent(x) == d0.parent(x)
                    &&& doc@.children(x) == d0.children(x)
                    &&& (!d0.is_text(x) ==> doc@.kind(x) == d0.kind(x))
                },
            decreases runs@.len() - i,
        {
            let r = &runs[i];
            proof {
                assert(runs@.subrange(0, i + 1).drop_last() =~= runs@.subrange(0, i as int));
                assert(run_ok(d0, runs@[i as int]));
            }
            match run_text(doc, r) {
                None => {},
                Some(txt) => {
                    let n = chars_of(txt.as_str()).len();
                    if n > 1 {
                        let new = cleaned_text(doc, r, txt.as_str());
                        let ghost dd = doc@;
                        proof {
                            assert forall|x: NodeId| dd.valid(x) implies {
                                &&& run_text_set(dd, *r, Some(new@)).parent(x) == dd.parent(x)
                                &&& run_text_set(dd, *r, Some(new@)).children(x) == dd.children(x)
                                &&& (!dd.is_text(x) ==> run_text_set(dd, *r, Some(new@)).kind(x) == dd.kind(x))
                            } by {
                                lemma_rewrite_frame(dd, *r, new@, x);
                            }
                            lemma_rewrite_frame(dd, *r, new@, r.node);
                        }
                        set_run_text(doc, r, Some(new.as_str()));
                    }
                },
            }
            i = i + 1;
        }
        proof {
            assert(runs@.subrange(0, runs@.len() as int) =~= runs@);
        }
    }
    let ghost d1 = doc@;
    if !is_flow {
        let mut i: usize = 0;
        while i < runs.len()
            invariant
                doc.wf(),
                i <= runs@.len(),
                runs_ok(d0, runs@),
                d1.nodes.len() == d0.nodes.len(),
                doc@ == returns_pass(d1, runs@.subrange(0, i as int)),
                doc@.nodes.len() == d0.nodes.len(),
                forall|x: NodeId| d0.valid(x) ==> {
                    &&& doc@.parent(x) == d0.parent(x)
                    &&& doc@.children(x) == d0.children(x)
                    &&& (!d0.is_text(x) ==> doc@.kind(x) == d0.kind(x))
                },
            decreases runs@.len() - i,
        {
            let r = &runs[i];
            proof {
                assert(runs@.subrange(0, i + 1).drop_last() =~= runs@.subrange(0, i as int));
                assert(run_ok(d0, runs@[i as int]));
            }
            match run_text(doc, r) {
                None => {},
                Some(txt) => {
                    let last_span = if r.is_tail {
                        last_child_of_parent(doc, r.node)
                    } else {
                        !node_children(doc, r.node)
                    };
                    let new = cleanup_returns(txt.as_str(), last_span);
                    if !str_eq(new.as_str(), txt.as_str()) {
                        let ghost dd = doc@;
                        proof {
                            assert forall|x: NodeId| dd.valid(x) implies {
                                &&& run_text_set(dd, *r, Some(new@)).parent(x) == dd.parent(x)
                                &&& run_text_set(dd, *r, Some(new@)).children(x) == dd.children(x)
                                &&& (!dd.is_text(x) ==> run_text_set(dd, *r, Some(new@)).kind(x) == dd.kind(x))
                            } by {
                                lemma_rewrite_frame(dd, *r, new@, x);
                            }
                            lemma_rewrite_frame(dd, *r, new@, r.node);
                        }
                        set_run_text(doc, r, Some(new.as_str()));
                    }
                },
            }
            i = i + 1;
        }
        proof {
            assert(runs@.subrange(0, runs@.len() as int) =~= runs@);
        }
    }
}

// ---------------------------------------------------------------------------------------------
// Position lists longer than the text

/// The tokens of `s` from position `i` on; `start` is where the current token began (or -1).
pub open spec fn tokens_from(s: Seq<char>, i: int, start: int) -> Seq<Seq<char>>
    decreases s.len() - i,
{
    if i < 0 || i >= s.len() {
        if 0 <= start <= s.len() {
            seq![s.subrange(start, s.len() as int)]
        } else {
            seq![]
        }
    } else if is_ws(s[i]) {
        if 0 <= start <= i {
            seq![s.subrange(start, i)] + tokens_from(s, i + 1, -1)
        } else {
            tokens_from(s, i + 1, -1)
        }
    } else {
        tokens_from(s, i + 1, if start >= 0 { start } else { i })
    }
}

/// The whitespace-separated tokens of `s` (`str::split_whitespace`).
pub open spec fn ws_tokens(s: Seq<char>) -> Seq<Seq<char>> {
    tokens_from(s, 0, -1)
}

pub fn split_whitespace(s: &str) -> (r: Vec<String>)
    ensures
        strings_view(r@) == ws_tokens(s@),
{
    let cs = chars_of(s);
    let mut out: Vec<String> = Vec::new();
    let mut start: usize = 0;
    let mut in_tok = false;
    let mut i: usize = 0;
    while i < cs.len()
        invariant
            cs@ == s@,
            i <= cs@.len(),
            in_tok ==> start <= i,
            strings_view(out@) + tokens_from(cs@, i as int, if in_tok { start as int } else { -1 }) == ws_tokens(s@),
        decreases cs@.len() - i,
    {
        let c = cs[i];
        let ghost o = strings_view(out@);
        if is_whitespace(c) {
            if in_tok {
                let t = crate::strs::string_from(crate::strs::slice_range(cs.as_slice(), start, i));
                out.push(t);
                proof {
                    assert(strings_view(out@) =~= o.push(t@));
                    assert(o + (seq![cs@.subrange(start as int, i as int)] + tokens_from(cs@, i + 1, -1)) =~= o.push(t@) + tokens_from(cs@, i + 1, -1));
                }
            }
            in_tok = false;
        } else {
            if !in_tok {
                start = i;
                in_tok = true;
            }
        }
        i = i + 1;
    }
    if in_tok {
        let ghost o = strings_view(out@);
        let t = crate::strs::string_from(crate::strs::slice_range(cs.as_slice(), start, cs.len()));
        out.push(t);
        proof {
            assert(strings_view(out@) =~= o.push(t@));
            assert(o + seq![cs@.subrange(start as int, cs@.len() as int)] =~= o.push(t@));
        }
    } else {
        proof {
            assert(strings_view(out@) + Seq::<Seq<char>>::empty() =~= strings_view(out@));
        }
    }
    out
}

/// How many values a position list holds: 1 when absent or blank.
pub open spec fn xy_count(d: DocV, n: NodeId, a: Seq<char>) -> nat {
    match d.attr(n, a) {
        None => 1,
        Some(v) => if trimmed(v).len() == 0 {
            1
        } else {
            ws_tokens(v).len()
        },
    }
}

/// The list `a` has more values than the node's text has characters.
pub open spec fn overflows(d: DocV, n: NodeId, a: Seq<char>, len: nat) -> bool {
    d.attr(n, a) is Some && xy_count(d, n, a) > 1 && xy_count(d, n, a) > len
}

pub open spec fn any_overflow(d: DocV, n: NodeId, len: nat) -> bool {
    overflows(d, n, "x"@, len) || overflows(d, n, "y"@, len) || overflows(d, n, "dx"@, len)
        || overflows(d, n, "dy"@, len)
}

/// How a node is named in warnings: its id, else its tag.
pub open spec fn label_of(d: DocV, n: NodeId) -> Seq<char> {
    match d.attr(n, "id"@) {
        Some(v) => v,
        None => d.tag(n),
    }
}

/// `w` with `msg` added unless it is there.
pub open spec fn warned(w: Seq<Seq<char>>, msg: Seq<char>) -> Seq<Seq<char>> {
    if w.contains(msg) {
        w
    } else {
        w.push(msg)
    }
}

/// Tokens joined by single spaces.
pub open spec fn space_joined(ts: Seq<Seq<char>>) -> Seq<char>
    decreases ts.len(),
{
    if ts.len() == 0 {
        seq![]
    } else if ts.len() == 1 {
        ts[0]
    } else {
        space_joined(ts.drop_last()) + " "@ + ts.last()
    }
}

/// List `a` of `n` cut to `len` values (removed when `len` is 0), with a warning when values
/// that would have placed later text are lost (`lossy`).
pub open spec fn attr_fixed(d: DocV, w: Seq<Seq<char>>, n: NodeId, a: Seq<char>, len: nat, lossy: bool) -> (DocV, Seq<Seq<char>>) {
    if !overflows(d, n, a, len) {
        (d, w)
    } else {
        let w2 = if lossy {
            warned(w, label_of(d, n) + ": "@ + a + " has more values than characters; extra values dropped"@)
        } else {
            w
        };
        let d2 = if len == 0 {
            d.attr_removed(n, a)
        } else {
            d.attr_set(n, a, space_joined(ws_tokens(d.attr(n, a).unwrap()).take(len as int)))
        };
        (d2, w2)
    }
}

/// The four position lists of `n` cut to its text's length.
pub open spec fn elem_fixed(d: DocV, w: Seq<Seq<char>>, n: NodeId, len: nat, lossy: bool) -> (DocV, Seq<Seq<char>>) {
    if !any_overflow(d, n, len) {
        (d, w)
    } else {
        let (d1, w1) = attr_fixed(d, w, n, "x"@, len, lossy);
        let (d2, w2) = attr_fixed(d1, w1, n, "y"@, len, lossy);
        let (d3, w3) = attr_fixed(d2, w2, n, "dx"@, len, lossy);
        attr_fixed(d3, w3, n, "dy"@, len, lossy)
    }
}

/// Position of the last tail run of entry `ddi` among the first `k` runs, or -1.
pub open spec fn last_tail(runs: Seq<Run>, ddi: usize, k: int) -> int
    decreases k,
{
    if k <= 0 || k > runs.len() {
        -1
    } else if runs[k - 1].is_tail && runs[k - 1].ddi == ddi {
        k - 1
    } else {
        last_tail(runs, ddi, k - 1)
    }
}

/// Where entry `ddi`'s tail run is, or the number of runs when it has none.
pub open spec fn tail_pos(runs: Seq<Run>, ddi: usize) -> int {
    let p = last_tail(runs, ddi, runs.len() as int);
    if p < 0 {
        runs.len() as int
    } else {
        p
    }
}

pub open spec fn has_text(d: DocV, r: Run) -> bool {
    run_text_of(d, r) matches Some(t) && t.len() > 0
}

/// Some text follows the element's own text inside its subtree: cutting its position lists
/// loses values that would have placed it.
pub open spec fn lossy_at(d0: DocV, runs: Seq<Run>, ri: int) -> bool {
    exists|k: int| ri + 1 <= k < tail_pos(runs, runs[ri].ddi) && 0 <= k < runs.len() && #[trigger] has_text(d0, runs[k])
}

/// The text length of a run (0 when it has none).
pub open spec fn run_len(d: DocV, r: Run) -> nat {
    match run_text_of(d, r) {
        Some(t) => t.len(),
        None => 0,
    }
}

/// The overflow pass over the first `k` runs; lossiness is judged on the texts of `d0`.
pub open spec fn overflows_removed(d0: DocV, runs: Seq<Run>, w: Seq<Seq<char>>, k: int) -> (DocV, Seq<Seq<char>>)
    decreases k,
{
    if k <= 0 || k > runs.len() {
        (d0, w)
    } else {
        let (d, w1) = overflows_removed(d0, runs, w, k - 1);
        let r = runs[k - 1];
        if !r.is_tail && d.is_element(r.node) {
            elem_fixed(d, w1, r.node, run_len(d, r), lossy_at(d0, runs, k - 1))
        } else {
            (d, w1)
        }
    }
}

/// Attribute edits change no link and no non-element node.
proof fn lemma_attr_frame(d: DocV, n: NodeId, a: Seq<char>, v: Seq<char>, x: NodeId)
    requires
        d.wf(),
        d.valid(n),
        d.valid(x),
    ensures
        d.attr_set(n, a, v).nodes.len() == d.nodes.len(),
        d.attr_set(n, a, v).parent(x) == d.parent(x),
        d.attr_set(n, a, v).children(x) == d.children(x),
        x != n ==> d.attr_set(n, a, v).kind(x) == d.kind(x),
        d.attr_set(n, a, v).is_element(n) == d.is_element(n),
        d.attr_set(n, a, v).is_text(x) == d.is_text(x),
        d.attr_removed(n, a).nodes.len() == d.nodes.len(),
        d.attr_removed(n, a).parent(x) == d.parent(x),
        d.attr_removed(n, a).children(x) == d.children(x),
        x != n ==> d.attr_removed(n, a).kind(x) == d.kind(x),
        d.attr_removed(n, a).is_element(n) == d.is_element(n),
        d.attr_removed(n, a).is_text(x) == d.is_text(x),
{
}

fn count_values(doc: &Doc, n: NodeId, a: &str) -> (r: usize)
    requires
        doc@.valid(n),
    ensures
        r == xy_count(doc@, n, a@),
{
    match doc.attr(n, a) {
        None => 1,
        Some(v) => {
            let t = trim(v);
            if t.as_str().is_empty() {
                1
            } else {
                let toks = split_whitespace(v);
                toks.len()
            }
        },
    }
}

fn join_first(toks: &Vec<String>, len: usize) -> (r: String)
    requires
        len <= toks@.len(),
    ensures
        r@ == space_joined(strings_view(toks@).take(len as int)),
{
    let mut out = String::new();
    let mut i: usize = 0;
    while i < len
        invariant
            len <= toks@.len(),
            i <= len,
            out@ == space_joined(strings_view(toks@).take(i as int)),
        decreases len - i,
    {
        let ghost fs = strings_view(toks@).take(i + 1);
        proof {
            assert(fs.drop_last() =~= strings_view(toks@).take(i as int));
            assert(fs.last() == toks@[i as int]@);
        }
        if i > 0 {
            out.append(" ");
        }
        out.append(toks[i].as_str());
        proof {
            if i == 0 {
                assert(out@ =~= fs[0]);
            }
        }
        i = i + 1;
    }
    out
}

fn fix_attr(doc: &mut Doc, warn: &mut Warnings, n: NodeId, a: &str, len: usize, lossy: bool)
    requires
        old(doc).wf(),
        old(doc)@.valid(n),
    ensures
        final(doc).wf(),
        (final(doc)@, strings_view(final(warn).0@)) == attr_fixed(old(doc)@, strings_view(old(warn).0@), n, a@, len as nat, lossy),
{
    let cnt = count_values(doc, n, a);
    let present = doc.attr(n, a).is_some();
    if !(present && cnt > 1 && cnt > len) {
        return;
    }
    if lossy {
        let mut msg = match doc.attr(n, "id") {
            Some(v) => v.to_owned(),
            None => doc.tag(n).to_owned(),
        };
        msg.append(": ");
        msg.append(a);
        msg.append(" has more values than characters; extra values dropped");
        warn.push(msg.as_str());
    }
    if len == 0 {
        let _ = doc.remove_attr(n, a);
    } else {
        let v = doc.attr(n, a).unwrap().to_owned();
        let toks = split_whitespace(v.as_str());
        let kept = join_first(&toks, len);
        doc.set_attr(n, a, kept.as_str());
    }
}

fn tail_position(runs: &[Run], ddi: usize) -> (r: usize)
    ensures
        r == tail_pos(runs@, ddi),
{
    let mut k = runs.len();
    while k > 0
        invariant
            k <= runs@.len(),
            last_tail(runs@, ddi, k as int) == last_tail(runs@, ddi, runs@.len() as int),
        decreases k,
    {
        if runs[k - 1].is_tail && runs[k - 1].ddi == ddi {
            return k - 1;
        }
        k = k - 1;
    }
    runs.len()
}

fn remove_position_overflows(doc: &mut Doc, runs: &[Run], warn: &mut Warnings)
    requires
        old(doc).wf(),
        runs_ok(old(doc)@, runs@),
    ensures
        final(doc).wf(),
        (final(doc)@, strings_view(final(warn).0@)) == overflows_removed(old(doc)@, runs@, strings_view(old(warn).0@), runs@.len() as int),
        final(doc)@.nodes.len() == old(doc)@.nodes.len(),
        forall|x: NodeId| old(doc)@.valid(x) ==> {
            &&& final(doc)@.parent(x) == old(doc)@.parent(x)
            &&& final(doc)@.children(x) == old(doc)@.children(x)
            &&& final(doc)@.is_text(x) == old(doc)@.is_text(x)
        },
{
    let ghost d0 = doc@;
    let ghost w0 = strings_view(warn.0@);
    let mut texts: Vec<bool> = Vec::new();
    let mut k: usize = 0;
    while k < runs.len()
        invariant
            doc@ == d0,
            doc.wf(),
            runs_ok(d0, runs@),
            k <= runs@.len(),
            texts@.len() == k,
            forall|j: int| 0 <= j < k ==> texts@[j] == has_text(d0, runs@[j]),
        decreases runs@.len() - k,
    {
        proof {
            assert(run_ok(d0, runs@[k as int]));
        }
        let t = match run_text(doc, &runs[k]) {
            Some(t) => !t.as_str().is_empty(),
            None => false,
        };
        texts.push(t);
        k = k + 1;
    }
    let mut ri: usize = 0;
    while ri < runs.len()
        invariant
            doc.wf(),
            runs_ok(d0, runs@),
            ri <= runs@.len(),
            texts@.len() == runs@.len(),
            forall|j: int| 0 <= j < runs@.len() ==> texts@[j] == has_text(d0, runs@[j]),
            (doc@, strings_view(warn.0@)) == overflows_removed(d0, runs@, w0, ri as int),
            doc@.nodes.len() == d0.nodes.len(),
            forall|x: NodeId| d0.valid(x) ==> {
                &&& doc@.parent(x) == d0.parent(x)
                &&& doc@.children(x) == d0.children(x)
                &&& doc@.is_text(x) == d0.is_text(x)
            },
        decreases runs@.len() - ri,
    {
        let r = &runs[ri];
        proof {
            assert(run_ok(d0, runs@[ri as int]));
        }
        let n = r.node;
        if !r.is_tail && doc.is_element(n) {
            let len: usize = match run_text(doc, r) {
                Some(t) => chars_of(t.as_str()).len(),
                None => 0,
            };
            let any = {
                let cx = count_values(doc, n, "x");
                let cy = count_values(doc, n, "y");
                let cdx = count_values(doc, n, "dx");
                let cdy = count_values(doc, n, "dy");
                (doc.attr(n, "x").is_some() && cx > 1 && cx > len) || (doc.attr(n, "y").is_some() && cy > 1 && cy > len)
                    || (doc.attr(n, "dx").is_some() && cdx > 1 && cdx > len) || (doc.attr(n, "dy").is_some() && cdy > 1 && cdy > len)
            };
            if any {
                let tp = tail_position(runs, r.ddi);
                let mut lossy = false;
                let mut j = ri + 1;
                while j < tp && j < runs.len()
                    invariant
                        ri < runs@.len(),
                        texts@.len() == runs@.len(),
                        forall|q: int| 0 <= q < runs@.len() ==> texts@[q] == has_text(d0, runs@[q]),
                        tp == tail_pos(runs@, runs@[ri as int].ddi),
                        ri + 1 <= j,
                        lossy == exists|q: int| ri + 1 <= q < j && q < tp && 0 <= q < runs@.len() && #[trigger] has_text(d0, runs@[q]),
                    decreases runs@.len() - j,
                {
                    if texts[j] {
                        lossy = true;
                    }
                    proof {
                        if texts@[j as int] {
                            assert(has_text(d0, runs@[j as int]));
                        }
                    }
                    j = j + 1;
                }
                proof {
                    assert(lossy == lossy_at(d0, runs@, ri as int));
                }
                let ghost da = doc@;
                fix_attr(doc, warn, n, "x", len, lossy);
                proof {
                    assert forall|x: NodeId| da.valid(x) implies doc@.parent(x) == da.parent(x) && doc@.children(x) == da.children(x) && doc@.is_text(x) == da.is_text(x) && doc@.nodes.len() == da.nodes.len() by {
                        lemma_attr_frame(da, n, "x"@, seq![], x);
                    }
                }
                let ghost db = doc@;
                fix_attr(doc, warn, n, "y", len, lossy);
                proof {
                    assert forall|x: NodeId| db.valid(x) implies doc@.parent(x) == db.parent(x) && doc@.children(x) == db.children(x) && doc@.is_text(x) == db.is_text(x) && doc@.nodes.len() == db.nodes.len() by {
                        lemma_attr_frame(db, n, "y"@, seq![], x);
                    }
                }
                let ghost dc = doc@;
                fix_attr(doc, warn, n, "dx", len, lossy);
                proof {
                    assert forall|x: NodeId| dc.valid(x) implies doc@.parent(x) == dc.parent(x) && doc@.children(x) == dc.children(x) && doc@.is_text(x) == dc.is_text(x) && doc@.nodes.len() == dc.nodes.len() by {
                        lemma_attr_frame(dc, n, "dx"@, seq![], x);
                    }
                }
                let ghost dd = doc@;
                fix_attr(doc, warn, n, "dy", len, lossy);
                proof {
                    assert forall|x: NodeId| dd.valid(x) implies doc@.parent(x) == dd.parent(x) && doc@.children(x) == dd.children(x) && doc@.is_text(x) == dd.is_text(x) && doc@.nodes.len() == dd.nodes.len() by {
                        lemma_attr_frame(dd, n, "dy"@, seq![], x);
                    }
                }
            }
        }
        ri = ri + 1;
    }
}

// ---------------------------------------------------------------------------------------------
// Comments inside text

/// Writing or removing a run's text keeps every link of the other nodes and their kinds, and
/// makes at most one node.
proof fn lemma_set_run_text_frame(d: DocV, r: Run, s: Option<Seq<char>>, x: NodeId)
    requires
        d.wf(),
        d.valid(r.node),
        run_text_node(d, r) is None && s is Some ==> {
            &&& d.nodes.len() + 1 < u32::MAX
            &&& r.is_tail ==> d.parent(r.node) is Some
        },
        d.valid(x),
        !d.is_text(x),
    ensures
        run_text_set(d, r, s).parent(x) == d.parent(x),
        run_text_set(d, r, s).kind(x) == d.kind(x),
        d.nodes.len() <= run_text_set(d, r, s).nodes.len() <= d.nodes.len() + 1,
{
    crate::text::tree::lemma_run_text_node_valid(d, r);
    match (run_text_node(d, r), s) {
        (Some(t), Some(v)) => {
            lemma_text_set_frame(d, t, v, x);
        },
        (Some(t), None) => {
            if let Some(p) = d.parent(t) {
                lemma_node_ok(d, t);
                let d1 = d.detach_struct(t, p);
                assert(d.detached(t).nodes == d1.nodes);
                assert(x != t);
                assert(d1.nodes[x as int].parent == d.nodes[x as int].parent);
                assert(d1.nodes[x as int].kind == d.nodes[x as int].kind);
            }
        },
        (None, Some(v)) => {
            let t = d.nodes.len() as NodeId;
            let d1 = d.allocated(KindV::Text(v));
            assert(d1.parent(t) is None);
            assert(d1.detached(t) == d1);
            assert(x != t);
            lemma_node_ok(d, r.node);
            assert(d1.nodes[x as int] == d.nodes[x as int]);
            let dd = run_text_set(d, r, s);
            let (q, i) = if r.is_tail {
                let pp = d.parent(r.node).unwrap();
                lemma_node_ok(d, pp);
                match d.next_sibling(r.node) {
                    None => (pp, d1.children(pp).len() as int),
                    Some(nx) => {
                        let k = crate::dom::pos_in(d.children(pp), r.node) + 1;
                        lemma_child(d, pp, k);
                        assert(d1.nodes[nx as int] == d.nodes[nx as int]);
                        (pp, crate::dom::pos_in(d1.children(pp), nx))
                    },
                }
            } else if d.children(r.node).len() == 0 {
                (r.node, d1.children(r.node).len() as int)
            } else {
                let nx = d.children(r.node)[0];
                lemma_child(d, r.node, 0);
                assert(d1.nodes[nx as int] == d.nodes[nx as int]);
                (r.node, crate::dom::pos_in(d1.children(r.node), nx))
            };
            assert(d.valid(q));
            assert(dd.nodes == d1.attach_struct(q, i, t).nodes);
            assert(dd.nodes[x as int].parent == d.nodes[x as int].parent);
            assert(dd.nodes[x as int].kind == d.nodes[x as int].kind);
        },
        (None, None) => {},
    }
}

/// The element or comment sibling before position `i` of `cs`, nearest first.
pub open spec fn prev_kept_from(d: DocV, cs: Seq<NodeId>, i: int) -> Option<NodeId>
    decreases i + 1,
{
    if i < 0 || i >= cs.len() {
        None
    } else if kept(d, cs[i]) {
        Some(cs[i])
    } else {
        prev_kept_from(d, cs, i - 1)
    }
}

/// The element or comment that precedes `n` among its siblings.
pub open spec fn prev_kept(d: DocV, n: NodeId) -> Option<NodeId> {
    match d.parent(n) {
        Some(p) => prev_kept_from(d, d.children(p), crate::dom::pos_in(d.children(p), n) - 1),
        None => None,
    }
}

/// Where a comment's tail goes: the tail of the previous element or comment sibling, or the
/// parent's text.
pub open spec fn comment_target(d: DocV, n: NodeId) -> Run {
    match prev_kept(d, n) {
        Some(p) => Run { ddi: 0, node: p, is_tail: true, style_node: p },
        None => Run { ddi: 0, node: d.parent(n).unwrap(), is_tail: false, style_node: d.parent(n).unwrap() },
    }
}

/// The text after comment `n` (entry `i`) moved onto the text before it.
pub open spec fn comment_step(d: DocV, n: NodeId, i: usize) -> DocV {
    let tail = Run { ddi: i, node: n, is_tail: true, style_node: n };
    match run_text_of(d, tail) {
        None => d,
        Some(t) => {
            let target = comment_target(d, n);
            let existing = match run_text_of(d, target) {
                Some(e) => e,
                None => seq![],
            };
            let d1 = run_text_set(d, tail, None);
            run_text_set(d1, target, Some(existing + t))
        },
    }
}

/// The comments among entries 1 to `k - 1` of `dds` condensed, in order.
pub open spec fn comments_condensed(d: DocV, dds: Seq<NodeId>, k: int) -> DocV
    decreases k,
{
    if k <= 1 || k > dds.len() {
        d
    } else {
        let d1 = comments_condensed(d, dds, k - 1);
        let n = dds[k - 1];
        if d1.is_comment(n) {
            comment_step(d1, n, (k - 1) as usize)
        } else {
            d1
        }
    }
}

/// Entries 1 on of a tree are nodes with a parent.
pub open spec fn members_ok(d: DocV, dds: Seq<NodeId>) -> bool {
    forall|k: int| 1 <= k < dds.len() ==> d.valid(#[trigger] dds[k]) && d.parent(dds[k]) is Some && !d.is_text(dds[k])
}

fn prev_kept_exec(doc: &Doc, n: NodeId) -> (r: Option<NodeId>)
    requires
        doc.wf(),
        doc@.valid(n),
        doc@.parent(n) is Some,
    ensures
        r == prev_kept(doc@, n),
        r matches Some(q) ==> doc@.valid(q) && doc@.parent(q) == doc@.parent(n) && !doc@.is_text(q),
{
    let p = doc.parent(n).unwrap();
    proof {
        lemma_node_ok(doc@, n);
        lemma_node_ok(doc@, p);
    }
    let cs = doc.children(p);
    let ghost at = crate::dom::pos_in(cs@, n);
    let mut j: usize = 0;
    while j < cs.len() && cs[j] != n
        invariant
            cs@ == doc@.children(p),
            cs@.contains(n),
            j <= cs@.len(),
            forall|q: int| 0 <= q < j ==> cs@[q] != n,
        decreases cs@.len() - j,
    {
        j = j + 1;
    }
    proof {
        if j == cs@.len() {
            let q = choose|q: int| 0 <= q < cs@.len() && cs@[q] == n;
            assert(false);
        }
        lemma_index_of(cs@, j as int, n);
    }
    let mut i = j;
    while i > 0
        invariant
            doc.wf(),
            doc@.valid(p),
            doc@.parent(n) == Some(p),
            j == crate::dom::pos_in(cs@, n),
            cs@ == doc@.children(p),
            i <= j < cs@.len(),
            prev_kept_from(doc@, cs@, i - 1) == prev_kept_from(doc@, cs@, j - 1),
        decreases i,
    {
        proof {
            lemma_child(doc@, p, i - 1);
        }
        let c = cs[i - 1];
        if doc.is_element(c) || doc.is_comment(c) {
            proof {
                assert(prev_kept_from(doc@, cs@, i - 1) == Some(c));
            }
            return Some(c);
        }
        i = i - 1;
    }
    None
}

fn condense_comments(doc: &mut Doc, dds: &Vec<NodeId>)
    requires
        old(doc).wf(),
        members_ok(old(doc)@, dds@),
        old(doc)@.nodes.len() + dds@.len() < u32::MAX,
    ensures
        final(doc).wf(),
        final(doc)@ == comments_condensed(old(doc)@, dds@, dds@.len() as int),
{
    let ghost d0 = doc@;
    if dds.len() <= 1 {
        return;
    }
    let mut i: usize = 1;
    while i < dds.len()
        invariant
            doc.wf(),
            1 <= i <= dds@.len(),
            members_ok(doc@, dds@),
            doc@.nodes.len() <= d0.nodes.len() + i,
            d0.nodes.len() + dds@.len() < u32::MAX,
            doc@ == comments_condensed(d0, dds@, i as int),
        decreases dds@.len() - i,
    {
        let n = dds[i];
        proof {
            assert(doc@.valid(dds@[i as int]));
        }
        if doc.is_comment(n) {
            let tail = Run { ddi: i, node: n, is_tail: true, style_node: n };
            match run_text(doc, &tail) {
                None => {},
                Some(t) => {
                    let prev = prev_kept_exec(doc, n);
                    let target = match prev {
                        Some(p) => Run { ddi: 0, node: p, is_tail: true, style_node: p },
                        None => {
                            let q = doc.parent(n).unwrap();
                            proof {
                                lemma_node_ok(doc@, n);
                            }
                            Run { ddi: 0, node: q, is_tail: false, style_node: q }
                        },
                    };
                    let mut text: String = match run_text(doc, &target) {
                        Some(e) => e,
                        None => String::new(),
                    };
                    text.append(t.as_str());
                    let ghost da = doc@;
                    proof {
                        assert forall|k: int| 1 <= k < dds@.len() implies {
                            &&& run_text_set(da, tail, None).valid(#[trigger] dds@[k])
                            &&& run_text_set(da, tail, None).parent(dds@[k]) is Some
                            &&& !run_text_set(da, tail, None).is_text(dds@[k])
                        } by {
                            lemma_set_run_text_frame(da, tail, None, dds@[k]);
                        }
                        lemma_set_run_text_frame(da, tail, None, n);
                        if target.is_tail {
                            lemma_set_run_text_frame(da, tail, None, target.node);
                        }
                        lemma_node_ok(da, n);
                    }
                    set_run_text(doc, &tail, None);
                    let ghost db = doc@;
                    proof {
                        assert forall|k: int| 1 <= k < dds@.len() implies {
                            &&& run_text_set(db, target, Some(text@)).valid(#[trigger] dds@[k])
                            &&& run_text_set(db, target, Some(text@)).parent(dds@[k]) is Some
                            &&& !run_text_set(db, target, Some(text@)).is_text(dds@[k])
                        } by {
                            lemma_set_run_text_frame(db, target, Some(text@), dds@[k]);
                        }
                    }
                    set_run_text(doc, &target, Some(text.as_str()));
                },
            }
        }
        i = i + 1;
    }
}

// ---------------------------------------------------------------------------------------------
// The whole normalisation

proof fn lemma_runs_f_ok(d: DocV, x: NodeId, me: int, expand: bool, fuel: nat)
    requires
        d.wf(),
        d.valid(x),
        fuel == fuel_of(d, x),
    ensures
        runs_ok(d, crate::text::tree::runs_f(d, x, me, expand, fuel)),
    decreases fuel, 0nat, 0int,
{
    lemma_depth_bound(d, x);
    if fuel > 0 {
        let kids = if expand {
            d.children(x)
        } else {
            seq![]
        };
        lemma_runs_list_ok(d, x, kids, me, me + 1, (fuel - 1) as nat, kids.len() as int);
        assert(kids.subrange(0, kids.len() as int) =~= kids);
        let own = if d.is_comment(x) {
            Seq::<Run>::empty()
        } else {
            seq![Run { ddi: me as usize, node: x, is_tail: false, style_node: x }]
        };
        let rest = crate::text::tree::runs_list(d, kids, x, me, me + 1, (fuel - 1) as nat);
        assert forall|k: int| 0 <= k < (own + rest).len() implies #[trigger] run_ok(d, (own + rest)[k]) by {
            if k >= own.len() {
                assert((own + rest)[k] == rest[k - own.len()]);
            }
        }
    }
}

proof fn lemma_runs_list_ok(d: DocV, x: NodeId, kids: Seq<NodeId>, parent: int, start: int, fuel: nat, k: int)
    requires
        d.wf(),
        d.valid(x),
        fuel + 1 == fuel_of(d, x),
        kids == d.children(x) || kids == Seq::<NodeId>::empty(),
        0 <= k <= kids.len(),
    ensures
        runs_ok(d, crate::text::tree::runs_list(d, kids.subrange(0, k), x, parent, start, fuel)),
    decreases fuel, 1nat, k,
{
    let cs = kids.subrange(0, k);
    if k > 0 {
        assert(cs.drop_last() =~= kids.subrange(0, k - 1));
        lemma_runs_list_ok(d, x, kids, parent, start, fuel, k - 1);
        let c = cs.last();
        lemma_child(d, x, k - 1);
        lemma_depth_bound(d, c);
        lemma_depth_bound(d, x);
        let pre = crate::text::tree::runs_list(d, cs.drop_last(), x, parent, start, fuel);
        let at = start + tt_list(d, cs.drop_last(), parent, start, fuel).len();
        if kept(d, c) {
            lemma_runs_f_ok(d, c, at, d.is_element(c), fuel);
            let mid = crate::text::tree::runs_f(d, c, at, d.is_element(c), fuel);
            let tl = seq![Run { ddi: at as usize, node: c, is_tail: true, style_node: x }];
            let all = pre + mid + tl;
            assert forall|q: int| 0 <= q < all.len() implies #[trigger] run_ok(d, all[q]) by {
                if q < pre.len() {
                    assert(all[q] == pre[q]);
                } else if q < pre.len() + mid.len() {
                    assert(all[q] == mid[q - pre.len()]);
                } else {
                    assert(all[q] == tl[0]);
                }
            }
        }
    }
}

/// Entries of a tree other than the first are element or comment nodes with a parent.
pub open spec fn entries_ok(d: DocV, es: Seq<(NodeId, Option<int>)>, from: int) -> bool {
    forall|k: int| from <= k < es.len() ==> d.valid(#[trigger] es[k].0) && d.parent(es[k].0) is Some && kept(d, es[k].0)
}

/// The entries of a text tree are nodes of the document, the first the text element itself, and
/// its runs are runs of nodes of the document.
pub proof fn lemma_text_tree_ok(d: DocV, el: NodeId)
    requires
        d.wf(),
        d.valid(el),
    ensures
        text_tree(d, el).len() >= 1,
        text_tree(d, el)[0].0 == el,
        forall|k: int| 0 <= k < text_tree(d, el).len() ==> d.valid(#[trigger] text_tree(d, el)[k].0),
        runs_ok(d, crate::text::tree::text_runs(d, el)),
{
    lemma_tt_f_ok(d, el, None, 0, true, fuel_of(d, el));
    lemma_runs_f_ok(d, el, 0, true, fuel_of(d, el));
    assert forall|k: int| 0 <= k < text_tree(d, el).len() implies d.valid(#[trigger] text_tree(d, el)[k].0) by {
        if k >= 1 {
            assert(entries_ok(d, text_tree(d, el), 1));
        }
    }
}

proof fn lemma_tt_f_ok(d: DocV, x: NodeId, p: Option<int>, me: int, expand: bool, fuel: nat)
    requires
        d.wf(),
        d.valid(x),
        fuel == fuel_of(d, x),
    ensures
        entries_ok(d, tt_f(d, x, p, me, expand, fuel), 1),
        tt_f(d, x, p, me, expand, fuel).len() >= 1,
        tt_f(d, x, p, me, expand, fuel)[0].0 == x,
    decreases fuel, 0nat, 0int,
{
    lemma_depth_bound(d, x);
    let kids = if expand {
        d.children(x)
    } else {
        seq![]
    };
    lemma_tt_list_ok(d, x, kids, me, me + 1, (fuel - 1) as nat, kids.len() as int);
    assert(kids.subrange(0, kids.len() as int) =~= kids);
    let rest = tt_list(d, kids, me, me + 1, (fuel - 1) as nat);
    let all = seq![(x, p)] + rest;
    assert forall|k: int| 1 <= k < all.len() implies d.valid(#[trigger] all[k].0) && d.parent(all[k].0) is Some && kept(d, all[k].0) by {
        assert(all[k] == rest[k - 1]);
    }
}

proof fn lemma_tt_list_ok(d: DocV, x: NodeId, kids: Seq<NodeId>, parent: int, start: int, fuel: nat, k: int)
    requires
        d.wf(),
        d.valid(x),
        fuel + 1 == fuel_of(d, x),
        kids == d.children(x) || kids == Seq::<NodeId>::empty(),
        0 <= k <= kids.len(),
    ensures
        entries_ok(d, tt_list(d, kids.subrange(0, k), parent, start, fuel), 0),
    decreases fuel, 1nat, k,
{
    let cs = kids.subrange(0, k);
    if k > 0 {
        assert(cs.drop_last() =~= kids.subrange(0, k - 1));
        lemma_tt_list_ok(d, x, kids, parent, start, fuel, k - 1);
        let c = cs.last();
        lemma_child(d, x, k - 1);
        lemma_depth_bound(d, c);
        lemma_depth_bound(d, x);
        let pre = tt_list(d, cs.drop_last(), parent, start, fuel);
        if kept(d, c) {
            lemma_tt_f_ok(d, c, Some(parent), start + pre.len(), d.is_element(c), fuel);
            let sub = tt_f(d, c, Some(parent), start + pre.len(), d.is_element(c), fuel);
            let all = pre + sub;
            assert forall|q: int| 0 <= q < all.len() implies d.valid(#[trigger] all[q].0) && d.parent(all[q].0) is Some && kept(d, all[q].0) by {
                if q < pre.len() {
                    assert(all[q] == pre[q]);
                } else {
                    assert(all[q] == sub[q - pre.len()]);
                }
            }
        }
    }
}

/// The nodes of the text tree of `el`, in order.
pub open spec fn tree_nodes(d: DocV, el: NodeId) -> Seq<NodeId> {
    text_tree(d, el).map_values(|e: (NodeId, Option<int>)| e.0)
}

/// The text element `el` normalised so the parser can assume sane input: position lists cut to
/// the text they place (with warnings `w` where values are lost), whitespace collapsed and
/// line breaks cleaned as the element asks, and the text after each comment moved before it.
pub open spec fn depathologized(d: DocV, el: NodeId, is_flow: bool, w: Seq<Seq<char>>) -> (DocV, Seq<Seq<char>>) {
    let runs = text_runs(d, el);
    let (d1, w1) = overflows_removed(d, runs, w, runs.len() as int);
    let d2 = whitespace_cleaned(d1, el, runs, is_flow);
    let dds = tree_nodes(d, el);
    (comments_condensed(d2, dds, dds.len() as int), w1)
}

/// Normalises a text element in place so the parser can assume sane input.
pub fn depathologize(doc: &mut Doc, el: NodeId, is_flow: bool, warn: &mut Warnings)
    requires
        old(doc).wf(),
        old(doc)@.valid(el),
        old(doc)@.nodes.len() + text_tree(old(doc)@, el).len() < u32::MAX,
    ensures
        final(doc).wf(),
        (final(doc)@, strings_view(final(warn).0@)) == depathologized(old(doc)@, el, is_flow, strings_view(old(warn).0@)),
{
    let ghost d0 = doc@;
    let tree = TextTree::new(doc, el);
    proof {
        lemma_tt_f_ok(d0, el, None, 0, true, fuel_of(d0, el));
        assert(tree.entries()[0].0 == tree.dds@[0]);
    }
    let runs = tree.runs(doc);
    proof {
        lemma_runs_f_ok(d0, el, 0, true, fuel_of(d0, el));
        assert(tree.dds@ =~= tree_nodes(d0, el));
    }
    remove_position_overflows(doc, runs.as_slice(), warn);
    let ghost d1 = doc@;
    proof {
        assert forall|k: int| 0 <= k < runs@.len() implies #[trigger] run_ok(d1, runs@[k]) by {
            assert(run_ok(d0, runs@[k]));
        }
    }
    cleanup_whitespace(doc, el, runs.as_slice(), is_flow);
    proof {
        let es = text_tree(d0, el);
        assert forall|k: int| 1 <= k < tree.dds@.len() implies doc@.valid(#[trigger] tree.dds@[k]) && doc@.parent(tree.dds@[k]) is Some && !doc@.is_text(tree.dds@[k]) by {
            assert(tree.dds@[k] == es[k].0);
            assert(d0.valid(es[k].0) && d0.parent(es[k].0) is Some && kept(d0, es[k].0));
        }
    }
    condense_comments(doc, &tree.dds);
}

} // verus!
