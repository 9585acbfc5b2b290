//! Small decisions of the kerning-removal stages: what counts as a number, whitespace trimming
//! between merged chunks, and the normal/sub/super state machine a merge chain walks through.
use vstd::prelude::*;
use crate::strs::{chars_of, push_char, str_eq};
use crate::style::{ascii_lower, to_ascii_lowercase};
use crate::text::edit::{ChunkRef, WType};
use crate::xml::{trim, trimmed};

verus! {

// ---------------------------------------------------------------------------------------------
// Numbers

/// `s` with `−` (U+2212) read as `-` and thousands separators (`,`) dropped.
pub open spec fn unsigned_text(s: Seq<char>) -> Seq<char>
    decreases s.len(),
{
    if s.len() == 0 {
        seq![]
    } else {
        let c = s.last();
        let rest = unsigned_text(s.drop_last());
        if c == ',' {
            rest
        } else if c == '\u{2212}' {
            rest.push('-')
        } else {
            rest.push(c)
        }
    }
}

pub open spec fn is_digit(c: char) -> bool {
    '0' <= c && c <= '9'
}

/// End of the run of ASCII digits starting at `i`.
pub open spec fn digits_end(t: Seq<char>, i: int) -> int
    decreases t.len() - i,
{
    if i < 0 || i >= t.len() || !is_digit(t[i]) {
        i
    } else {
        digits_end(t, i + 1)
    }
}

pub open spec fn sign_at(t: Seq<char>, i: int) -> bool {
    0 <= i < t.len() && (t[i] == '+' || t[i] == '-')
}

/// From `i` on, `t` is empty or an exponent: `e`/`E`, an optional sign, one digit or more.
pub open spec fn exponent_ok(t: Seq<char>, i: int) -> bool {
    i == t.len() || (0 <= i < t.len() && (t[i] == 'e' || t[i] == 'E') && {
        let j = if sign_at(t, i + 1) {
            i + 2
        } else {
            i + 1
        };
        digits_end(t, j) > j && digits_end(t, j) == t.len()
    })
}

/// `r` is a decimal number: digits, digits with a point, or a point with digits, then an
/// optional exponent.
pub open spec fn number_syntax(r: Seq<char>) -> bool {
    let d1 = digits_end(r, 0);
    if d1 < r.len() && r[d1] == '.' {
        let d2 = digits_end(r, d1 + 1);
        (d1 > 0 || d2 > d1 + 1) && exponent_ok(r, d2)
    } else {
        d1 > 0 && exponent_ok(r, d1)
    }
}

/// What `f64::from_str` accepts: an optional sign, then `inf`, `infinity`, `nan` (any ASCII case)
/// or a decimal number.
pub open spec fn float_syntax(t: Seq<char>) -> bool {
    let r = if sign_at(t, 0) {
        t.drop_first()
    } else {
        t
    };
    let l = ascii_lower(r);
    l == "inf"@ || l == "infinity"@ || l == "nan"@ || number_syntax(r)
}

/// Whether `s` is a number once trimmed, with `−` as minus and `,` separators dropped; with
/// `countminus` a lone minus counts.
pub open spec fn isnumeric_spec(s: Seq<char>, countminus: bool) -> bool {
    let t = unsigned_text(trimmed(s));
    (countminus && t == "-"@) || (t.len() > 0 && float_syntax(t))
}

fn unsigned_chars(s: &str) -> (r: Vec<char>)
    ensures
        r@ == unsigned_text(s@),
{
    let cs = chars_of(s);
    let mut out: Vec<char> = Vec::new();
    let mut i: usize = 0;
    while i < cs.len()
        invariant
            cs@ == s@,
            i <= cs@.len(),
            out@ == unsigned_text(cs@.subrange(0, i as int)),
        decreases cs@.len() - i,
    {
        let c = cs[i];
        proof {
            assert(cs@.subrange(0, i + 1).drop_last() =~= cs@.subrange(0, i as int));
        }
        if c == ',' {
        } else if c == '\u{2212}' {
            out.push('-');
        } else {
            out.push(c);
        }
        i = i + 1;
    }
    proof {
        assert(cs@.subrange(0, cs@.len() as int) =~= cs@);
    }
    out
}

fn digits_end_exec(t: &Vec<char>, i: usize) -> (r: usize)
    requires
        i <= t@.len(),
    ensures
        r == digits_end(t@, i as int),
        i <= r <= t@.len(),
{
    let mut j = i;
    while j < t.len() && '0' <= t[j] && t[j] <= '9'
        invariant
            i <= j <= t@.len(),
            digits_end(t@, j as int) == digits_end(t@, i as int),
        decreases t@.len() - j,
    {
        j = j + 1;
    }
    j
}

fn exponent_ok_exec(t: &Vec<char>, i: usize) -> (r: bool)
    requires
        i <= t@.len(),
    ensures
        r == exponent_ok(t@, i as int),
{
    if i == t.len() {
        return true;
    }
    if t[i] != 'e' && t[i] != 'E' {
        return false;
    }
    let j = if i + 1 < t.len() && (t[i + 1] == '+' || t[i + 1] == '-') {
        i + 2
    } else {
        i + 1
    };
    let k = digits_end_exec(t, j);
    k > j && k == t.len()
}

fn number_syntax_exec(r: &Vec<char>) -> (b: bool)
    ensures
        b == number_syntax(r@),
{
    let d1 = digits_end_exec(r, 0);
    if d1 < r.len() && r[d1] == '.' {
        let d2 = digits_end_exec(r, d1 + 1);
        (d1 > 0 || d2 > d1 + 1) && exponent_ok_exec(r, d2)
    } else {
        d1 > 0 && exponent_ok_exec(r, d1)
    }
}

fn float_syntax_exec(t: &Vec<char>) -> (b: bool)
    ensures
        b == float_syntax(t@),
{
    let r: Vec<char> = if t.len() > 0 && (t[0] == '+' || t[0] == '-') {
        let mut v: Vec<char> = Vec::new();
        let mut i: usize = 1;
        while i < t.len()
            invariant
                1 <= i <= t@.len(),
                v@ == t@.subrange(1, i as int),
            decreases t@.len() - i,
        {
            v.push(t[i]);
            i = i + 1;
        }
        proof {
            assert(v@ =~= t@.drop_first());
        }
        v
    } else {
        t.clone()
    };
    let rs = crate::strs::string_from(r.as_slice());
    let l = to_ascii_lowercase(rs.as_str());
    let l = l.as_str();
    str_eq(l, "inf") || str_eq(l, "infinity") || str_eq(l, "nan") || number_syntax_exec(&r)
}

/// Whether `s` reads as a number (tick labels): trimmed, `−` read as `-`, thousands separators
/// dropped, then what `f64::from_str` accepts; `countminus` makes a lone `-` count.
pub fn isnumeric(s: &str, countminus: bool) -> (r: bool)
    ensures
        r == isnumeric_spec(s@, countminus),
{
    let tr = trim(s);
    let t = unsigned_chars(tr.as_str());
    if countminus && t.len() == 1 && t[0] == '-' {
        proof {
            reveal_strlit("-");
            assert(t@ =~= "-"@);
        }
        return true;
    }
    proof {
        reveal_strlit("-");
        if t@ == "-"@ {
            assert(t@.len() == 1 && t@[0] == '-');
        }
    }
    t.len() > 0 && float_syntax_exec(&t)
}

// ---------------------------------------------------------------------------------------------
// Whitespace between chunks

pub open spec fn is_wsp(c: char) -> bool {
    c == ' ' || c == '\n' || c == '\t' || c == '\r'
}

/// `s` without spaces, tabs, CR and LF.
pub open spec fn wstripped(s: Seq<char>) -> Seq<char>
    decreases s.len(),
{
    if s.len() == 0 {
        seq![]
    } else if is_wsp(s.last()) {
        wstripped(s.drop_last())
    } else {
        wstripped(s.drop_last()).push(s.last())
    }
}

/// Drops spaces, tabs, CR and LF.
pub fn wstrip(s: &str) -> (r: String)
    ensures
        r@ == wstripped(s@),
{
    let cs = chars_of(s);
    let mut out = String::new();
    let mut i: usize = 0;
    while i < cs.len()
        invariant
            cs@ == s@,
            i <= cs@.len(),
            out@ == wstripped(cs@.subrange(0, i as int)),
        decreases cs@.len() - i,
    {
        let c = cs[i];
        proof {
            assert(cs@.subrange(0, i + 1).drop_last() =~= cs@.subrange(0, i as int));
        }
        if !(c == ' ' || c == '\n' || c == '\t' || c == '\r') {
            push_char(&mut out, c);
        }
        i = i + 1;
    }
    proof {
        assert(cs@.subrange(0, cs@.len() as int) =~= cs@);
    }
    out
}

pub open spec fn ends_with_space(a: Seq<char>) -> bool {
    a.len() >= 1 && a[a.len() - 1] == ' '
}

pub open spec fn ends_with_two_spaces(a: Seq<char>) -> bool {
    a.len() >= 2 && a[a.len() - 1] == ' ' && a[a.len() - 2] == ' '
}

pub open spec fn starts_with_space(b: Seq<char>) -> bool {
    b.len() >= 1 && b[0] == ' '
}

pub open spec fn starts_with_two_spaces(b: Seq<char>) -> bool {
    b.len() >= 2 && b[0] == ' ' && b[1] == ' '
}

/// Whether joining `a` and `b` would put two spaces in a row.
pub open spec fn two_spaces_spec(a: Seq<char>, b: Seq<char>) -> bool {
    ends_with_two_spaces(a) || (ends_with_space(a) && starts_with_space(b))
        || starts_with_two_spaces(b)
}

pub fn twospaces(a: &str, b: &str) -> (r: bool)
    ensures
        r == two_spaces_spec(a@, b@),
{
    let x = chars_of(a);
    let y = chars_of(b);
    let n = x.len();
    let m = y.len();
    let a2 = n >= 2 && x[n - 1] == ' ' && x[n - 2] == ' ';
    let a1 = n >= 1 && x[n - 1] == ' ';
    let b1 = m >= 1 && y[0] == ' ';
    let b2 = m >= 2 && y[0] == ' ' && y[1] == ' ';
    a2 || (a1 && b1) || b2
}

/// Number of spaces `a` ends with.
pub open spec fn trailing_spaces(a: Seq<char>) -> nat
    decreases a.len(),
{
    if a.len() == 0 || a.last() != ' ' {
        0
    } else {
        trailing_spaces(a.drop_last()) + 1
    }
}

/// Number of spaces `b` starts with.
pub open spec fn leading_spaces(b: Seq<char>) -> nat
    decreases b.len(),
{
    if b.len() == 0 || b[0] != ' ' {
        0
    } else {
        leading_spaces(b.drop_first()) + 1
    }
}

proof fn lemma_leading_spaces(b: Seq<char>, i: int)
    requires
        0 <= i <= b.len(),
        forall|j: int| 0 <= j < i ==> b[j] == ' ',
    ensures
        leading_spaces(b) == i + leading_spaces(b.subrange(i, b.len() as int)),
    decreases i,
{
    if i > 0 {
        lemma_leading_spaces(b.drop_first(), i - 1);
        assert(b.drop_first().subrange(i - 1, b.drop_first().len() as int) =~= b.subrange(i, b.len() as int));
    } else {
        assert(b.subrange(0, b.len() as int) =~= b);
    }
}

proof fn lemma_trailing_spaces(a: Seq<char>, i: int)
    requires
        0 <= i <= a.len(),
        forall|j: int| i <= j < a.len() ==> a[j] == ' ',
    ensures
        trailing_spaces(a) == (a.len() - i) + trailing_spaces(a.subrange(0, i)),
    decreases a.len() - i,
{
    if i < a.len() {
        lemma_trailing_spaces(a.drop_last(), i);
        assert(a.drop_last().subrange(0, i) =~= a.subrange(0, i));
    } else {
        assert(a.subrange(0, i) =~= a);
    }
}

/// `(trailing spaces of a, leading spaces of b)`.
pub fn trailing_leading(a: &str, b: &str) -> (r: (usize, usize))
    ensures
        r.0 == trailing_spaces(a@),
        r.1 == leading_spaces(b@),
{
    let x = chars_of(a);
    let y = chars_of(b);
    let mut i = x.len();
    while i > 0 && x[i - 1] == ' '
        invariant
            i <= x@.len(),
            forall|j: int| i <= j < x@.len() ==> x@[j] == ' ',
        decreases i,
    {
        i = i - 1;
    }
    proof {
        lemma_trailing_spaces(x@, i as int);
        assert(trailing_spaces(x@.subrange(0, i as int)) == 0);
    }
    let mut k: usize = 0;
    while k < y.len() && y[k] == ' '
        invariant
            k <= y@.len(),
            forall|j: int| 0 <= j < k ==> y@[j] == ' ',
        decreases y@.len() - k,
    {
        k = k + 1;
    }
    proof {
        lemma_leading_spaces(y@, k as int);
        assert(leading_spaces(y@.subrange(k as int, y@.len() as int)) == 0);
    }
    (x.len() - i, k)
}

// ---------------------------------------------------------------------------------------------
// Merge chains

/// How a candidate merge joins the chunk before it.
#[derive(Debug, Clone, Copy, PartialEq, Eq, Structural)]
pub enum MergeType {
    Same,
    Sub,
    Super,
    SubReturn,
    SuperReturn,
}

/// One step of the normal/sub/super state machine; `None` when the step is inconsistent.
pub open spec fn wtype_step(c: WType, m: MergeType) -> Option<WType> {
    match (c, m) {
        (WType::Normal, MergeType::Same) => Some(WType::Normal),
        (WType::Normal, MergeType::Sub) => Some(WType::Sub),
        (WType::Normal, MergeType::Super) => Some(WType::Super),
        (WType::Super, MergeType::Same) => Some(WType::Super),
        (WType::Super, MergeType::SuperReturn) => Some(WType::Normal),
        (WType::Sub, MergeType::Same) => Some(WType::Sub),
        (WType::Sub, MergeType::SubReturn) => Some(WType::Normal),
        _ => None,
    }
}

/// The types a chain's merge types walk through, the head (`Normal`) first; `None` when a step
/// is inconsistent.
pub open spec fn chain_wtypes(ms: Seq<MergeType>) -> Option<Seq<WType>>
    decreases ms.len(),
{
    if ms.len() == 0 {
        Some(seq![WType::Normal])
    } else {
        match chain_wtypes(ms.drop_last()) {
            None => None,
            Some(ws) => match wtype_step(ws.last(), ms.last()) {
                None => None,
                Some(t) => Some(ws.push(t)),
            },
        }
    }
}

pub proof fn lemma_chain_wtypes_len(ms: Seq<MergeType>)
    ensures
        chain_wtypes(ms) matches Some(ws) ==> ws.len() == ms.len() + 1,
    decreases ms.len(),
{
    if ms.len() > 0 {
        lemma_chain_wtypes_len(ms.drop_last());
    }
}

/// A consistent chain walks the state machine step by step: one type per chunk after the
/// `Normal` head, each reached from the one before by that chunk's merge type.
pub proof fn law_chain_steps(ms: Seq<MergeType>)
    ensures
        chain_wtypes(ms) matches Some(ws) ==> {
            &&& ws.len() == ms.len() + 1
            &&& ws[0] == WType::Normal
            &&& forall|i: int| 0 <= i < ms.len() ==> wtype_step(ws[i], #[trigger] ms[i]) == Some(ws[i + 1])
        },
    decreases ms.len(),
{
    if ms.len() > 0 {
        law_chain_steps(ms.drop_last());
        if let Some(ws) = chain_wtypes(ms) {
            let pre = chain_wtypes(ms.drop_last()).unwrap();
            assert(ws == pre.push(ws.last()));
            assert forall|i: int| 0 <= i < ms.len() implies wtype_step(ws[i], #[trigger] ms[i]) == Some(ws[i + 1]) by {
                if i < ms.len() - 1 {
                    assert(ms[i] == ms.drop_last()[i]);
                    assert(ws[i] == pre[i] && ws[i + 1] == pre[i + 1]);
                }
            }
        }
    }
}

pub open spec fn merge_types(chain: Seq<(ChunkRef, MergeType)>) -> Seq<MergeType> {
    chain.map_values(|p: (ChunkRef, MergeType)| p.1)
}

/// Walks a chain's merge types through the normal/sub/super state machine; `None` when the chain
/// is inconsistent and must be dropped. Element `i + 1` is the type of the chain's `i`-th chunk;
/// element 0 is the head (`Normal`).
pub fn merge_wtypes(chain: &[(ChunkRef, MergeType)]) -> (r: Option<Vec<WType>>)
    ensures
        match r {
            Some(v) => chain_wtypes(merge_types(chain@)) == Some(v@),
            None => chain_wtypes(merge_types(chain@)) is None,
        },
{
    let mut ctype = WType::Normal;
    let mut out: Vec<WType> = Vec::new();
    out.push(ctype);
    let mut i: usize = 0;
    proof {
        assert(merge_types(chain@).subrange(0, 0) =~= Seq::<MergeType>::empty());
        assert(out@ =~= seq![WType::Normal]);
    }
    while i < chain.len()
        invariant
            i <= chain@.len(),
            chain_wtypes(merge_types(chain@).subrange(0, i as int)) == Some(out@),
            out@.len() > 0,
            ctype == out@.last(),
        decreases chain@.len() - i,
    {
        let mt = chain[i].1;
        let ghost ms = merge_types(chain@).subrange(0, i + 1);
        proof {
            assert(ms.drop_last() =~= merge_types(chain@).subrange(0, i as int));
            assert(ms.last() == mt);
        }
        let next = match (ctype, mt) {
            (WType::Normal, MergeType::Same) => WType::Normal,
            (WType::Normal, MergeType::Sub) => WType::Sub,
            (WType::Normal, MergeType::Super) => WType::Super,
            (WType::Super, MergeType::Same) => WType::Super,
            (WType::Super, MergeType::SuperReturn) => WType::Normal,
            (WType::Sub, MergeType::Same) => WType::Sub,
            (WType::Sub, MergeType::SubReturn) => WType::Normal,
            _ => {
                proof {
                    assert(chain_wtypes(ms) is None);
                    lemma_chain_none_extends(merge_types(chain@), i as int + 1);
                }
                return None;
            },
        };
        ctype = next;
        out.push(ctype);
        i = i + 1;
    }
    proof {
        assert(merge_types(chain@).subrange(0, chain@.len() as int) =~= merge_types(chain@));
    }
    Some(out)
}

/// Once a prefix of the chain is inconsistent, the whole chain is.
proof fn lemma_chain_none_extends(ms: Seq<MergeType>, k: int)
    requires
        0 <= k <= ms.len(),
        chain_wtypes(ms.subrange(0, k)) is None,
    ensures
        chain_wtypes(ms) is None,
    decreases ms.len() - k,
{
    if k < ms.len() {
        assert(ms.subrange(0, k + 1).drop_last() =~= ms.subrange(0, k));
        lemma_chain_none_extends(ms, k + 1);
    } else {
        assert(ms.subrange(0, k) =~= ms);
    }
}

} // verus!
