//! The Homogenizer's reading of an Inkscape font specification ("DejaVu Sans Bold Italic") as
//! CSS font properties.
use vstd::prelude::*;
use crate::strs::{alphanumeric, chars_of, is_alphanumeric, lowercase_of, push_char, str_eq, to_lowercase};
use crate::style::{Style, join, joined_with, strings_view, style_set};
use crate::text::whitespace::{split_whitespace, ws_tokens};
use crate::cleanup::{split_on, split_pat};
use crate::sheet::contains_string;
use crate::xml::{is_whitespace, is_ws};
use crate::cli::opt_view;

verus! {

/// The characters a compared name keeps: letters, digits, `_` and whitespace.
pub open spec fn kept_char(c: char) -> bool {
    alphanumeric(c) || c == '_' || is_ws(c)
}

/// The characters of `s` that `kept_char` keeps, in order.
pub open spec fn kept_chars(s: Seq<char>) -> Seq<char>
    decreases s.len(),
{
    if s.len() == 0 {
        seq![]
    } else if kept_char(s.last()) {
        kept_chars(s.drop_last()).push(s.last())
    } else {
        kept_chars(s.drop_last())
    }
}

/// A name as compared: punctuation dropped, whitespace runs made one space, lower-cased.
pub open spec fn cleaned(s: Seq<char>) -> Seq<char> {
    lowercase_of(joined_with(ws_tokens(kept_chars(s)), " "@))
}

/// The non-empty pieces of `ts`, in order.
pub open spec fn nonempty(ts: Seq<Seq<char>>) -> Seq<Seq<char>>
    decreases ts.len(),
{
    if ts.len() == 0 {
        seq![]
    } else if ts.last().len() > 0 {
        nonempty(ts.drop_last()).push(ts.last())
    } else {
        nonempty(ts.drop_last())
    }
}

/// The words of a cleaned specification: its pieces between spaces, empty ones dropped.
pub open spec fn spec_words(s: Seq<char>) -> Seq<Seq<char>> {
    nonempty(split_pat(s, " "@))
}

/// The length of `s` in UTF-8 bytes.
pub open spec fn byte_len(s: Seq<char>) -> nat {
    vstd::utf8::encode_utf8(s).len()
}

/// The best family match so far `acc` (text, number of words, at the start), against the run
/// `cur` of `i` words: taken when it is a family name longer in bytes than the match so far.
pub open spec fn pick(acc: (Seq<char>, int, bool), cur: Seq<char>, i: int, at_start: bool, fm: Seq<Seq<char>>) -> (Seq<char>, int, bool) {
    if fm.contains(cur) && byte_len(cur) > byte_len(acc.0) {
        (cur, i, at_start)
    } else {
        acc
    }
}

/// The best match among the runs of the first 1, ..., `i` words.
pub open spec fn prefix_scan(ws: Seq<Seq<char>>, fm: Seq<Seq<char>>, i: int) -> (Seq<char>, int, bool)
    decreases i,
{
    if i <= 0 {
        (seq![], 0, true)
    } else {
        pick(prefix_scan(ws, fm, i - 1), joined_with(ws.subrange(0, i), " "@), i, true, fm)
    }
}

/// `acc`, then the runs of the last 1, ..., `i` words tried in turn.
pub open spec fn suffix_scan(ws: Seq<Seq<char>>, fm: Seq<Seq<char>>, acc: (Seq<char>, int, bool), i: int) -> (Seq<char>, int, bool)
    decreases i,
{
    if i <= 0 {
        acc
    } else {
        pick(suffix_scan(ws, fm, acc, i - 1), joined_with(ws.subrange(ws.len() - i, ws.len() as int), " "@), i, false, fm)
    }
}

/// The longest run of words at the start or else at the end that is a family name (the start
/// wins a tie), with its number of words and whether it is at the start.
pub open spec fn family_match(ws: Seq<Seq<char>>, fm: Seq<Seq<char>>) -> (Seq<char>, int, bool) {
    suffix_scan(ws, fm, prefix_scan(ws, fm, ws.len() as int), ws.len() as int)
}

/// The first index at or after `i` where `s` holds `x` (-1 if none).
pub open spec fn first_from(s: Seq<Seq<char>>, x: Seq<char>, i: int) -> int
    decreases s.len() - i,
{
    if i < 0 || i >= s.len() {
        -1
    } else if s[i] == x {
        i
    } else {
        first_from(s, x, i + 1)
    }
}

/// Pango's weight words.
pub open spec fn weight_word(w: Seq<char>) -> Option<Seq<char>> {
    if w == "ultralight"@ {
        Some("200"@)
    } else if w == "light"@ {
        Some("300"@)
    } else if w == "semilight"@ {
        Some("350"@)
    } else if w == "medium"@ {
        Some("500"@)
    } else if w == "semibold"@ {
        Some("600"@)
    } else if w == "bold"@ {
        Some("bold"@)
    } else if w == "ultrabold"@ {
        Some("800"@)
    } else if w == "heavy"@ {
        Some("900"@)
    } else if w == "normal"@ {
        Some("normal"@)
    } else if w == "book"@ {
        Some("380"@)
    } else if w == "thin"@ {
        Some("100"@)
    } else if w == "ultraheavy"@ {
        Some("1000"@)
    } else {
        None
    }
}

/// Pango's stretch words.
pub open spec fn stretch_word(w: Seq<char>) -> Option<Seq<char>> {
    if w == "ultracondensed"@ {
        Some("ultra-condensed"@)
    } else if w == "extracondensed"@ {
        Some("extra-condensed"@)
    } else if w == "condensed"@ {
        Some("condensed"@)
    } else if w == "semicondensed"@ {
        Some("semi-condensed"@)
    } else if w == "normal"@ {
        Some("normal"@)
    } else if w == "semiexpanded"@ {
        Some("semi-expanded"@)
    } else if w == "expanded"@ {
        Some("expanded"@)
    } else if w == "extraexpanded"@ {
        Some("extra-expanded"@)
    } else if w == "ultraexpanded"@ {
        Some("ultra-expanded"@)
    } else {
        None
    }
}

/// Pango's style words.
pub open spec fn style_word(w: Seq<char>) -> Option<Seq<char>> {
    if w == "italic"@ {
        Some("italic"@)
    } else if w == "oblique"@ {
        Some("oblique"@)
    } else if w == "normal"@ {
        Some("normal"@)
    } else {
        None
    }
}

/// `weightNNN`: the digits after `weight`, when there are some and nothing else.
pub open spec fn weight_number(w: Seq<char>) -> Option<Seq<char>> {
    if w.len() > 6 && w.subrange(0, 6) == "weight"@ && (forall|i: int| 6 <= i < w.len() ==> '0' <= #[trigger] w[i] <= '9') {
        Some(w.subrange(6, w.len() as int))
    } else {
        None
    }
}

/// Weight, style and stretch after the word `w`, or `None` when `w` names none of them.
pub open spec fn word_read(st: (Option<Seq<char>>, Option<Seq<char>>, Option<Seq<char>>), w: Seq<char>) -> Option<(Option<Seq<char>>, Option<Seq<char>>, Option<Seq<char>>)> {
    let wt = if weight_word(w) is Some { weight_word(w) } else { weight_number(w) };
    let sy = style_word(w);
    let sr = stretch_word(w);
    if wt is None && sy is None && sr is None {
        None
    } else {
        Some((
            if wt is Some { wt } else { st.0 },
            if sy is Some { sy } else { st.1 },
            if sr is Some { sr } else { st.2 },
        ))
    }
}

/// Weight, style and stretch that the words name (a later word overriding an earlier one), or
/// `None` when a word names none of them.
pub open spec fn words_read(ws: Seq<Seq<char>>) -> Option<(Option<Seq<char>>, Option<Seq<char>>, Option<Seq<char>>)>
    decreases ws.len(),
{
    if ws.len() == 0 {
        Some((None, None, None))
    } else {
        match words_read(ws.drop_last()) {
            None => None,
            Some(st) => word_read(st, ws.last()),
        }
    }
}

/// `k` set to `v` when there is one.
pub open spec fn set_opt(st: Seq<(Seq<char>, Seq<char>)>, k: Seq<char>, v: Option<Seq<char>>) -> Seq<(Seq<char>, Seq<char>)> {
    match v {
        Some(x) => style_set(st, k, x),
        None => st,
    }
}

/// The families a specification may name: the installed ones, then the generic ones.
pub open spec fn all_families(families: Seq<Seq<char>>) -> Seq<Seq<char>> {
    families + seq!["Serif"@, "Sans"@, "System-ui"@, "Monospace"@]
}

/// The CSS of an Inkscape font specification: the longest run of words at its start or end that
/// names a family (compared cleaned) is `font-family`; every other word must be a weight, style
/// or stretch word (or `weightNNN`), else there is none.
pub open spec fn font_spec_css(fstr: Seq<char>, families: Seq<Seq<char>>) -> Option<Seq<(Seq<char>, Seq<char>)>> {
    let full = all_families(families);
    let fm = full.map_values(|f: Seq<char>| cleaned(f));
    let ws = spec_words(cleaned(fstr));
    let m = family_match(ws, fm);
    let fam = if m.0.len() == 0 { None } else { Some(full[first_from(fm, m.0, 0)]) };
    let rest = if m.0.len() == 0 {
        ws
    } else if m.2 {
        ws.subrange(m.1, ws.len() as int)
    } else {
        ws.subrange(0, ws.len() - m.1)
    };
    match words_read(rest) {
        None => None,
        Some(st) => Some(set_opt(set_opt(set_opt(set_opt(seq![], "font-family"@, fam), "font-weight"@, st.0), "font-style"@, st.1), "font-stretch"@, st.2)),
    }
}

fn clean(s: &str) -> (r: String)
    ensures
        r@ == cleaned(s@),
{
    let cs = chars_of(s);
    let mut kept = String::new();
    let mut i: usize = 0;
    while i < cs.len()
        invariant
            cs@ == s@,
            i <= cs@.len(),
            kept@ == kept_chars(cs@.subrange(0, i as int)),
        decreases cs@.len() - i,
    {
        proof {
            assert(cs@.subrange(0, i + 1).drop_last() =~= cs@.subrange(0, i as int));
        }
        let c = cs[i];
        if is_alphanumeric(c) || c == '_' || is_whitespace(c) {
            push_char(&mut kept, c);
        }
        i = i + 1;
    }
    proof {
        assert(cs@.subrange(0, cs@.len() as int) =~= cs@);
    }
    let ws = split_whitespace(kept.as_str());
    let j = join(&ws, " ");
    to_lowercase(j.as_str())
}

/// The non-empty strings of `v`, in order.
fn nonempty_of(v: Vec<String>) -> (r: Vec<String>)
    ensures
        strings_view(r@) == nonempty(strings_view(v@)),
{
    let mut out: Vec<String> = Vec::new();
    let mut i: usize = 0;
    while i < v.len()
        invariant
            i <= v@.len(),
            strings_view(out@) == nonempty(strings_view(v@.subrange(0, i as int))),
        decreases v@.len() - i,
    {
        proof {
            assert(strings_view(v@.subrange(0, i + 1)).drop_last() =~= strings_view(v@.subrange(0, i as int)));
            assert(strings_view(v@.subrange(0, i + 1)).last() == v@[i as int]@);
        }
        if !v[i].as_str().is_empty() {
            let ghost o = strings_view(out@);
            out.push(v[i].as_str().to_owned());
            proof {
                assert(strings_view(out@) =~= o.push(v@[i as int]@));
            }
        }
        i = i + 1;
    }
    proof {
        assert(v@.subrange(0, v@.len() as int) =~= v@);
    }
    out
}

/// The words of `v` from `a` up to `b`, joined by single spaces.
fn joined_range(v: &Vec<String>, a: usize, b: usize) -> (r: String)
    requires
        a <= b <= v@.len(),
    ensures
        r@ == joined_with(strings_view(v@).subrange(a as int, b as int), " "@),
{
    let ghost sv = strings_view(v@);
    let mut out = String::new();
    let mut i: usize = a;
    while i < b
        invariant
            a <= i <= b <= v@.len(),
            sv == strings_view(v@),
            out@ == joined_with(sv.subrange(a as int, i as int), " "@),
        decreases b - i,
    {
        proof {
            assert(sv.subrange(a as int, i + 1).drop_last() =~= sv.subrange(a as int, i as int));
            assert(sv.subrange(a as int, i + 1).last() == v@[i as int]@);
        }
        if i > a {
            out.append(" ");
        }
        out.append(v[i].as_str());
        proof {
            if i == a {
                assert(sv.subrange(a as int, i + 1).len() == 1);
                assert(out@ =~= v@[i as int]@);
            }
        }
        i = i + 1;
    }
    out
}

/// The length of `s` in UTF-8 bytes.
fn utf8_len(s: &str) -> (r: u128)
    ensures
        r == byte_len(s@),
{
    let cs = chars_of(s);
    let mut acc: u128 = 0;
    let mut i: usize = cs.len();
    while i > 0
        invariant
            i <= cs@.len(),
            cs@ == s@,
            acc == byte_len(cs@.subrange(i as int, cs@.len() as int)),
            acc <= 4 * (cs@.len() - i),
        decreases i,
    {
        let c = cs[i - 1];
        proof {
            vstd::utf8::char_is_scalar(c);
            assert(cs@.len() == cs.len());
        }
        let u = c as u32;
        let w: u128 = if u <= 0x7F {
            1
        } else if u <= 0x7FF {
            2
        } else if u <= 0xFFFF {
            3
        } else {
            4
        };
        proof {
            let t = cs@.subrange(i - 1, cs@.len() as int);
            assert(t.drop_first() =~= cs@.subrange(i as int, cs@.len() as int));
            assert(t[0] == c);
            assert(vstd::utf8::encode_utf8(t) == vstd::utf8::encode_scalar(c as u32) + vstd::utf8::encode_utf8(t.drop_first()));
        }
        acc = acc + w;
        i = i - 1;
    }
    proof {
        assert(cs@.subrange(0, cs@.len() as int) =~= cs@);
    }
    acc
}

fn weight_of(w: &str) -> (r: Option<&'static str>)
    ensures
        match r {
            Some(v) => weight_word(w@) == Some(v@),
            None => weight_word(w@) is None,
        },
{
    if str_eq(w, "ultralight") {
        Some("200")
    } else if str_eq(w, "light") {
        Some("300")
    } else if str_eq(w, "semilight") {
        Some("350")
    } else if str_eq(w, "medium") {
        Some("500")
    } else if str_eq(w, "semibold") {
        Some("600")
    } else if str_eq(w, "bold") {
        Some("bold")
    } else if str_eq(w, "ultrabold") {
        Some("800")
    } else if str_eq(w, "heavy") {
        Some("900")
    } else if str_eq(w, "normal") {
        Some("normal")
    } else if str_eq(w, "book") {
        Some("380")
    } else if str_eq(w, "thin") {
        Some("100")
    } else if str_eq(w, "ultraheavy") {
        Some("1000")
    } else {
        None
    }
}

fn stretch_of(w: &str) -> (r: Option<&'static str>)
    ensures
        match r {
            Some(v) => stretch_word(w@) == Some(v@),
            None => stretch_word(w@) is None,
        },
{
    if str_eq(w, "ultracondensed") {
        Some("ultra-condensed")
    } else if str_eq(w, "extracondensed") {
        Some("extra-condensed")
    } else if str_eq(w, "condensed") {
        Some("condensed")
    } else if str_eq(w, "semicondensed") {
        Some("semi-condensed")
    } else if str_eq(w, "normal") {
        Some("normal")
    } else if str_eq(w, "semiexpanded") {
        Some("semi-expanded")
    } else if str_eq(w, "expanded") {
        Some("expanded")
    } else if str_eq(w, "extraexpanded") {
        Some("extra-expanded")
    } else if str_eq(w, "ultraexpanded") {
        Some("ultra-expanded")
    } else {
        None
    }
}

fn style_of(w: &str) -> (r: Option<&'static str>)
    ensures
        match r {
            Some(v) => style_word(w@) == Some(v@),
            None => style_word(w@) is None,
        },
{
    if str_eq(w, "italic") {
        Some("italic")
    } else if str_eq(w, "oblique") {
        Some("oblique")
    } else if str_eq(w, "normal") {
        Some("normal")
    } else {
        None
    }
}

fn weight_number_of(w: &str) -> (r: Option<String>)
    ensures
        match r {
            Some(v) => weight_number(w@) == Some(v@),
            None => weight_number(w@) is None,
        },
{
    proof {
        reveal_strlit("weight");
    }
    let cs = chars_of(w);
    if cs.len() <= 6 {
        return None;
    }
    if !(cs[0] == 'w' && cs[1] == 'e' && cs[2] == 'i' && cs[3] == 'g' && cs[4] == 'h' && cs[5] == 't') {
        proof {
            if w@.subrange(0, 6) == "weight"@ {
                assert(w@.subrange(0, 6)[0] == 'w' && w@.subrange(0, 6)[1] == 'e' && w@.subrange(0, 6)[2] == 'i');
                assert(w@.subrange(0, 6)[3] == 'g' && w@.subrange(0, 6)[4] == 'h' && w@.subrange(0, 6)[5] == 't');
            }
        }
        return None;
    }
    proof {
        assert(w@.subrange(0, 6) =~= "weight"@);
    }
    let mut i: usize = 6;
    while i < cs.len()
        invariant
            cs@ == w@,
            6 <= i <= cs@.len(),
            forall|j: int| 6 <= j < i ==> '0' <= #[trigger] cs@[j] <= '9',
        decreases cs@.len() - i,
    {
        if !('0' <= cs[i] && cs[i] <= '9') {
            return None;
        }
        i = i + 1;
    }
    Some(crate::strs::string_from(crate::strs::slice_range(cs.as_slice(), 6, cs.len())))
}

/// Once the words up to `t` name something unknown, so do all of them.
proof fn lemma_read_none(s: Seq<Seq<char>>, t: int)
    requires
        0 <= t <= s.len(),
        words_read(s.subrange(0, t)) is None,
    ensures
        words_read(s) is None,
    decreases s.len() - t,
{
    if t < s.len() {
        assert(s.subrange(0, t + 1).drop_last() =~= s.subrange(0, t));
        lemma_read_none(s, t + 1);
    } else {
        assert(s.subrange(0, t) =~= s);
    }
}

/// An Inkscape font specification ("DejaVu Sans Bold Italic") as CSS, given the installed
/// families: see `font_spec_css`.
pub fn inkscape_spec_to_css(fstr: &str, families: &Vec<String>) -> (r: Option<Style>)
    ensures
        match r {
            Some(s) => font_spec_css(fstr@, strings_view(families@)) == Some(s@),
            None => font_spec_css(fstr@, strings_view(families@)) is None,
        },
{
    let ghost fv = strings_view(families@);
    let cstr = clean(fstr);
    let mut full: Vec<String> = Vec::new();
    let mut i: usize = 0;
    while i < families.len()
        invariant
            i <= families@.len(),
            fv == strings_view(families@),
            strings_view(full@) == fv.subrange(0, i as int),
        decreases families@.len() - i,
    {
        let ghost o = strings_view(full@);
        full.push(families[i].as_str().to_owned());
        proof {
            assert(strings_view(full@) =~= o.push(fv[i as int]));
            assert(fv.subrange(0, i + 1) =~= fv.subrange(0, i as int).push(fv[i as int]));
        }
        i = i + 1;
    }
    let ghost fullv = all_families(fv);
    let ghost o = strings_view(full@);
    full.push("Serif".to_owned());
    full.push("Sans".to_owned());
    full.push("System-ui".to_owned());
    full.push("Monospace".to_owned());
    proof {
        assert(o =~= fv);
        assert(strings_view(full@) =~= fullv);
    }
    let ghost fmv = fullv.map_values(|f: Seq<char>| cleaned(f));
    let mut fm: Vec<String> = Vec::new();
    let mut k: usize = 0;
    while k < full.len()
        invariant
            k <= full@.len(),
            strings_view(full@) == fullv,
            fmv == fullv.map_values(|f: Seq<char>| cleaned(f)),
            strings_view(fm@) == fmv.subrange(0, k as int),
        decreases full@.len() - k,
    {
        let ghost o = strings_view(fm@);
        let c = clean(full[k].as_str());
        let ghost cv = c@;
        fm.push(c);
        proof {
            assert(fullv[k as int] == full@[k as int]@);
            assert(cv == fmv[k as int]);
            assert(strings_view(fm@) =~= o.push(cv));
            assert(strings_view(fm@) =~= fmv.subrange(0, k + 1));
        }
        k = k + 1;
    }
    proof {
        assert(strings_view(fm@) =~= fmv);
        reveal_strlit(" ");
    }
    let words = nonempty_of(split_on(cstr.as_str(), " "));
    let ghost ws = strings_view(words@);
    let n = words.len();
    let mut longest = String::new();
    let mut match_len: usize = 0;
    let mut at_start = true;
    let mut i: usize = 0;
    while i < n
        invariant
            n == words@.len(),
            ws == strings_view(words@),
            strings_view(fm@) == fmv,
            i <= n,
            (longest@, match_len as int, at_start) == prefix_scan(ws, fmv, i as int),
            match_len <= n,
            longest@.len() == 0 || fmv.contains(longest@),
        decreases n - i,
    {
        let cur = joined_range(&words, 0, i + 1);
        if contains_string(&fm, cur.as_str()) && utf8_len(cur.as_str()) > utf8_len(longest.as_str()) {
            longest = cur;
            match_len = i + 1;
            at_start = true;
        }
        i = i + 1;
    }
    let ghost acc0 = prefix_scan(ws, fmv, n as int);
    let mut i: usize = 0;
    while i < n
        invariant
            n == words@.len(),
            ws == strings_view(words@),
            strings_view(fm@) == fmv,
            i <= n,
            (longest@, match_len as int, at_start) == suffix_scan(ws, fmv, acc0, i as int),
            match_len <= n,
            longest@.len() == 0 || fmv.contains(longest@),
        decreases n - i,
    {
        let cur = joined_range(&words, n - (i + 1), n);
        if contains_string(&fm, cur.as_str()) && utf8_len(cur.as_str()) > utf8_len(longest.as_str()) {
            longest = cur;
            match_len = i + 1;
            at_start = false;
        }
        i = i + 1;
    }
    let ghost m = family_match(ws, fmv);
    assert((longest@, match_len as int, at_start) == m);
    let mut fam: Option<String> = None;
    let mut lo: usize = 0;
    let mut hi: usize = n;
    if !longest.as_str().is_empty() {
        let mut j: usize = 0;
        let mut found = false;
        while !found && j < fm.len()
            invariant
                strings_view(fm@) == fmv,
                j <= fm@.len(),
                found ==> j < fm@.len() && fmv[j as int] == longest@,
                !found ==> forall|t: int| 0 <= t < j ==> fmv[t] != longest@,
                first_from(fmv, longest@, 0) == first_from(fmv, longest@, j as int),
            decreases fm@.len() - j + (if found { 0int } else { 1int }),
        {
            if str_eq(fm[j].as_str(), longest.as_str()) {
                found = true;
            } else {
                j = j + 1;
            }
        }
        proof {
            if !found {
                let t = choose|t: int| 0 <= t < fmv.len() && fmv[t] == longest@;
                assert(fmv[t] != longest@);
            }
            assert(first_from(fmv, longest@, j as int) == j);
            assert(full@.len() == fm@.len());
        }
        fam = Some(full[j].as_str().to_owned());
        if at_start {
            lo = match_len;
        } else {
            hi = n - match_len;
        }
    }
    let ghost rest = ws.subrange(lo as int, hi as int);
    proof {
        if longest@.len() == 0 {
            assert(rest =~= ws);
        }
        assert(ws == spec_words(cleaned(fstr@)));
        assert(rest == (if m.0.len() == 0 {
            ws
        } else if m.2 {
            ws.subrange(m.1, ws.len() as int)
        } else {
            ws.subrange(0, ws.len() - m.1)
        }));
        assert(opt_view(fam) == (if m.0.len() == 0 { None } else { Some(fullv[first_from(fmv, m.0, 0)]) }));
        assert(fv == strings_view(families@));
    }
    let mut weight: Option<String> = None;
    let mut style: Option<String> = None;
    let mut stretch: Option<String> = None;
    let mut t: usize = lo;
    while t < hi
        invariant
            lo <= t <= hi <= n,
            n == words@.len(),
            ws == strings_view(words@),
            rest == ws.subrange(lo as int, hi as int),
            words_read(rest.subrange(0, t - lo)) == Some((opt_view(weight), opt_view(style), opt_view(stretch))),
            words_read(rest) is None ==> font_spec_css(fstr@, strings_view(families@)) is None,
            words_read(rest) matches Some(st) ==> font_spec_css(fstr@, strings_view(families@)) == Some(
                set_opt(set_opt(set_opt(set_opt(seq![], "font-family"@, opt_view(fam)), "font-weight"@, st.0), "font-style"@, st.1), "font-stretch"@, st.2),
            ),
        decreases hi - t,
    {
        let w = words[t].as_str();
        proof {
            assert(rest.subrange(0, t + 1 - lo).drop_last() =~= rest.subrange(0, t - lo));
            assert(rest.subrange(0, t + 1 - lo).last() == w@);
        }
        let mut understood = false;
        match weight_of(w) {
            Some(v) => {
                weight = Some(v.to_owned());
                understood = true;
            },
            None => match weight_number_of(w) {
                Some(d) => {
                    weight = Some(d);
                    understood = true;
                },
                None => {},
            },
        }
        match style_of(w) {
            Some(v) => {
                style = Some(v.to_owned());
                understood = true;
            },
            None => {},
        }
        match stretch_of(w) {
            Some(v) => {
                stretch = Some(v.to_owned());
                understood = true;
            },
            None => {},
        }
        if !understood {
            proof {
                assert(words_read(rest.subrange(0, t + 1 - lo)) is None);
                lemma_read_none(rest, t + 1 - lo);
                assert(words_read(rest) is None);
            }
            return None;
        }
        t = t + 1;
    }
    proof {
        assert(rest.subrange(0, hi - lo) =~= rest);
    }
    let mut sty = Style::new();
    match fam {
        Some(f) => sty.set("font-family", f.as_str()),
        None => {},
    }
    match weight {
        Some(v) => sty.set("font-weight", v.as_str()),
        None => {},
    }
    match style {
        Some(v) => sty.set("font-style", v.as_str()),
        None => {},
    }
    match stretch {
        Some(v) => sty.set("font-stretch", v.as_str()),
        None => {},
    }
    Some(sty)
}

/// Pango's weight words and the CSS weights they stand for.
pub open spec fn pango_weights() -> Seq<(Seq<char>, Seq<char>)> {
    seq![
        ("ultralight"@, "200"@),
        ("light"@, "300"@),
        ("semilight"@, "350"@),
        ("medium"@, "500"@),
        ("semibold"@, "600"@),
        ("bold"@, "bold"@),
        ("ultrabold"@, "800"@),
        ("heavy"@, "900"@),
        ("normal"@, "normal"@),
        ("book"@, "380"@),
        ("thin"@, "100"@),
        ("ultraheavy"@, "1000"@),
    ]
}

/// Every Pango weight word is understood: after words that name a face, it sets the weight to
/// its CSS value.
pub proof fn law_weight_words(ws: Seq<Seq<char>>, i: int)
    requires
        0 <= i < pango_weights().len(),
        words_read(ws) is Some,
    ensures
        words_read(ws.push(pango_weights()[i].0)) matches Some(st) && st.0 == Some(pango_weights()[i].1),
{
    reveal_strlit("ultralight");
    reveal_strlit("light");
    reveal_strlit("semilight");
    reveal_strlit("medium");
    reveal_strlit("semibold");
    reveal_strlit("bold");
    reveal_strlit("ultrabold");
    reveal_strlit("heavy");
    reveal_strlit("normal");
    reveal_strlit("book");
    reveal_strlit("thin");
    reveal_strlit("ultraheavy");
    let w = pango_weights()[i].0;
    assert(ws.push(w).drop_last() =~= ws);
    assert(ws.push(w).last() == w);
    if i == 0 {
        assert(w == "ultralight"@);
        assert(weight_word(w) == Some("200"@));
    } else if i == 1 {
        assert(w == "light"@);
        assert(weight_word(w) == Some("300"@));
    } else if i == 2 {
        assert(w == "semilight"@);
        assert(weight_word(w) == Some("350"@));
    } else if i == 3 {
        assert(w == "medium"@);
        assert(weight_word(w) == Some("500"@));
    } else if i == 4 {
        assert(w == "semibold"@);
        assert(weight_word(w) == Some("600"@));
    } else if i == 5 {
        assert(w == "bold"@);
        assert(weight_word(w) == Some("bold"@));
    } else if i == 6 {
        assert(w == "ultrabold"@);
        assert(w[0] != ("semilight"@)[0]);
        assert(weight_word(w) == Some("800"@));
    } else if i == 7 {
        assert(w == "heavy"@);
        assert(w[0] != ("light"@)[0]);
        assert(weight_word(w) == Some("900"@));
    } else if i == 8 {
        assert(w == "normal"@);
        assert(w[0] != ("medium"@)[0]);
        assert(weight_word(w) == Some("normal"@));
    } else if i == 9 {
        assert(w == "book"@);
        assert(w[2] != ("bold"@)[2]);
        assert(weight_word(w) == Some("380"@));
    } else if i == 10 {
        assert(w == "thin"@);
        assert(w[0] != ("bold"@)[0]);
        assert(w[0] != ("book"@)[0]);
        assert(weight_word(w) == Some("100"@));
    } else {
        assert(w == "ultraheavy"@);
        assert(w[5] != ("ultralight"@)[5]);
        assert(weight_word(w) == Some("1000"@));
    }
}

/// The family names a specification is compared against, cleaned.
pub open spec fn cleaned_families(families: Seq<Seq<char>>) -> Seq<Seq<char>> {
    all_families(families).map_values(|f: Seq<char>| cleaned(f))
}

/// The family run found in a specification: text, number of words, at the start.
pub open spec fn spec_family_match(fstr: Seq<char>, families: Seq<Seq<char>>) -> (Seq<char>, int, bool) {
    family_match(spec_words(cleaned(fstr)), cleaned_families(families))
}

/// A specification whose family is found at its start and whose one word after it is a Pango
/// weight word reads as that family with the word's CSS weight, and nothing else (`normal`,
/// which is also a style and a stretch word, sets those to `normal` too).
pub proof fn law_family_then_weight(fstr: Seq<char>, families: Seq<Seq<char>>, i: int)
    requires
        0 <= i < pango_weights().len(),
        spec_family_match(fstr, families).0.len() > 0,
        spec_family_match(fstr, families).2,
        spec_words(cleaned(fstr)).subrange(spec_family_match(fstr, families).1, spec_words(cleaned(fstr)).len() as int)
            == seq![pango_weights()[i].0],
    ensures
        ({
            let fam = all_families(families)[first_from(cleaned_families(families), spec_family_match(fstr, families).0, 0)];
            let s = style_set(style_set(seq![], "font-family"@, fam), "font-weight"@, pango_weights()[i].1);
            &&& pango_weights()[i].0 != "normal"@ ==> font_spec_css(fstr, families) == Some(s)
            &&& pango_weights()[i].0 == "normal"@ ==> font_spec_css(fstr, families)
                == Some(style_set(style_set(s, "font-style"@, "normal"@), "font-stretch"@, "normal"@))
        }),
{
    let w = pango_weights()[i].0;
    law_weight_words(seq![], i);
    assert(Seq::<Seq<char>>::empty().push(w) =~= seq![w]);
    lemma_read_single(i);
}

/// A lone weight word other than `normal` names no style or stretch; `normal` names the normal
/// style and stretch as well.
proof fn lemma_read_single(i: int)
    requires
        0 <= i < pango_weights().len(),
    ensures
        words_read(seq![pango_weights()[i].0]) matches Some(st) && (if pango_weights()[i].0 == "normal"@ {
            st.1 == Some("normal"@) && st.2 == Some("normal"@)
        } else {
            st.1 is None && st.2 is None
        }),
{
    reveal_strlit("ultralight");
    reveal_strlit("light");
    reveal_strlit("semilight");
    reveal_strlit("medium");
    reveal_strlit("semibold");
    reveal_strlit("bold");
    reveal_strlit("ultrabold");
    reveal_strlit("heavy");
    reveal_strlit("normal");
    reveal_strlit("book");
    reveal_strlit("thin");
    reveal_strlit("ultraheavy");
    reveal_strlit("italic");
    reveal_strlit("oblique");
    reveal_strlit("ultracondensed");
    reveal_strlit("extracondensed");
    reveal_strlit("condensed");
    reveal_strlit("semicondensed");
    reveal_strlit("semiexpanded");
    reveal_strlit("expanded");
    reveal_strlit("extraexpanded");
    reveal_strlit("ultraexpanded");
    let w = pango_weights()[i].0;
    assert(seq![w].drop_last() =~= Seq::<Seq<char>>::empty());
    assert(seq![w].last() == w);
    law_weight_words(seq![], i);
    assert(Seq::<Seq<char>>::empty().push(w) =~= seq![w]);
    if i == 8 {
        assert(w == "normal"@);
        assert(style_word(w) == Some("normal"@));
    } else {
        if i == 0 {
            assert(w == "ultralight"@);
        } else if i == 1 {
            assert(w == "light"@);
        } else if i == 2 {
            assert(w == "semilight"@);
            assert(w[0] != ("condensed"@)[0]);
        } else if i == 3 {
            assert(w == "medium"@);
            assert(w[0] != ("italic"@)[0]);
        } else if i == 4 {
            assert(w == "semibold"@);
            assert(w[0] != ("expanded"@)[0]);
        } else if i == 5 {
            assert(w == "bold"@);
        } else if i == 6 {
            assert(w == "ultrabold"@);
            assert(w[0] != ("condensed"@)[0]);
        } else if i == 7 {
            assert(w == "heavy"@);
        } else if i == 9 {
            assert(w == "book"@);
        } else if i == 10 {
            assert(w == "thin"@);
        } else {
            assert(w == "ultraheavy"@);
        }
        assert(w != "normal"@);
        assert(style_word(w) is None);
        assert(stretch_word(w) is None);
    }
}

/// Pango's stretch words and the CSS stretches they stand for.
pub open spec fn stretch_table() -> Seq<(Seq<char>, Seq<char>)> {
    seq![
        ("ultracondensed"@, "ultra-condensed"@),
        ("extracondensed"@, "extra-condensed"@),
        ("condensed"@, "condensed"@),
        ("semicondensed"@, "semi-condensed"@),
        ("normal"@, "normal"@),
        ("semiexpanded"@, "semi-expanded"@),
        ("expanded"@, "expanded"@),
        ("extraexpanded"@, "extra-expanded"@),
        ("ultraexpanded"@, "ultra-expanded"@),
    ]
}

/// Every Pango stretch word is understood: after words that name a face, it sets the stretch to
/// its CSS value.
pub proof fn law_stretch_words(ws: Seq<Seq<char>>, i: int)
    requires
        0 <= i < stretch_table().len(),
        words_read(ws) is Some,
    ensures
        words_read(ws.push(stretch_table()[i].0)) matches Some(st) && st.2 == Some(stretch_table()[i].1),
{
    reveal_strlit("ultracondensed");
    reveal_strlit("extracondensed");
    reveal_strlit("condensed");
    reveal_strlit("semicondensed");
    reveal_strlit("normal");
    reveal_strlit("semiexpanded");
    reveal_strlit("expanded");
    reveal_strlit("extraexpanded");
    reveal_strlit("ultraexpanded");
    let w = stretch_table()[i].0;
    assert(ws.push(w).drop_last() =~= ws);
    assert(ws.push(w).last() == w);
    if i == 0 {
        assert(w == "ultracondensed"@);
        assert(stretch_word(w) == Some("ultra-condensed"@));
    } else if i == 1 {
        assert(w == "extracondensed"@);
        assert(w[0] != ("ultracondensed"@)[0]);
        assert(stretch_word(w) == Some("extra-condensed"@));
    } else if i == 2 {
        assert(w == "condensed"@);
        assert(stretch_word(w) == Some("condensed"@));
    } else if i == 3 {
        assert(w == "semicondensed"@);
        assert(stretch_word(w) == Some("semi-condensed"@));
    } else if i == 4 {
        assert(w == "normal"@);
        assert(stretch_word(w) == Some("normal"@));
    } else if i == 5 {
        assert(w == "semiexpanded"@);
        assert(stretch_word(w) == Some("semi-expanded"@));
    } else if i == 6 {
        assert(w == "expanded"@);
        assert(stretch_word(w) == Some("expanded"@));
    } else if i == 7 {
        assert(w == "extraexpanded"@);
        assert(w[0] != ("semicondensed"@)[0]);
        assert(stretch_word(w) == Some("extra-expanded"@));
    } else if i == 8 {
        assert(w == "ultraexpanded"@);
        assert(w[0] != ("semicondensed"@)[0]);
        assert(w[0] != ("extraexpanded"@)[0]);
        assert(stretch_word(w) == Some("ultra-expanded"@));
    }
}

/// Pango's style words and the CSS styles they stand for.
pub open spec fn style_table() -> Seq<(Seq<char>, Seq<char>)> {
    seq![
        ("italic"@, "italic"@),
        ("oblique"@, "oblique"@),
        ("normal"@, "normal"@),
    ]
}

/// Every Pango style word is understood: after words that name a face, it sets the style to
/// its CSS value.
pub proof fn law_style_words(ws: Seq<Seq<char>>, i: int)
    requires
        0 <= i < style_table().len(),
        words_read(ws) is Some,
    ensures
        words_read(ws.push(style_table()[i].0)) matches Some(st) && st.1 == Some(style_table()[i].1),
{
    reveal_strlit("italic");
    reveal_strlit("oblique");
    reveal_strlit("normal");
    let w = style_table()[i].0;
    assert(ws.push(w).drop_last() =~= ws);
    assert(ws.push(w).last() == w);
    if i == 0 {
        assert(w == "italic"@);
        assert(style_word(w) == Some("italic"@));
    } else if i == 1 {
        assert(w == "oblique"@);
        assert(style_word(w) == Some("oblique"@));
    } else if i == 2 {
        assert(w == "normal"@);
        assert(w[0] != ("italic"@)[0]);
        assert(style_word(w) == Some("normal"@));
    }
}

} // verus!
