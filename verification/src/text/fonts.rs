//! The four properties that select a font, read from a style, and the key they are cached by.
use vstd::prelude::*;
use crate::cleanup::{split_on, split_pat};
use crate::strs::{chars_of, decimal, push_decimal, slice_range, str_eq, string_from};
use crate::style::{ascii_lower, strings_view, style_get, to_ascii_lowercase, Style};
use crate::xml::{trim, trimmed};

verus! {

/// A face of the font system, by its index there.
#[derive(Debug, Clone, Copy, PartialEq, Eq, Structural)]
pub struct FaceKey(pub u32);

#[derive(Debug, Clone, Copy, PartialEq, Eq, Structural)]
pub enum FontStyle {
    Normal,
    Italic,
    Oblique,
}

/// Families (in preference order), CSS weight, style and stretch (1 to 9, 5 = normal).
#[derive(Debug, Clone)]
pub struct FontSpec {
    pub families: Vec<String>,
    pub weight: u16,
    pub style: FontStyle,
    pub width: u16,
}

pub struct FontSpecV {
    pub families: Seq<Seq<char>>,
    pub weight: u16,
    pub style: FontStyle,
    pub width: u16,
}

impl View for FontSpec {
    type V = FontSpecV;

    open spec fn view(&self) -> FontSpecV {
        FontSpecV {
            families: strings_view(self.families@),
            weight: self.weight,
            style: self.style,
            width: self.width,
        }
    }
}

pub open spec fn is_quote(c: char) -> bool {
    c == '\'' || c == '"'
}

/// First index from `i` on that is not a quote.
pub open spec fn quotes_end(s: Seq<char>, i: int) -> int
    decreases s.len() - i,
{
    if i < 0 || i >= s.len() || !is_quote(s[i]) {
        i
    } else {
        quotes_end(s, i + 1)
    }
}

/// One past the last index before `j` that is not a quote.
pub open spec fn quotes_start(s: Seq<char>, j: int) -> int
    decreases j,
{
    if j <= 0 || j > s.len() || !is_quote(s[j - 1]) {
        j
    } else {
        quotes_start(s, j - 1)
    }
}

/// `s` without the quotes it starts and ends with (`trim_matches` on `'` and `"`).
pub open spec fn unquoted_all(s: Seq<char>) -> Seq<char> {
    let a = quotes_end(s, 0);
    let b = quotes_start(s, s.len() as int);
    if a >= b {
        seq![]
    } else {
        s.subrange(a, b)
    }
}

/// A family as written in `font-family`: trimmed, unquoted, trimmed again.
pub open spec fn family_name(f: Seq<char>) -> Seq<char> {
    trimmed(unquoted_all(trimmed(f)))
}

/// The non-empty family names of `parts`, in order.
pub open spec fn family_names(parts: Seq<Seq<char>>) -> Seq<Seq<char>>
    decreases parts.len(),
{
    if parts.len() == 0 {
        seq![]
    } else {
        let n = family_name(parts.last());
        if n.len() == 0 {
            family_names(parts.drop_last())
        } else {
            family_names(parts.drop_last()).push(n)
        }
    }
}

/// The families a style asks for; `sans-serif` when it names none.
pub open spec fn families_of(st: Seq<(Seq<char>, Seq<char>)>) -> Seq<Seq<char>> {
    let fam = match style_get(st, "font-family"@) {
        Some(v) => v,
        None => "sans-serif"@,
    };
    let fs = family_names(split_pat(fam, ","@));
    if fs.len() == 0 {
        seq!["sans-serif"@]
    } else {
        fs
    }
}

/// The value of a run of ASCII digits.
pub open spec fn digits_value(d: Seq<char>) -> nat
    decreases d.len(),
{
    if d.len() == 0 {
        0
    } else {
        digits_value(d.drop_last()) * 10 + ((d.last() as u32) - ('0' as u32)) as nat
    }
}

pub open spec fn all_digits(d: Seq<char>) -> bool {
    forall|i: int| 0 <= i < d.len() ==> '0' <= #[trigger] d[i] && d[i] <= '9'
}

/// What `u16::from_str` gives: an optional `+`, then one digit or more, of value below 65536.
pub open spec fn u16_value(w: Seq<char>) -> Option<u16> {
    let d = if w.len() > 0 && w[0] == '+' {
        w.drop_first()
    } else {
        w
    };
    if d.len() > 0 && all_digits(d) && digits_value(d) <= 65535 {
        Some(digits_value(d) as u16)
    } else {
        None
    }
}

/// The trimmed value of `k`, or `normal`.
pub open spec fn prop_or_normal(st: Seq<(Seq<char>, Seq<char>)>, k: Seq<char>) -> Seq<char> {
    match style_get(st, k) {
        Some(v) => trimmed(v),
        None => "normal"@,
    }
}

/// `bold` is 700; a number from 100 to 1000 in steps of 50 is itself; anything else is 400.
pub open spec fn weight_of(st: Seq<(Seq<char>, Seq<char>)>) -> u16 {
    let w = prop_or_normal(st, "font-weight"@);
    if w == "bold"@ {
        700
    } else {
        match u16_value(w) {
            Some(v) => if 100 <= v <= 1000 && v % 50 == 0 {
                v
            } else {
                400
            },
            None => 400,
        }
    }
}

pub open spec fn style_of(st: Seq<(Seq<char>, Seq<char>)>) -> FontStyle {
    let s = prop_or_normal(st, "font-style"@);
    if s == "italic"@ {
        FontStyle::Italic
    } else if s == "oblique"@ {
        FontStyle::Oblique
    } else {
        FontStyle::Normal
    }
}

/// `font-stretch` keywords from `ultra-condensed` (1) to `ultra-expanded` (9); 5 otherwise.
pub open spec fn width_of(st: Seq<(Seq<char>, Seq<char>)>) -> u16 {
    let s = prop_or_normal(st, "font-stretch"@);
    if s == "ultra-condensed"@ {
        1
    } else if s == "extra-condensed"@ {
        2
    } else if s == "condensed"@ {
        3
    } else if s == "semi-condensed"@ {
        4
    } else if s == "semi-expanded"@ {
        6
    } else if s == "expanded"@ {
        7
    } else if s == "extra-expanded"@ {
        8
    } else if s == "ultra-expanded"@ {
        9
    } else {
        5
    }
}

pub open spec fn style_name(s: FontStyle) -> Seq<char> {
    match s {
        FontStyle::Normal => "normal"@,
        FontStyle::Italic => "italic"@,
        FontStyle::Oblique => "oblique"@,
    }
}

/// The families, each in single quotes, joined by commas.
pub open spec fn quoted_families(fs: Seq<Seq<char>>) -> Seq<char>
    decreases fs.len(),
{
    if fs.len() == 0 {
        seq![]
    } else if fs.len() == 1 {
        "'"@ + fs[0] + "'"@
    } else {
        quoted_families(fs.drop_last()) + ","@ + "'"@ + fs.last() + "'"@
    }
}

/// `families|weight|style|width`.
pub open spec fn spec_key(f: FontSpecV) -> Seq<char> {
    quoted_families(f.families) + "|"@ + decimal(f.weight as nat) + "|"@ + style_name(f.style)
        + "|"@ + decimal(f.width as nat)
}

fn is_quote_exec(c: char) -> (r: bool)
    ensures
        r == is_quote(c),
{
    c == '\'' || c == '"'
}

fn unquote_all(s: &str) -> (r: String)
    ensures
        r@ == unquoted_all(s@),
{
    let cs = chars_of(s);
    let mut a: usize = 0;
    while a < cs.len() && is_quote_exec(cs[a])
        invariant
            a <= cs@.len(),
            quotes_end(cs@, a as int) == quotes_end(cs@, 0),
        decreases cs@.len() - a,
    {
        a = a + 1;
    }
    let mut b = cs.len();
    while b > 0 && is_quote_exec(cs[b - 1])
        invariant
            b <= cs@.len(),
            quotes_start(cs@, b as int) == quotes_start(cs@, cs@.len() as int),
        decreases b,
    {
        b = b - 1;
    }
    if a >= b {
        String::new()
    } else {
        string_from(slice_range(cs.as_slice(), a, b))
    }
}

/// The value of a string of digits (with an optional `+`) that fits `u16`.
fn parse_u16(w: &str) -> (r: Option<u16>)
    ensures
        r == u16_value(w@),
{
    let cs = chars_of(w);
    let start: usize = if cs.len() > 0 && cs[0] == '+' {
        1
    } else {
        0
    };
    let ghost d = if w@.len() > 0 && w@[0] == '+' {
        w@.drop_first()
    } else {
        w@
    };
    proof {
        assert(d =~= cs@.subrange(start as int, cs@.len() as int));
    }
    if start >= cs.len() {
        return None;
    }
    let mut v: u32 = 0;
    let mut i = start;
    proof {
        assert(cs@.subrange(start as int, start as int) =~= Seq::<char>::empty());
    }
    while i < cs.len()
        invariant
            start <= i <= cs@.len(),
            cs@ == w@,
            d == (if w@.len() > 0 && w@[0] == '+' {
                w@.drop_first()
            } else {
                w@
            }),
            d =~= cs@.subrange(start as int, cs@.len() as int),
            all_digits(cs@.subrange(start as int, i as int)),
            v == digits_value(cs@.subrange(start as int, i as int)),
            v <= 65535,
        decreases cs@.len() - i,
    {
        let c = cs[i];
        if !('0' <= c && c <= '9') {
            proof {
                assert(d[i - start] == c);
                assert(!('0' <= d[i - start] && d[i - start] <= '9'));
                assert(!all_digits(d));
            }
            return None;
        }
        let ghost pre = cs@.subrange(start as int, i as int);
        let nv = v * 10 + ((c as u32) - ('0' as u32));
        proof {
            assert(cs@.subrange(start as int, i + 1).drop_last() =~= pre);
            assert(cs@.subrange(start as int, i + 1).last() == c);
        }
        if nv > 65535 {
            proof {
                assert(d.subrange(0, i + 1 - start) =~= cs@.subrange(start as int, i + 1));
                if all_digits(d) {
                    lemma_digits_value_grows(d, i + 1 - start);
                }
            }
            return None;
        }
        v = nv;
        i = i + 1;
    }
    proof {
        assert(cs@.subrange(start as int, cs@.len() as int) =~= d);
    }
    Some(v as u16)
}

/// A run of digits is worth at least any prefix of it.
proof fn lemma_digits_value_grows(d: Seq<char>, k: int)
    requires
        0 <= k <= d.len(),
        all_digits(d),
    ensures
        digits_value(d) >= digits_value(d.subrange(0, k)),
    decreases d.len() - k,
{
    if k < d.len() {
        lemma_digits_value_grows(d, k + 1);
        assert(d.subrange(0, k + 1).drop_last() =~= d.subrange(0, k));
        assert('0' <= d[k] && d[k] <= '9');
    } else {
        assert(d.subrange(0, k) =~= d);
    }
}

fn trimmed_or_normal(st: &Style, k: &str) -> (r: String)
    ensures
        r@ == prop_or_normal(st@, k@),
{
    match st.get(k) {
        Some(v) => trim(v),
        None => String::from_str("normal"),
    }
}

impl FontSpec {
    /// The four properties that select a font.
    pub fn from_style(st: &Style) -> (r: FontSpec)
        ensures
            r@.families == families_of(st@),
            r.weight == weight_of(st@),
            r.style == style_of(st@),
            r.width == width_of(st@),
    {
        let fam: &str = match st.get("font-family") {
            Some(v) => v,
            None => "sans-serif",
        };
        proof {
            reveal_strlit(",");
        }
        let parts = split_on(fam, ",");
        let mut families: Vec<String> = Vec::new();
        let mut i: usize = 0;
        while i < parts.len()
            invariant
                i <= parts@.len(),
                strings_view(families@) == family_names(strings_view(parts@).subrange(0, i as int)),
            decreases parts@.len() - i,
        {
            let t = trim(parts[i].as_str());
            let u = unquote_all(t.as_str());
            let f = trim(u.as_str());
            proof {
                let ps = strings_view(parts@);
                assert(ps.subrange(0, i + 1).drop_last() =~= ps.subrange(0, i as int));
                assert(ps.subrange(0, i + 1).last() == parts@[i as int]@);
            }
            if !f.as_str().is_empty() {
                let ghost o = strings_view(families@);
                families.push(f);
                proof {
                    assert(strings_view(families@) =~= o.push(families@.last()@));
                }
            }
            i = i + 1;
        }
        proof {
            assert(strings_view(parts@).subrange(0, parts@.len() as int) =~= strings_view(parts@));
        }
        if families.len() == 0 {
            families.push(String::from_str("sans-serif"));
            proof {
                assert(strings_view(families@) =~= seq!["sans-serif"@]);
            }
        }
        let w = trimmed_or_normal(st, "font-weight");
        let weight: u16 = if str_eq(w.as_str(), "bold") {
            700
        } else {
            match parse_u16(w.as_str()) {
                Some(v) => if 100 <= v && v <= 1000 && v % 50 == 0 {
                    v
                } else {
                    400
                },
                None => 400,
            }
        };
        let s = trimmed_or_normal(st, "font-style");
        let style = if str_eq(s.as_str(), "italic") {
            FontStyle::Italic
        } else if str_eq(s.as_str(), "oblique") {
            FontStyle::Oblique
        } else {
            FontStyle::Normal
        };
        let x = trimmed_or_normal(st, "font-stretch");
        let x = x.as_str();
        let width: u16 = if str_eq(x, "ultra-condensed") {
            1
        } else if str_eq(x, "extra-condensed") {
            2
        } else if str_eq(x, "condensed") {
            3
        } else if str_eq(x, "semi-condensed") {
            4
        } else if str_eq(x, "semi-expanded") {
            6
        } else if str_eq(x, "expanded") {
            7
        } else if str_eq(x, "extra-expanded") {
            8
        } else if str_eq(x, "ultra-expanded") {
            9
        } else {
            5
        };
        FontSpec { families, weight, style, width }
    }

    /// `'family','family'|weight|style|width`.
    pub fn key(&self) -> (r: String)
        ensures
            r@ == spec_key(self@),
    {
        let mut out = String::new();
        let mut i: usize = 0;
        while i < self.families.len()
            invariant
                i <= self.families@.len(),
                out@ == quoted_families(strings_view(self.families@).subrange(0, i as int)),
            decreases self.families@.len() - i,
        {
            let ghost fs = strings_view(self.families@).subrange(0, i + 1);
            proof {
                assert(fs.drop_last() =~= strings_view(self.families@).subrange(0, i as int));
                assert(fs.last() == self.families@[i as int]@);
            }
            if i > 0 {
                out.append(",");
            }
            out.append("'");
            out.append(self.families[i].as_str());
            out.append("'");
            proof {
                if i == 0 {
                    assert(out@ =~= "'"@ + fs[0] + "'"@);
                } else {
                    assert(out@ =~= quoted_families(fs.drop_last()) + ","@ + "'"@ + fs.last() + "'"@);
                }
            }
            i = i + 1;
        }
        proof {
            assert(strings_view(self.families@).subrange(0, self.families@.len() as int) =~= strings_view(self.families@));
        }
        out.append("|");
        push_decimal(self.weight as u128, &mut out);
        out.append("|");
        let sn = match self.style {
            FontStyle::Normal => "normal",
            FontStyle::Italic => "italic",
            FontStyle::Oblique => "oblique",
        };
        out.append(sn);
        out.append("|");
        push_decimal(self.width as u128, &mut out);
        out
    }
}

// ---------------------------------------------------------------------------------------------
// Generic families

/// Faces tried, in order, for `sans-serif` and its aliases.
pub const GENERIC_SANS: [&'static str; 12] = [
    "DejaVu Sans",
    "Bitstream Vera Sans",
    "Verdana",
    "Arial",
    "Albany AMT",
    "Luxi Sans",
    "Nimbus Sans L",
    "Nimbus Sans",
    "Helvetica",
    "Lucida Sans Unicode",
    "Tahoma",
    "Noto Sans",
];

/// Faces tried, in order, for `serif`.
pub const GENERIC_SERIF: [&'static str; 9] = [
    "DejaVu Serif",
    "Bitstream Vera Serif",
    "Times New Roman",
    "Thorndale AMT",
    "Luxi Serif",
    "Nimbus Roman No9 L",
    "Nimbus Roman",
    "Times",
    "Noto Serif",
];

/// Faces tried, in order, for `monospace`.
pub const GENERIC_MONO: [&'static str; 11] = [
    "DejaVu Sans Mono",
    "Bitstream Vera Sans Mono",
    "Inconsolata",
    "Andale Mono",
    "Courier New",
    "Cumberland AMT",
    "Luxi Mono",
    "Nimbus Mono L",
    "Nimbus Mono PS",
    "Courier",
    "Noto Sans Mono",
];

/// The faces a generic family name stands for (case-insensitive in ASCII); `None` for a name
/// that is no generic family.
pub open spec fn generic_list_spec(family: Seq<char>) -> Option<Seq<&'static str>> {
    let l = ascii_lower(family);
    if l == "sans-serif"@ || l == "sans"@ || l == "system-ui"@ || l == "ui-sans-serif"@ {
        Some(GENERIC_SANS@)
    } else if l == "serif"@ || l == "ui-serif"@ {
        Some(GENERIC_SERIF@)
    } else if l == "monospace"@ || l == "mono"@ || l == "ui-monospace"@ {
        Some(GENERIC_MONO@)
    } else if l == "cursive"@ || l == "fantasy"@ {
        Some(GENERIC_SANS@)
    } else {
        None
    }
}

pub fn generic_list(family: &str) -> (r: Option<&'static [&'static str]>)
    ensures
        match r {
            Some(l) => generic_list_spec(family@) == Some(l@),
            None => generic_list_spec(family@) is None,
        },
{
    let l = to_ascii_lowercase(family);
    let l = l.as_str();
    if str_eq(l, "sans-serif") || str_eq(l, "sans") || str_eq(l, "system-ui") || str_eq(l, "ui-sans-serif") {
        Some(GENERIC_SANS.as_slice())
    } else if str_eq(l, "serif") || str_eq(l, "ui-serif") {
        Some(GENERIC_SERIF.as_slice())
    } else if str_eq(l, "monospace") || str_eq(l, "mono") || str_eq(l, "ui-monospace") {
        Some(GENERIC_MONO.as_slice())
    } else if str_eq(l, "cursive") || str_eq(l, "fantasy") {
        Some(GENERIC_SANS.as_slice())
    } else {
        None
    }
}

/// Whether `f` names a generic family (case-insensitive in ASCII).
pub open spec fn is_generic_spec(f: Seq<char>) -> bool {
    let l = ascii_lower(f);
    l == "sans-serif"@ || l == "sans"@ || l == "serif"@ || l == "monospace"@ || l == "mono"@
        || l == "cursive"@ || l == "fantasy"@ || l == "system-ui"@
}

pub fn is_generic(f: &str) -> (r: bool)
    ensures
        r == is_generic_spec(f@),
{
    let l = to_ascii_lowercase(f);
    let l = l.as_str();
    str_eq(l, "sans-serif") || str_eq(l, "sans") || str_eq(l, "serif") || str_eq(l, "monospace")
        || str_eq(l, "mono") || str_eq(l, "cursive") || str_eq(l, "fantasy") || str_eq(l, "system-ui")
}

} // verus!

