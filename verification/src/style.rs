//! Style declarations, stylesheets and the "specified style" cascade.
//!
//! `specified_style(n)` is the parent's specified style overridden by `cascaded_style(n)`, where
//! cascaded = presentation attributes < matching `<style>` rules (ordered by `!important`,
//! specificity, source order) < inline `style=""`. Every property propagates down. Missing values
//! come from `default_value`.
use vstd::prelude::*;
use crate::strs::{str_eq, chars_of, string_from, slice_range, push_char};
use crate::xml::{is_ws, is_whitespace, trimmed, trim, rskip_ws, lemma_rskip_ws, find_char};

verus! {

/// A run of declarations: `(name, value)` pairs in order.
pub type Decls = Seq<(Seq<char>, Seq<char>)>;

/// Ordered `(name, value)` declarations, serialized as `k:v;k:v` (Inkscape's own format).
pub struct Style(pub Vec<(String, String)>);

pub open spec fn pairs_view(v: Seq<(String, String)>) -> Decls {
    v.map_values(|p: (String, String)| (p.0@, p.1@))
}

impl View for Style {
    type V = Decls;

    open spec fn view(&self) -> Decls {
        pairs_view(self.0@)
    }
}

/// Index of the first declaration named `k`, or -1.
pub open spec fn decl_pos(s: Decls, k: Seq<char>) -> int
    decreases s.len(),
{
    if s.len() == 0 {
        -1
    } else if s[0].0 == k {
        0
    } else {
        let r = decl_pos(s.drop_first(), k);
        if r < 0 {
            -1
        } else {
            r + 1
        }
    }
}

pub proof fn lemma_decl_pos(s: Decls, k: Seq<char>)
    ensures
        -1 <= decl_pos(s, k) < s.len(),
        decl_pos(s, k) >= 0 ==> s[decl_pos(s, k)].0 == k,
        forall|j: int| 0 <= j < s.len() && (decl_pos(s, k) < 0 || j < decl_pos(s, k)) ==> #[trigger] s[j].0 != k,
    decreases s.len(),
{
    if s.len() > 0 && s[0].0 != k {
        lemma_decl_pos(s.drop_first(), k);
        assert forall|j: int| 0 <= j < s.len() && (decl_pos(s, k) < 0 || j < decl_pos(s, k)) implies #[trigger] s[j].0 != k by {
            if j > 0 {
                assert(s[j] == s.drop_first()[j - 1]);
            }
        }
    }
}

/// The value of the first declaration named `k`.
pub open spec fn style_get(s: Decls, k: Seq<char>) -> Option<Seq<char>> {
    let i = decl_pos(s, k);
    if i >= 0 {
        Some(s[i].1)
    } else {
        None
    }
}

/// `k` set to `v`: replaced in place (keeping its position) or appended.
pub open spec fn style_set(s: Decls, k: Seq<char>, v: Seq<char>) -> Decls {
    let i = decl_pos(s, k);
    if i >= 0 {
        s.update(i, (k, v))
    } else {
        s.push((k, v))
    }
}

/// Without the first declaration named `k`.
pub open spec fn style_remove(s: Decls, k: Seq<char>) -> Decls {
    let i = decl_pos(s, k);
    if i >= 0 {
        s.remove(i)
    } else {
        s
    }
}

/// `o`'s declarations set over `s`, in order.
pub open spec fn style_merge(s: Decls, o: Decls) -> Decls
    decreases o.len(),
{
    if o.len() == 0 {
        s
    } else {
        style_set(style_merge(s, o.drop_last()), o.last().0, o.last().1)
    }
}

/// `k:v` pairs joined by `;`.
pub open spec fn css_of(s: Decls) -> Seq<char>
    decreases s.len(),
{
    if s.len() == 0 {
        seq![]
    } else if s.len() == 1 {
        s[0].0 + ":"@ + s[0].1
    } else {
        css_of(s.drop_last()) + ";"@ + s.last().0 + ":"@ + s.last().1
    }
}

/// No two declarations share a name.
pub open spec fn names_distinct(s: Decls) -> bool {
    forall|i: int, j: int| 0 <= i < j < s.len() ==> s[i].0 != s[j].0
}

/// The value the last declaration named `k` gives.
pub open spec fn last_value(o: Decls, k: Seq<char>) -> Option<Seq<char>>
    decreases o.len(),
{
    if o.len() == 0 {
        None
    } else if o.last().0 == k {
        Some(o.last().1)
    } else {
        last_value(o.drop_last(), k)
    }
}

impl Style {
    pub fn new() -> (r: Style)
        ensures
            r@ == Seq::<(Seq<char>, Seq<char>)>::empty(),
    {
        let r = Style(Vec::new());
        assert(r@ =~= Seq::<(Seq<char>, Seq<char>)>::empty());
        r
    }

    fn find(&self, k: &str) -> (r: Option<usize>)
        ensures
            r matches Some(i) ==> i < self.0@.len() && i as int == decl_pos(self@, k@),
            r is None ==> decl_pos(self@, k@) == -1,
    {
        let ghost sv = self@;
        let mut i: usize = 0;
        while i < self.0.len()
            invariant
                i <= self.0@.len(),
                sv == self@,
                forall|j: int| 0 <= j < i ==> sv[j].0 != k@,
            decreases self.0@.len() - i,
        {
            proof {
                assert(sv[i as int] == (self.0@[i as int].0@, self.0@[i as int].1@));
            }
            if str_eq(self.0[i].0.as_str(), k) {
                proof {
                    lemma_decl_pos(sv, k@);
                    let p = decl_pos(sv, k@);
                    if p >= 0 && p < i {
                        assert(sv[p].0 != k@);
                    }
                    if p < 0 || p > i {
                        assert(sv[i as int].0 != k@);
                    }
                }
                return Some(i);
            }
            i = i + 1;
        }
        proof {
            lemma_decl_pos(sv, k@);
            let p = decl_pos(sv, k@);
            if p >= 0 {
                assert(sv[p].0 != k@);
            }
        }
        None
    }

    /// A copy of the declarations.
    pub fn cloned(&self) -> (r: Style)
        ensures
            r@ == self@,
    {
        let mut v: Vec<(String, String)> = Vec::new();
        let mut i: usize = 0;
        while i < self.0.len()
            invariant
                i <= self.0@.len(),
                v@.len() == i,
                pairs_view(v@) == pairs_view(self.0@).subrange(0, i as int),
            decreases self.0@.len() - i,
        {
            let k = self.0[i].0.clone();
            let x = self.0[i].1.clone();
            v.push((k, x));
            proof {
                assert(pairs_view(self.0@)[i as int] == (self.0@[i as int].0@, self.0@[i as int].1@));
                assert(pairs_view(v@)[i as int] == (v@[i as int].0@, v@[i as int].1@));
                assert(pairs_view(v@) =~= pairs_view(self.0@).subrange(0, i + 1));
            }
            i = i + 1;
        }
        proof {
            assert(pairs_view(self.0@).subrange(0, self.0@.len() as int) =~= pairs_view(self.0@));
        }
        Style(v)
    }

    /// Value of the first declaration named `k`.
    pub fn get(&self, k: &str) -> (r: Option<&str>)
        ensures
            r matches Some(v) ==> style_get(self@, k@) == Some(v@),
            r is None ==> style_get(self@, k@) is None,
    {
        match self.find(k) {
            Some(i) => {
                proof {
                    assert(self@[i as int] == (self.0@[i as int].0@, self.0@[i as int].1@));
                }
                Some(self.0[i].1.as_str())
            },
            None => None,
        }
    }

    /// Replaces in place (keeping position) or appends.
    pub fn set(&mut self, k: &str, v: &str)
        ensures
            final(self)@ == style_set(old(self)@, k@, v@),
    {
        let ghost s0 = self@;
        match self.find(k) {
            Some(i) => {
                self.0.set(i, (k.to_owned(), v.to_owned()));
                proof {
                    assert(self@ =~= s0.update(i as int, (k@, v@)));
                }
            },
            None => {
                self.0.push((k.to_owned(), v.to_owned()));
                proof {
                    assert(self@ =~= s0.push((k@, v@)));
                }
            },
        }
    }

    /// Removes the first declaration named `k` and returns its value.
    pub fn remove(&mut self, k: &str) -> (r: Option<String>)
        ensures
            final(self)@ == style_remove(old(self)@, k@),
            r matches Some(v) ==> style_get(old(self)@, k@) == Some(v@),
            r is None ==> style_get(old(self)@, k@) is None,
    {
        let ghost s0 = self@;
        match self.find(k) {
            Some(i) => {
                proof {
                    assert(s0[i as int] == (self.0@[i as int].0@, self.0@[i as int].1@));
                }
                let (_, v) = self.0.remove(i);
                proof {
                    assert(self@ =~= s0.remove(i as int));
                }
                Some(v)
            },
            None => None,
        }
    }

    /// `other`'s declarations override ours.
    pub fn merge_over(&mut self, other: &Style)
        ensures
            final(self)@ == style_merge(old(self)@, other@),
    {
        let ghost s0 = self@;
        let mut i: usize = 0;
        while i < other.0.len()
            invariant
                i <= other.0@.len(),
                self@ == style_merge(s0, other@.subrange(0, i as int)),
            decreases other.0@.len() - i,
        {
            proof {
                assert(other@.subrange(0, i + 1).drop_last() =~= other@.subrange(0, i as int));
                assert(other@[i as int] == (other.0@[i as int].0@, other.0@[i as int].1@));
            }
            self.set(other.0[i].0.as_str(), other.0[i].1.as_str());
            i = i + 1;
        }
        proof {
            assert(other@.subrange(0, other.0@.len() as int) =~= other@);
        }
    }

    /// `k:v;k:v`.
    pub fn to_css(&self) -> (r: String)
        ensures
            r@ == css_of(self@),
    {
        let mut out = String::new();
        let mut i: usize = 0;
        while i < self.0.len()
            invariant
                i <= self.0@.len(),
                out@ == css_of(self@.subrange(0, i as int)),
            decreases self.0@.len() - i,
        {
            proof {
                assert(self@.subrange(0, i + 1).drop_last() =~= self@.subrange(0, i as int));
                assert(self@[i as int] == (self.0@[i as int].0@, self.0@[i as int].1@));
                if i == 0 {
                    assert(out@ =~= Seq::<char>::empty());
                }
            }
            if i > 0 {
                out.append(";");
            }
            out.append(self.0[i].0.as_str());
            out.append(":");
            out.append(self.0[i].1.as_str());
            proof {
                if i == 0 {
                    assert(out@ =~= css_of(self@.subrange(0, 1)));
                }
            }
            i = i + 1;
        }
        proof {
            assert(self@.subrange(0, self.0@.len() as int) =~= self@);
        }
        out
    }

    pub fn is_empty(&self) -> (r: bool)
        ensures
            r == (self@.len() == 0),
    {
        self.0.len() == 0
    }
}

// ---------------------------------------------------------------------------------------------
// Presentation attributes and initial values

/// Attributes that Inkscape treats as presentation attributes.
pub const PRESENTATION_ATTRS: [&'static str; 76] = [
    "alignment-baseline",
    "baseline-shift",
    "clip-rule",
    "color",
    "color-interpolation",
    "color-interpolation-filters",
    "color-rendering",
    "cursor",
    "direction",
    "display",
    "dominant-baseline",
    "enable-background",
    "fill",
    "fill-opacity",
    "fill-rule",
    "filter",
    "flood-color",
    "flood-opacity",
    "font",
    "font-family",
    "font-size",
    "font-size-adjust",
    "font-stretch",
    "font-style",
    "font-variant",
    "font-weight",
    "glyph-orientation-horizontal",
    "glyph-orientation-vertical",
    "image-rendering",
    "letter-spacing",
    "lighting-color",
    "marker",
    "marker-end",
    "marker-mid",
    "marker-start",
    "opacity",
    "overflow",
    "paint-order",
    "pointer-events",
    "shape-rendering",
    "stop-color",
    "stop-opacity",
    "stroke",
    "stroke-dasharray",
    "stroke-dashoffset",
    "stroke-linecap",
    "stroke-linejoin",
    "stroke-miterlimit",
    "stroke-opacity",
    "stroke-width",
    "text-anchor",
    "text-decoration",
    "text-rendering",
    "unicode-bidi",
    "vector-effect",
    "visibility",
    "word-spacing",
    "writing-mode",
    "line-height",
    "text-align",
    "white-space",
    "inline-size",
    "shape-inside",
    "shape-padding",
    "shape-subtract",
    "mix-blend-mode",
    "isolation",
    "vertical-align",
    "font-feature-settings",
    "font-variant-ligatures",
    "font-variant-caps",
    "font-variant-numeric",
    "font-variant-east-asian",
    "font-variant-position",
    "font-variant-alternates",
    "font-kerning",
];

pub open spec fn is_presentation_attr(name: Seq<char>) -> bool {
    exists|i: int| 0 <= i < 76 && #[trigger] PRESENTATION_ATTRS[i]@ == name
}

/// Whether `name` is a presentation attribute.
pub fn presentation_attr(name: &str) -> (r: bool)
    ensures
        r == is_presentation_attr(name@),
{
    let mut i: usize = 0;
    while i < 76
        invariant
            i <= 76,
            forall|j: int| 0 <= j < i ==> PRESENTATION_ATTRS[j]@ != name@,
        decreases 76 - i,
    {
        if str_eq(PRESENTATION_ATTRS[i], name) {
            return true;
        }
        i = i + 1;
    }
    false
}

/// SVG initial values.
pub const DEFAULTS: [(&'static str, &'static str); 45] = [
    ("fill", "black"),
    ("stroke", "none"),
    ("stroke-width", "1"),
    ("font-size", "medium"),
    ("font-family", "sans-serif"),
    ("font-weight", "normal"),
    ("font-style", "normal"),
    ("font-stretch", "normal"),
    ("font-variant", "normal"),
    ("text-anchor", "start"),
    ("letter-spacing", "normal"),
    ("word-spacing", "normal"),
    ("line-height", "normal"),
    ("opacity", "1"),
    ("fill-opacity", "1"),
    ("stroke-opacity", "1"),
    ("stroke-linecap", "butt"),
    ("stroke-linejoin", "miter"),
    ("stroke-miterlimit", "4"),
    ("stroke-dasharray", "none"),
    ("stroke-dashoffset", "0"),
    ("display", "inline"),
    ("visibility", "visible"),
    ("clip-path", "none"),
    ("mask", "none"),
    ("filter", "none"),
    ("marker-start", "none"),
    ("marker-mid", "none"),
    ("marker-end", "none"),
    ("direction", "ltr"),
    ("writing-mode", "lr-tb"),
    ("white-space", "normal"),
    ("stop-color", "black"),
    ("stop-opacity", "1"),
    ("color", "black"),
    ("fill-rule", "nonzero"),
    ("clip-rule", "nonzero"),
    ("text-decoration", "none"),
    ("baseline-shift", "baseline"),
    ("text-align", "start"),
    ("font-variant-ligatures", "normal"),
    ("paint-order", "normal"),
    ("vector-effect", "none"),
    ("shape-rendering", "auto"),
    ("text-rendering", "auto"),
];

/// The initial value of `prop`, looking from entry `i` of the table on.
pub open spec fn default_from(prop: Seq<char>, i: int) -> Option<Seq<char>>
    decreases 45 - i,
{
    if i < 0 || i >= 45 {
        None
    } else if DEFAULTS[i].0@ == prop {
        Some(DEFAULTS[i].1@)
    } else {
        default_from(prop, i + 1)
    }
}

pub open spec fn default_of(prop: Seq<char>) -> Option<Seq<char>> {
    default_from(prop, 0)
}

/// The SVG initial value of a property.
pub fn default_value(prop: &str) -> (r: Option<&'static str>)
    ensures
        r matches Some(v) ==> default_of(prop@) == Some(v@),
        r is None ==> default_of(prop@) is None,
{
    let mut i: usize = 0;
    while i < 45
        invariant
            i <= 45,
            default_of(prop@) == default_from(prop@, i as int),
        decreases 45 - i,
    {
        if str_eq(DEFAULTS[i].0, prop) {
            return Some(DEFAULTS[i].1);
        }
        i = i + 1;
    }
    None
}


// ---------------------------------------------------------------------------------------------
// Declaration lists

/// The pieces between the `;` that stand outside quotes and parentheses, from position `i`
/// on; the current piece started at `start`.
pub open spec fn split_decls_from(s: Seq<char>, i: int, start: int, quote: Option<char>, depth: nat) -> Seq<Seq<char>>
    decreases s.len() - i,
{
    if i < 0 || i >= s.len() {
        seq![s.subrange(start, s.len() as int)]
    } else {
        let c = s[i];
        match quote {
            Some(q) => split_decls_from(
                s,
                i + 1,
                start,
                if c == q {
                    None
                } else {
                    Some(q)
                },
                depth,
            ),
            None => if c == '\'' || c == '"' {
                split_decls_from(s, i + 1, start, Some(c), depth)
            } else if c == '(' {
                split_decls_from(s, i + 1, start, None, depth + 1)
            } else if c == ')' {
                split_decls_from(
                    s,
                    i + 1,
                    start,
                    None,
                    if depth > 0 {
                        (depth - 1) as nat
                    } else {
                        0
                    },
                )
            } else if c == ';' && depth == 0 {
                seq![s.subrange(start, i)] + split_decls_from(s, i + 1, i + 1, None, depth)
            } else {
                split_decls_from(s, i + 1, start, None, depth)
            },
        }
    }
}

/// A declaration list split on the `;` that are outside quotes and parentheses
/// (`fill:url(data:a;b)` and `content:'a;b'` stay whole).
pub open spec fn split_decls(s: Seq<char>) -> Seq<Seq<char>> {
    split_decls_from(s, 0, 0, None, 0)
}

pub open spec fn strings_view(v: Seq<String>) -> Seq<Seq<char>> {
    v.map_values(|s: String| s@)
}

/// `ts` with `sep` between each two.
pub open spec fn joined_with(ts: Seq<Seq<char>>, sep: Seq<char>) -> Seq<char>
    decreases ts.len(),
{
    if ts.len() == 0 {
        seq![]
    } else if ts.len() == 1 {
        ts[0]
    } else {
        joined_with(ts.drop_last(), sep) + sep + ts.last()
    }
}

/// `[String]::join`.
pub fn join(v: &Vec<String>, sep: &str) -> (r: String)
    ensures
        r@ == joined_with(strings_view(v@), sep@),
{
    let mut out = String::new();
    let mut i: usize = 0;
    while i < v.len()
        invariant
            i <= v@.len(),
            out@ == joined_with(strings_view(v@.subrange(0, i as int)), sep@),
        decreases v@.len() - i,
    {
        proof {
            assert(strings_view(v@.subrange(0, i + 1)).drop_last() =~= strings_view(v@.subrange(0, i as int)));
            assert(strings_view(v@.subrange(0, i + 1)).last() == v@[i as int]@);
        }
        if i > 0 {
            out.append(sep);
        }
        out.append(v[i].as_str());
        proof {
            if i == 0 {
                assert(strings_view(v@.subrange(0, 1)).len() == 1);
                assert(out@ =~= v@[0]@);
            }
        }
        i = i + 1;
    }
    proof {
        assert(v@.subrange(0, v@.len() as int) =~= v@);
    }
    out
}

/// Splits a declaration list on `;`, the way CSS delimits declarations: a `;` inside a quoted
/// string or inside parentheses does not start a new declaration.
pub fn split_declarations(css: &str) -> (r: Vec<String>)
    ensures
        strings_view(r@) == split_decls(css@),
{
    let cs = chars_of(css);
    let mut out: Vec<String> = Vec::new();
    let mut start: usize = 0;
    let mut quote: Option<char> = None;
    let mut depth: usize = 0;
    let mut i: usize = 0;
    while i < cs.len()
        invariant
            cs@ == css@,
            start <= i <= cs@.len(),
            depth <= i,
            strings_view(out@) + split_decls_from(cs@, i as int, start as int, quote, depth as nat) == split_decls(css@),
        decreases cs@.len() - i,
    {
        let c = cs[i];
        match quote {
            Some(q) => {
                if c == q {
                    quote = None;
                }
            },
            None => {
                if c == '\'' || c == '"' {
                    quote = Some(c);
                } else if c == '(' {
                    depth = depth + 1;
                } else if c == ')' {
                    if depth > 0 {
                        depth = depth - 1;
                    }
                } else if c == ';' && depth == 0 {
                    let piece = string_from(slice_range(cs.as_slice(), start, i));
                    let ghost o = strings_view(out@);
                    out.push(piece);
                    proof {
                        assert(strings_view(out@) =~= o.push(piece@));
                        assert(o + (seq![cs@.subrange(start as int, i as int)] + split_decls_from(cs@, i + 1, i + 1, None, 0))
                            =~= o.push(piece@) + split_decls_from(cs@, i + 1, i + 1, None, 0));
                    }
                    start = i + 1;
                }
            },
        }
        i = i + 1;
    }
    let piece = string_from(slice_range(cs.as_slice(), start, cs.len()));
    let ghost o = strings_view(out@);
    out.push(piece);
    proof {
        assert(strings_view(out@) =~= o.push(piece@));
        assert(o + seq![cs@.subrange(start as int, cs@.len() as int)] =~= o.push(piece@));
    }
    out
}

/// ASCII upper-case letters made lower-case.
pub open spec fn lower_char(c: char) -> char {
    if 'A' <= c && c <= 'Z' {
        ((c as u32) + 32) as char
    } else {
        c
    }
}

pub open spec fn ascii_lower(s: Seq<char>) -> Seq<char> {
    s.map_values(|c: char| lower_char(c))
}

/// `str::to_ascii_lowercase`.
pub fn to_ascii_lowercase(s: &str) -> (r: String)
    ensures
        r@ == ascii_lower(s@),
{
    let cs = chars_of(s);
    let mut out = String::new();
    let mut i: usize = 0;
    while i < cs.len()
        invariant
            cs@ == s@,
            i <= cs@.len(),
            out@ == ascii_lower(cs@.subrange(0, i as int)),
        decreases cs@.len() - i,
    {
        let c = cs[i];
        let l = if 'A' <= c && c <= 'Z' {
            ((c as u32) + 32) as u8 as char
        } else {
            c
        };
        push_char(&mut out, l);
        proof {
            assert(ascii_lower(cs@.subrange(0, i + 1)) =~= ascii_lower(cs@.subrange(0, i as int)).push(lower_char(c)));
        }
        i = i + 1;
    }
    proof {
        assert(cs@.subrange(0, cs@.len() as int) =~= cs@);
    }
    out
}

/// `s` without trailing whitespace (`str::trim_end`).
pub open spec fn trimmed_end(s: Seq<char>) -> Seq<char> {
    s.subrange(0, rskip_ws(s, s.len() as int))
}

pub fn trim_end(s: &str) -> (r: String)
    ensures
        r@ == trimmed_end(s@),
{
    let cs = chars_of(s);
    proof {
        lemma_rskip_ws(cs@, cs@.len() as int);
    }
    let mut b = cs.len();
    while b > 0 && is_whitespace(cs[b - 1])
        invariant
            b <= cs@.len(),
            rskip_ws(cs@, b as int) == rskip_ws(cs@, cs@.len() as int),
        decreases b,
    {
        b = b - 1;
    }
    string_from(slice_range(cs.as_slice(), 0, b))
}

/// A trimmed value split from a trailing `!important` (any case).
pub open spec fn important_split(v: Seq<char>) -> (Seq<char>, bool) {
    let lower = ascii_lower(v);
    if v.len() >= 9 && lower.subrange(v.len() - 9, v.len() as int) == "important"@ {
        let rest = trimmed_end(v.subrange(0, v.len() - 9));
        if rest.len() > 0 && rest.last() == '!' {
            (trimmed_end(rest.drop_last()), true)
        } else {
            (v, false)
        }
    } else {
        (v, false)
    }
}

/// Splits off a trailing `!important`.
pub fn strip_important(v: &str) -> (r: (String, bool))
    ensures
        r.0@ == important_split(v@).0,
        r.1 == important_split(v@).1,
{
    let lower = to_ascii_lowercase(v);
    let cs = chars_of(v);
    let lc = chars_of(lower.as_str());
    proof {
        reveal_strlit("important");
    }
    if cs.len() >= 9 {
        let tail = string_from(slice_range(lc.as_slice(), cs.len() - 9, cs.len()));
        if str_eq(tail.as_str(), "important") {
            let head = string_from(slice_range(cs.as_slice(), 0, cs.len() - 9));
            let rest = trim_end(head.as_str());
            let rc = chars_of(rest.as_str());
            if rc.len() > 0 && rc[rc.len() - 1] == '!' {
                let inner = string_from(slice_range(rc.as_slice(), 0, rc.len() - 1));
                proof {
                    assert(inner@ =~= rest@.drop_last());
                }
                return (trim_end(inner.as_str()), true);
            }
        }
    }
    (v.to_owned(), false)
}

/// A declaration split at its first `:` into a trimmed, lower-cased name and a trimmed value;
/// `None` without a `:`.
pub open spec fn decl_parts(d: Seq<char>) -> Option<(Seq<char>, Seq<char>)> {
    let c = find_char(d, 0, ':');
    if c < 0 {
        None
    } else {
        Some((ascii_lower(trimmed(d.subrange(0, c))), trimmed(d.subrange(c + 1, d.len() as int))))
    }
}

/// Splits at the first `:`: trimmed lower-cased name, trimmed value.
pub(crate) fn split_decl(d: &str) -> (r: Option<(String, String)>)
    ensures
        match (r, decl_parts(d@)) {
            (Some((k, v)), Some((sk, sv))) => k@ == sk && v@ == sv,
            (None, None) => true,
            _ => false,
        },
{
    let cs = chars_of(d);
    let mut c: usize = 0;
    while c < cs.len() && cs[c] != ':'
        invariant
            c <= cs@.len(),
            cs@ == d@,
            find_char(cs@, c as int, ':') == find_char(cs@, 0, ':'),
        decreases cs@.len() - c,
    {
        c = c + 1;
    }
    if c >= cs.len() {
        return None;
    }
    let k = string_from(slice_range(cs.as_slice(), 0, c));
    let v = string_from(slice_range(cs.as_slice(), c + 1, cs.len()));
    let kt = trim(k.as_str());
    Some((to_ascii_lowercase(kt.as_str()), trim(v.as_str())))
}


// ---------------------------------------------------------------------------------------------
// The `font` shorthand

/// Whitespace-separated tokens of `s` from `i` on, a quoted run kept whole; `cur` is the token
/// being read, `quote` the quote it is inside.
pub open spec fn font_tokens_from(s: Seq<char>, i: int, cur: Seq<char>, quote: Option<char>) -> Seq<Seq<char>>
    decreases s.len() - i,
{
    if i < 0 || i >= s.len() {
        if cur.len() > 0 {
            seq![cur]
        } else {
            seq![]
        }
    } else {
        let ch = s[i];
        match quote {
            Some(q) => font_tokens_from(
                s,
                i + 1,
                cur.push(ch),
                if ch == q {
                    None
                } else {
                    Some(q)
                },
            ),
            None => if ch == '\'' || ch == '"' {
                font_tokens_from(s, i + 1, cur.push(ch), Some(ch))
            } else if is_ws(ch) {
                if cur.len() > 0 {
                    seq![cur] + font_tokens_from(s, i + 1, seq![], None)
                } else {
                    font_tokens_from(s, i + 1, seq![], None)
                }
            } else {
                font_tokens_from(s, i + 1, cur.push(ch), None)
            },
        }
    }
}

pub open spec fn font_tokens(s: Seq<char>) -> Seq<Seq<char>> {
    font_tokens_from(s, 0, seq![], None)
}

fn split_font_tokens(v: &str) -> (r: Vec<String>)
    ensures
        strings_view(r@) == font_tokens(v@),
{
    let cs = chars_of(v);
    let mut out: Vec<String> = Vec::new();
    let mut cur = String::new();
    let mut quote: Option<char> = None;
    let mut i: usize = 0;
    while i < cs.len()
        invariant
            cs@ == v@,
            i <= cs@.len(),
            strings_view(out@) + font_tokens_from(cs@, i as int, cur@, quote) == font_tokens(v@),
        decreases cs@.len() - i,
    {
        let ch = cs[i];
        match quote {
            Some(q) => {
                push_char(&mut cur, ch);
                if ch == q {
                    quote = None;
                }
            },
            None => {
                if ch == '\'' || ch == '"' {
                    quote = Some(ch);
                    push_char(&mut cur, ch);
                } else if is_whitespace(ch) {
                    if !cur.as_str().is_empty() {
                        let ghost o = strings_view(out@);
                        let ghost c0 = cur@;
                        out.push(cur);
                        cur = String::new();
                        proof {
                            assert(strings_view(out@) =~= o.push(c0));
                            assert(o + (seq![c0] + font_tokens_from(cs@, i + 1, seq![], None)) =~= o.push(c0)
                                + font_tokens_from(cs@, i + 1, seq![], None));
                        }
                    } else {
                        proof {
                            assert(cur@ =~= Seq::<char>::empty());
                        }
                    }
                } else {
                    push_char(&mut cur, ch);
                }
            },
        }
        i = i + 1;
    }
    if !cur.as_str().is_empty() {
        let ghost o = strings_view(out@);
        let ghost c0 = cur@;
        out.push(cur);
        proof {
            assert(strings_view(out@) =~= o.push(c0));
            assert(o + seq![c0] =~= o.push(c0));
        }
    } else {
        proof {
            assert(strings_view(out@) + Seq::<Seq<char>>::empty() =~= strings_view(out@));
        }
    }
    out
}

/// What a leading keyword of the `font` shorthand sets: `Some(Some(p))` sets property `p`,
/// `Some(None)` (`normal`) sets nothing, `None` ends the keywords.
pub open spec fn font_keyword(t: Seq<char>) -> Option<Option<Seq<char>>> {
    if t == "italic"@ || t == "oblique"@ {
        Some(Some("font-style"@))
    } else if t == "small-caps"@ {
        Some(Some("font-variant"@))
    } else if t == "bold"@ || t == "bolder"@ || t == "lighter"@ || t == "100"@ || t == "200"@
        || t == "300"@ || t == "400"@ || t == "500"@ || t == "600"@ || t == "700"@ || t == "800"@
        || t == "900"@ {
        Some(Some("font-weight"@))
    } else if t == "ultra-condensed"@ || t == "extra-condensed"@ || t == "condensed"@
        || t == "semi-condensed"@ || t == "semi-expanded"@ || t == "expanded"@ || t
        == "extra-expanded"@ || t == "ultra-expanded"@ {
        Some(Some("font-stretch"@))
    } else if t == "normal"@ {
        Some(None)
    } else {
        None
    }
}

/// Tokens joined by single spaces.
pub open spec fn joined(ts: Seq<Seq<char>>) -> Seq<char>
    decreases ts.len(),
{
    if ts.len() == 0 {
        seq![]
    } else if ts.len() == 1 {
        ts[0]
    } else {
        joined(ts.drop_last()) + " "@ + ts.last()
    }
}

/// The size (with an optional `/line-height`) at token `i` and the family after it.
pub open spec fn font_size_family(st: Decls, toks: Seq<Seq<char>>, i: int) -> Decls {
    let size = toks[i];
    let c = find_char(size, 0, '/');
    let st1 = if c >= 0 {
        style_set(style_set(st, "font-size"@, size.subrange(0, c)), "line-height"@, size.subrange(c + 1, size.len() as int))
    } else {
        style_set(st, "font-size"@, size)
    };
    let family = joined(toks.subrange(i + 1, toks.len() as int));
    if family.len() > 0 {
        style_set(st1, "font-family"@, family)
    } else {
        st1
    }
}

/// `font: [style] [variant] [weight] [stretch] size[/line-height] family`, from token `i` on.
pub open spec fn font_expand_from(st: Decls, toks: Seq<Seq<char>>, i: int) -> Decls
    decreases toks.len() - i,
{
    if i < 0 || i >= toks.len() {
        st
    } else {
        match font_keyword(toks[i]) {
            Some(Some(p)) => font_expand_from(style_set(st, p, toks[i]), toks, i + 1),
            Some(None) => font_expand_from(st, toks, i + 1),
            None => font_size_family(st, toks, i),
        }
    }
}

/// A declaration applied to a style: `font` expands, anything else is set.
pub open spec fn decl_applied(st: Decls, k: Seq<char>, v: Seq<char>) -> Decls {
    if k == "font"@ {
        font_expand_from(st, font_tokens(v), 0)
    } else {
        style_set(st, k, v)
    }
}

fn font_keyword_of(t: &str) -> (r: Option<Option<&'static str>>)
    ensures
        match (r, font_keyword(t@)) {
            (Some(Some(p)), Some(Some(q))) => p@ == q,
            (Some(None), Some(None)) => true,
            (None, None) => true,
            _ => false,
        },
{
    proof {
        reveal_strlit("italic");
        reveal_strlit("oblique");
        reveal_strlit("small-caps");
        reveal_strlit("bold");
        reveal_strlit("bolder");
        reveal_strlit("lighter");
        reveal_strlit("100");
        reveal_strlit("200");
        reveal_strlit("300");
        reveal_strlit("400");
        reveal_strlit("500");
        reveal_strlit("600");
        reveal_strlit("700");
        reveal_strlit("800");
        reveal_strlit("900");
        reveal_strlit("ultra-condensed");
        reveal_strlit("extra-condensed");
        reveal_strlit("condensed");
        reveal_strlit("semi-condensed");
        reveal_strlit("semi-expanded");
        reveal_strlit("expanded");
        reveal_strlit("extra-expanded");
        reveal_strlit("ultra-expanded");
        reveal_strlit("normal");
    }
    if str_eq(t, "italic") || str_eq(t, "oblique") {
        Some(Some("font-style"))
    } else if str_eq(t, "small-caps") {
        Some(Some("font-variant"))
    } else if str_eq(t, "bold") || str_eq(t, "bolder") || str_eq(t, "lighter") || str_eq(t, "100")
        || str_eq(t, "200") || str_eq(t, "300") || str_eq(t, "400") || str_eq(t, "500")
        || str_eq(t, "600") || str_eq(t, "700") || str_eq(t, "800") || str_eq(t, "900") {
        Some(Some("font-weight"))
    } else if str_eq(t, "ultra-condensed") || str_eq(t, "extra-condensed") || str_eq(t, "condensed")
        || str_eq(t, "semi-condensed") || str_eq(t, "semi-expanded") || str_eq(t, "expanded")
        || str_eq(t, "extra-expanded") || str_eq(t, "ultra-expanded") {
        Some(Some("font-stretch"))
    } else if str_eq(t, "normal") {
        Some(None)
    } else {
        None
    }
}

/// Expands `font: [style] [variant] [weight] size[/line-height] family` into `st`.
fn expand_font_shorthand(st: &mut Style, v: &str)
    ensures
        final(st)@ == font_expand_from(old(st)@, font_tokens(v@), 0),
{
    let tokens = split_font_tokens(v);
    let ghost toks = strings_view(tokens@);
    let mut i: usize = 0;
    while i < tokens.len()
        invariant
            toks == strings_view(tokens@),
            toks == font_tokens(v@),
            i <= tokens@.len(),
            font_expand_from(old(st)@, toks, 0) == font_expand_from(st@, toks, i as int),
        decreases tokens@.len() - i,
    {
        proof {
            assert(toks[i as int] == tokens@[i as int]@);
        }
        match font_keyword_of(tokens[i].as_str()) {
            Some(Some(p)) => {
                st.set(p, tokens[i].as_str());
            },
            Some(None) => {},
            None => {
                set_size_and_family(st, &tokens, i);
                return;
            },
        }
        i = i + 1;
    }
}

/// Sets size, line height and family from token `i` on.
fn set_size_and_family(st: &mut Style, tokens: &Vec<String>, i: usize)
    requires
        i < tokens@.len(),
    ensures
        final(st)@ == font_size_family(old(st)@, strings_view(tokens@), i as int),
{
    let ghost toks = strings_view(tokens@);
    proof {
        assert(toks[i as int] == tokens@[i as int]@);
        reveal_strlit(" ");
    }
    let size = tokens[i].as_str();
    let cs = chars_of(size);
    let mut c: usize = 0;
    while c < cs.len() && cs[c] != '/'
        invariant
            c <= cs@.len(),
            cs@ == size@,
            find_char(cs@, c as int, '/') == find_char(cs@, 0, '/'),
        decreases cs@.len() - c,
    {
        c = c + 1;
    }
    if c < cs.len() {
        let a = string_from(slice_range(cs.as_slice(), 0, c));
        let b = string_from(slice_range(cs.as_slice(), c + 1, cs.len()));
        st.set("font-size", a.as_str());
        st.set("line-height", b.as_str());
    } else {
        st.set("font-size", size);
    }
    let mut family = String::new();
    let n = tokens.len();
    assert(i < n);
    let mut j: usize = i + 1;
    while j < tokens.len()
        invariant
            toks == strings_view(tokens@),
            i < j <= tokens@.len(),
            family@ == joined(toks.subrange(i + 1, j as int)),
        decreases tokens@.len() - j,
    {
        proof {
            assert(toks.subrange(i + 1, j + 1).drop_last() =~= toks.subrange(i + 1, j as int));
            assert(toks[j as int] == tokens@[j as int]@);
            if j == i + 1 {
                assert(family@ =~= Seq::<char>::empty());
            }
        }
        if j > i + 1 {
            family.append(" ");
        }
        family.append(tokens[j].as_str());
        proof {
            if j == i + 1 {
                assert(family@ =~= joined(toks.subrange(i + 1, j + 1)));
            }
        }
        j = j + 1;
    }
    if !family.as_str().is_empty() {
        st.set("font-family", family.as_str());
    }
}

impl Style {
    /// Applies one declaration: `font` expands, anything else is set.
    pub fn set_decl(&mut self, k: &str, v: &str)
        ensures
            final(self)@ == decl_applied(old(self)@, k@, v@),
    {
        proof {
            reveal_strlit("font");
        }
        if str_eq(k, "font") {
            expand_font_shorthand(self, v);
        } else {
            self.set(k, v);
        }
    }
}


/// The style the declarations `ds` describe, applied in order; an empty name or value, or no
/// `:`, skips a declaration.
pub open spec fn parsed_decls(ds: Seq<Seq<char>>) -> Decls
    decreases ds.len(),
{
    if ds.len() == 0 {
        seq![]
    } else {
        let st = parsed_decls(ds.drop_last());
        match decl_parts(ds.last()) {
            Some((k, v)) => if k.len() == 0 || v.len() == 0 {
                st
            } else {
                decl_applied(st, k, v)
            },
            None => st,
        }
    }
}

/// The style `k:v;k:v` text describes.
pub open spec fn style_parsed(css: Seq<char>) -> Decls {
    parsed_decls(split_decls(css))
}

impl Style {
    /// Parses `k:v;k:v`. Names are lower-cased and trimmed, empty or malformed declarations are
    /// skipped, the `font` shorthand is expanded.
    pub fn parse(css: &str) -> (r: Style)
        ensures
            r@ == style_parsed(css@),
    {
        let ds = split_declarations(css);
        let ghost dv = strings_view(ds@);
        let mut st = Style::new();
        let mut i: usize = 0;
        while i < ds.len()
            invariant
                dv == strings_view(ds@),
                dv == split_decls(css@),
                i <= ds@.len(),
                st@ == parsed_decls(dv.subrange(0, i as int)),
            decreases ds@.len() - i,
        {
            proof {
                assert(dv.subrange(0, i + 1).drop_last() =~= dv.subrange(0, i as int));
                assert(dv[i as int] == ds@[i as int]@);
            }
            match split_decl(ds[i].as_str()) {
                Some((k, v)) => {
                    if !k.as_str().is_empty() && !v.as_str().is_empty() {
                        st.set_decl(k.as_str(), v.as_str());
                    }
                },
                None => {},
            }
            i = i + 1;
        }
        proof {
            assert(dv.subrange(0, ds@.len() as int) =~= dv);
        }
        st
    }
}

// ---------------------------------------------------------------------------------------------
// Laws of `Style`

/// Reading a property just set gives the set value; other properties read as before.
pub proof fn law_style_get_after_set(s: Decls, k: Seq<char>, v: Seq<char>, other: Seq<char>)
    ensures
        style_get(style_set(s, k, v), k) == Some(v),
        other != k ==> style_get(style_set(s, k, v), other) == style_get(s, other),
{
    lemma_decl_pos(s, k);
    lemma_decl_pos(s, other);
    let t = style_set(s, k, v);
    lemma_decl_pos(t, k);
    lemma_decl_pos(t, other);
    let i = decl_pos(s, k);
    let pk = decl_pos(t, k);
    if i >= 0 {
        assert(t[i].0 == k);
        if pk >= 0 && pk < i {
            assert(t[pk] == s[pk]);
        }
        assert(pk == i);
    } else {
        assert(t[s.len() as int].0 == k);
        if pk >= 0 && pk < s.len() {
            assert(t[pk] == s[pk]);
        }
        assert(pk == s.len());
    }
    if other != k {
        let j = decl_pos(s, other);
        let m = decl_pos(t, other);
        if j >= 0 {
            assert(t[j] == s[j]);
        }
        if m >= 0 && m < s.len() {
            assert(t[m].0 == s[m].0 || m == i);
        }
    }
}

/// Setting a property keeps the names distinct.
pub proof fn law_style_set_distinct(s: Decls, k: Seq<char>, v: Seq<char>)
    requires
        names_distinct(s),
    ensures
        names_distinct(style_set(s, k, v)),
{
    lemma_decl_pos(s, k);
}

/// A removed property reads as absent (names distinct); others read as before.
pub proof fn law_style_get_after_remove(s: Decls, k: Seq<char>, other: Seq<char>)
    requires
        names_distinct(s),
    ensures
        style_get(style_remove(s, k), k) is None,
        other != k ==> style_get(style_remove(s, k), other) == style_get(s, other),
{
    lemma_decl_pos(s, k);
    lemma_decl_pos(s, other);
    let t = style_remove(s, k);
    lemma_decl_pos(t, k);
    lemma_decl_pos(t, other);
    let i = decl_pos(s, k);
    if i >= 0 {
        let m = decl_pos(t, k);
        if m >= 0 {
            if m < i {
                assert(t[m] == s[m]);
            } else {
                assert(t[m] == s[m + 1]);
            }
        }
        if other != k {
            let j = decl_pos(s, other);
            let q = decl_pos(t, other);
            if j >= 0 {
                if j < i {
                    assert(t[j] == s[j]);
                } else {
                    assert(t[j - 1] == s[j]);
                }
            }
            if q >= 0 {
                if q < i {
                    assert(t[q] == s[q]);
                } else {
                    assert(t[q] == s[q + 1]);
                }
            }
        }
    }
}

/// After a merge, a property reads as the merged-in style's last value for it, or as before
/// when that style does not declare it.
pub proof fn law_style_merge(s: Decls, o: Decls, k: Seq<char>)
    ensures
        style_get(style_merge(s, o), k) == match last_value(o, k) {
            Some(v) => Some(v),
            None => style_get(s, k),
        },
    decreases o.len(),
{
    if o.len() > 0 {
        law_style_merge(s, o.drop_last(), k);
        law_style_get_after_set(style_merge(s, o.drop_last()), o.last().0, o.last().1, k);
    }
}

/// A character that starts or ends a declaration, a quoted string or a parenthesis.
pub open spec fn css_special(c: char) -> bool {
    c == ';' || c == '\'' || c == '"' || c == '(' || c == ')'
}

/// The quote and parenthesis depth after the character `c`, as `split_decls` tracks them.
pub open spec fn scan_step(c: char, q: Option<char>, dep: nat) -> (Option<char>, nat) {
    match q {
        Some(qq) => (if c == qq { None } else { Some(qq) }, dep),
        None => if c == '\'' || c == '"' {
            (Some(c), dep)
        } else if c == '(' {
            (None, dep + 1)
        } else if c == ')' {
            (None, if dep > 0 { (dep - 1) as nat } else { 0 })
        } else {
            (None, dep)
        },
    }
}

/// From position `i` (in quote `q`, at depth `dep`), no `;` stands outside quotes and
/// parentheses.
pub open spec fn no_top_semicolon(s: Seq<char>, i: int, q: Option<char>, dep: nat) -> bool
    decreases s.len() - i,
{
    if i < 0 || i >= s.len() {
        true
    } else {
        !(q is None && dep == 0 && s[i] == ';') && no_top_semicolon(s, i + 1, scan_step(s[i], q, dep).0, scan_step(s[i], q, dep).1)
    }
}

/// The quote and depth after scanning `s` from position `i`.
pub open spec fn scan_end(s: Seq<char>, i: int, q: Option<char>, dep: nat) -> (Option<char>, nat)
    decreases s.len() - i,
{
    if i < 0 || i >= s.len() {
        (q, dep)
    } else {
        scan_end(s, i + 1, scan_step(s[i], q, dep).0, scan_step(s[i], q, dep).1)
    }
}

/// A value whose quotes and parentheses are closed and that holds no `;` outside them.
pub open spec fn balanced(v: Seq<char>) -> bool {
    no_top_semicolon(v, 0, None, 0) && scan_end(v, 0, None, 0) == (None::<char>, 0nat)
}

/// A run of `s` from `i` with no `;` outside quotes and parentheses is one piece.
proof fn lemma_split_plain(s: Seq<char>, i: int, start: int, q: Option<char>, dep: nat)
    requires
        0 <= start <= i <= s.len(),
        no_top_semicolon(s, i, q, dep),
    ensures
        split_decls_from(s, i, start, q, dep) == seq![s.subrange(start, s.len() as int)],
    decreases s.len() - i,
{
    if i < s.len() {
        lemma_split_plain(s, i + 1, start, scan_step(s[i], q, dep).0, scan_step(s[i], q, dep).1);
    }
}

/// Scanning `a + b` from inside `a`: `a`'s rest, then `b` from the state `a` ends in.
proof fn lemma_scan_concat(a: Seq<char>, b: Seq<char>, i: int, q: Option<char>, dep: nat)
    requires
        0 <= i <= a.len(),
    ensures
        scan_end(a + b, i, q, dep) == scan_end(b, 0, scan_end(a, i, q, dep).0, scan_end(a, i, q, dep).1),
        no_top_semicolon(a + b, i, q, dep) == (no_top_semicolon(a, i, q, dep)
            && no_top_semicolon(b, 0, scan_end(a, i, q, dep).0, scan_end(a, i, q, dep).1)),
    decreases a.len() - i,
{
    if i < a.len() {
        assert((a + b)[i] == a[i]);
        lemma_scan_concat(a, b, i + 1, scan_step(a[i], q, dep).0, scan_step(a[i], q, dep).1);
    } else {
        lemma_scan_shift(a, b, 0, q, dep);
    }
}

/// Scanning `a + b` from past `a` is scanning `b`.
proof fn lemma_scan_shift(a: Seq<char>, b: Seq<char>, i: int, q: Option<char>, dep: nat)
    requires
        0 <= i <= b.len(),
    ensures
        scan_end(a + b, a.len() + i, q, dep) == scan_end(b, i, q, dep),
        no_top_semicolon(a + b, a.len() + i, q, dep) == no_top_semicolon(b, i, q, dep),
    decreases b.len() - i,
{
    if i < b.len() {
        assert((a + b)[a.len() + i] == b[i]);
        lemma_scan_shift(a, b, i + 1, scan_step(b[i], q, dep).0, scan_step(b[i], q, dep).1);
    }
}

/// Characters none of which is special leave the state as it is and hold no `;`.
proof fn lemma_scan_plain(s: Seq<char>, i: int)
    requires
        0 <= i <= s.len(),
        forall|j: int| i <= j < s.len() ==> !css_special(#[trigger] s[j]),
    ensures
        no_top_semicolon(s, i, None, 0),
        scan_end(s, i, None, 0) == (None::<char>, 0nat),
    decreases s.len() - i,
{
    if i < s.len() {
        lemma_scan_plain(s, i + 1);
    }
}

/// Splitting `x;z` where `x` ends outside quotes and parentheses: the pieces of `x`, then those
/// after the `;`.
proof fn lemma_split_concat(x: Seq<char>, z: Seq<char>, i: int, start: int, q: Option<char>, dep: nat)
    requires
        0 <= start <= i <= x.len(),
        scan_end(x, i, q, dep) == (None::<char>, 0nat),
    ensures
        split_decls_from(x + ";"@ + z, i, start, q, dep) == split_decls_from(x, i, start, q, dep)
            + split_decls_from(x + ";"@ + z, x.len() + 1int, x.len() + 1int, None, 0),
    decreases x.len() - i,
{
    let s = x + ";"@ + z;
    reveal_strlit(";");
    assert(s[x.len() as int] == ';');
    if i < x.len() {
        assert(s[i] == x[i]);
        let (q2, d2) = scan_step(x[i], q, dep);
        if q is None && dep == 0 && x[i] == ';' {
            lemma_split_concat(x, z, i + 1, i + 1, q2, d2);
            assert(s.subrange(start, i) =~= x.subrange(start, i));
        } else {
            lemma_split_concat(x, z, i + 1, start, q2, d2);
        }
    } else {
        assert(s.subrange(start, i) =~= x.subrange(start, i));
    }
}

/// `k:v` for each declaration.
pub open spec fn decl_texts(s: Decls) -> Seq<Seq<char>> {
    s.map_values(|p: (Seq<char>, Seq<char>)| p.0 + ":"@ + p.1)
}

/// A declaration `to_css` writes so that `parse` reads it back as it is: a lower-case, trimmed,
/// non-empty name without `:`, `;`, quotes or parentheses, and not the `font` shorthand; a
/// trimmed, non-empty value whose quotes and parentheses are closed and that holds no `;`
/// outside them (`url(#a)`, `rgb(1, 2, 3)`, `'a;b'`).
pub open spec fn plain_decl(p: (Seq<char>, Seq<char>)) -> bool {
    &&& p.0.len() > 0 && p.1.len() > 0
    &&& trimmed(p.0) == p.0 && ascii_lower(p.0) == p.0 && trimmed(p.1) == p.1
    &&& p.0 != "font"@
    &&& forall|j: int| 0 <= j < p.0.len() ==> !css_special(#[trigger] p.0[j]) && p.0[j] != ':'
    &&& balanced(p.1)
}

proof fn lemma_piece(p: (Seq<char>, Seq<char>))
    requires
        plain_decl(p),
    ensures
        no_top_semicolon(p.0 + ":"@ + p.1, 0, None, 0),
        scan_end(p.0 + ":"@ + p.1, 0, None, 0) == (None::<char>, 0nat),
{
    reveal_strlit(":");
    let k = p.0 + ":"@;
    assert forall|j: int| 0 <= j < k.len() implies !css_special(#[trigger] k[j]) by {
        if j < p.0.len() {
            assert(k[j] == p.0[j]);
        }
    }
    lemma_scan_plain(k, 0);
    lemma_scan_concat(k, p.1, 0, None, 0);
}

proof fn lemma_css_split(s: Decls)
    requires
        s.len() > 0,
        forall|i: int| 0 <= i < s.len() ==> plain_decl(#[trigger] s[i]),
    ensures
        split_decls(css_of(s)) == decl_texts(s),
        scan_end(css_of(s), 0, None, 0) == (None::<char>, 0nat),
    decreases s.len(),
{
    reveal_strlit(":");
    reveal_strlit(";");
    let t = s.last().0 + ":"@ + s.last().1;
    lemma_piece(s.last());
    if s.len() == 1 {
        lemma_split_plain(t, 0, 0, None, 0);
        assert(t.subrange(0, t.len() as int) =~= t);
        assert(decl_texts(s) =~= seq![t]);
    } else {
        let x = css_of(s.drop_last());
        lemma_css_split(s.drop_last());
        assert(css_of(s) =~= x + ";"@ + t);
        lemma_split_concat(x, t, 0, 0, None, 0);
        let full = x + ";"@ + t;
        assert(full == (x + ";"@) + t);
        lemma_scan_shift(x + ";"@, t, 0, None, 0);
        lemma_split_plain(full, x.len() + 1int, x.len() + 1int, None, 0);
        assert(full.subrange(x.len() + 1int, full.len() as int) =~= t);
        assert(decl_texts(s) =~= decl_texts(s.drop_last()).push(t));
        lemma_scan_concat(x + ";"@, t, 0, None, 0);
        lemma_scan_concat(x, ";"@, 0, None, 0);
        assert((";"@)[0] == ';');
        assert(scan_end(";"@, 1, None, 0) == (None::<char>, 0nat));
    }
}

proof fn lemma_decl_parts_plain(p: (Seq<char>, Seq<char>))
    requires
        plain_decl(p),
    ensures
        decl_parts(p.0 + ":"@ + p.1) == Some(p),
{
    reveal_strlit(":");
    let t = p.0 + ":"@ + p.1;
    crate::xml::lemma_find_char(t, 0, ':');
    assert forall|j: int| 0 <= j < p.0.len() implies t[j] != ':' by {
        assert(t[j] == p.0[j]);
    }
    assert(t[p.0.len() as int] == ':');
    assert(find_char(t, 0, ':') == p.0.len());
    assert(t.subrange(0, p.0.len() as int) =~= p.0);
    assert(t.subrange(p.0.len() + 1int, t.len() as int) =~= p.1);
}

proof fn lemma_parsed_texts(s: Decls)
    requires
        names_distinct(s),
        forall|i: int| 0 <= i < s.len() ==> plain_decl(#[trigger] s[i]),
    ensures
        parsed_decls(decl_texts(s)) == s,
    decreases s.len(),
{
    if s.len() > 0 {
        let p = s.last();
        let prev = s.drop_last();
        assert(decl_texts(s).drop_last() =~= decl_texts(prev));
        assert(decl_texts(s).last() == p.0 + ":"@ + p.1);
        lemma_parsed_texts(prev);
        lemma_decl_parts_plain(p);
        lemma_decl_pos(prev, p.0);
        assert forall|j: int| 0 <= j < prev.len() implies prev[j].0 != p.0 by {
            assert(s[j] == prev[j]);
        }
        assert(decl_pos(prev, p.0) == -1);
        assert(prev.push(p) =~= s);
    }
}

/// What `to_css` writes, `parse` reads back: a style whose declarations have distinct plain
/// names and values (see `plain_decl`) survives writing and reading unchanged.
pub proof fn law_css_round_trip(s: Decls)
    requires
        names_distinct(s),
        forall|i: int| 0 <= i < s.len() ==> plain_decl(#[trigger] s[i]),
    ensures
        style_parsed(css_of(s)) == s,
{
    if s.len() == 0 {
        let e = Seq::<char>::empty();
        assert(css_of(s) == e);
        assert(e.subrange(0, 0) =~= e);
        assert(split_decls(e) == seq![e]);
        assert(find_char(e, 0, ':') == -1);
        assert(decl_parts(e) is None);
        assert(seq![e].drop_last() =~= Seq::<Seq<char>>::empty());
        assert(parsed_decls(seq![e]) == parsed_decls(Seq::<Seq<char>>::empty()));
        assert(s =~= Seq::<(Seq<char>, Seq<char>)>::empty());
    } else {
        lemma_css_split(s);
        lemma_parsed_texts(s);
    }
}

} // verus!
