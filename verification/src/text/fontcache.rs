//! The font cache's field escaping: a tab-separated line holds each text field with `\`, tab and
//! newline written as `\\`, `\t` and `\n`.
use vstd::prelude::*;
use crate::strs::{chars_of, push_char, str_eq};
use crate::text::fonts::FontStyle;

verus! {

broadcast use vstd::string::group_string_axioms;

/// How one character is written in a cache field.
pub open spec fn esc_char(c: char) -> Seq<char> {
    if c == '\\' {
        seq!['\\', '\\']
    } else if c == '\t' {
        seq!['\\', 't']
    } else if c == '\n' {
        seq!['\\', 'n']
    } else {
        seq![c]
    }
}

/// `s` as written in a cache field.
pub open spec fn esc_spec(s: Seq<char>) -> Seq<char>
    decreases s.len(),
{
    if s.len() == 0 {
        seq![]
    } else {
        esc_char(s[0]) + esc_spec(s.drop_first())
    }
}

/// The character an escape `\c` stands for.
pub open spec fn unesc_char(c: char) -> Option<char> {
    if c == '\\' {
        Some('\\')
    } else if c == 't' {
        Some('\t')
    } else if c == 'n' {
        Some('\n')
    } else {
        None
    }
}

/// A cache field read back; `None` for a lone `\` at the end or an unknown escape.
pub open spec fn unesc_spec(s: Seq<char>) -> Option<Seq<char>>
    decreases s.len(),
{
    if s.len() == 0 {
        Some(seq![])
    } else if s[0] != '\\' {
        match unesc_spec(s.drop_first()) {
            Some(r) => Some(seq![s[0]] + r),
            None => None,
        }
    } else if s.len() < 2 {
        None
    } else {
        match unesc_char(s[1]) {
            None => None,
            Some(e) => match unesc_spec(s.subrange(2, s.len() as int)) {
                Some(r) => Some(seq![e] + r),
                None => None,
            },
        }
    }
}

/// Writes `s` as a cache field.
pub fn esc(s: &str) -> (r: String)
    ensures
        r@ == esc_spec(s@),
{
    let cs = chars_of(s);
    let mut out = String::new();
    let mut i: usize = 0;
    proof {
        assert(cs@.subrange(0, cs@.len() as int) =~= cs@);
        assert(out@ + esc_spec(cs@) =~= esc_spec(cs@));
    }
    while i < cs.len()
        invariant
            cs@ == s@,
            i <= cs@.len(),
            out@ + esc_spec(cs@.subrange(i as int, cs@.len() as int)) == esc_spec(cs@),
        decreases cs@.len() - i,
    {
        let ghost rest = cs@.subrange(i as int, cs@.len() as int);
        proof {
            assert(rest.drop_first() =~= cs@.subrange(i + 1, cs@.len() as int));
        }
        let c = cs[i];
        let ghost before = out@;
        if c == '\\' {
            push_char(&mut out, '\\');
            push_char(&mut out, '\\');
        } else if c == '\t' {
            push_char(&mut out, '\\');
            push_char(&mut out, 't');
        } else if c == '\n' {
            push_char(&mut out, '\\');
            push_char(&mut out, 'n');
        } else {
            push_char(&mut out, c);
        }
        proof {
            assert(out@ =~= before + esc_char(c));
            assert(out@ + esc_spec(cs@.subrange(i + 1, cs@.len() as int)) =~= before + esc_spec(rest));
        }
        i = i + 1;
    }
    proof {
        assert(cs@.subrange(cs@.len() as int, cs@.len() as int) =~= Seq::<char>::empty());
        assert(out@ + Seq::<char>::empty() =~= out@);
    }
    out
}

/// Reads a cache field back; `None` when it holds a lone `\` at the end or an unknown escape.
pub fn unesc(s: &str) -> (r: Option<String>)
    ensures
        match r {
            Some(t) => unesc_spec(s@) == Some(t@),
            None => unesc_spec(s@) is None,
        },
{
    let cs = chars_of(s);
    let mut out = String::new();
    let mut i: usize = 0;
    proof {
        assert(cs@.subrange(0, cs@.len() as int) =~= cs@);
        match unesc_spec(cs@) {
            Some(r) => {
                assert(out@ + r =~= r);
            },
            None => {},
        }
    }
    while i < cs.len()
        invariant
            cs@ == s@,
            i <= cs@.len(),
            unesc_spec(cs@) == match unesc_spec(cs@.subrange(i as int, cs@.len() as int)) {
                Some(r) => Some(out@ + r),
                None => None,
            },
        decreases cs@.len() - i,
    {
        let ghost rest = cs@.subrange(i as int, cs@.len() as int);
        let ghost before = out@;
        let c = cs[i];
        if c != '\\' {
            proof {
                assert(rest.drop_first() =~= cs@.subrange(i + 1, cs@.len() as int));
                match unesc_spec(rest.drop_first()) {
                    Some(r) => {
                        assert(before + (seq![c] + r) =~= before.push(c) + r);
                    },
                    None => {},
                }
            }
            push_char(&mut out, c);
            i = i + 1;
        } else {
            if i + 1 >= cs.len() {
                return None;
            }
            let e = cs[i + 1];
            let u: char = if e == '\\' {
                '\\'
            } else if e == 't' {
                '\t'
            } else if e == 'n' {
                '\n'
            } else {
                return None;
            };
            proof {
                assert(rest[1] == e);
                assert(rest.subrange(2, rest.len() as int) =~= cs@.subrange(i + 2, cs@.len() as int));
                match unesc_spec(rest.subrange(2, rest.len() as int)) {
                    Some(r) => {
                        assert(before + (seq![u] + r) =~= before.push(u) + r);
                    },
                    None => {},
                }
            }
            push_char(&mut out, u);
            i = i + 2;
        }
    }
    proof {
        assert(cs@.subrange(cs@.len() as int, cs@.len() as int) =~= Seq::<char>::empty());
        assert(out@ + Seq::<char>::empty() =~= out@);
    }
    Some(out)
}

/// Reading back a written field gives the text that was written, whatever it holds.
pub proof fn law_unesc_esc(s: Seq<char>)
    ensures
        unesc_spec(esc_spec(s)) == Some(s),
    decreases s.len(),
{
    if s.len() > 0 {
        let c = s[0];
        let t = esc_spec(s.drop_first());
        law_unesc_esc(s.drop_first());
        let w = esc_char(c) + t;
        assert(esc_spec(s) == w);
        if c == '\\' || c == '\t' || c == '\n' {
            assert(w.subrange(2, w.len() as int) =~= t);
            assert(w[0] == '\\');
        } else {
            assert(w.drop_first() =~= t);
            assert(w[0] == c);
        }
        assert(seq![c] + s.drop_first() =~= s);
    }
}

pub open spec fn style_code_spec(s: FontStyle) -> u8 {
    match s {
        FontStyle::Normal => 0u8,
        FontStyle::Italic => 1u8,
        FontStyle::Oblique => 2u8,
    }
}

/// A style's code in the cache.
pub fn style_code(s: FontStyle) -> (r: u8)
    ensures
        r == style_code_spec(s),
{
    match s {
        FontStyle::Normal => 0,
        FontStyle::Italic => 1,
        FontStyle::Oblique => 2,
    }
}

pub open spec fn style_from_spec(c: Seq<char>) -> Option<FontStyle> {
    if c == "0"@ {
        Some(FontStyle::Normal)
    } else if c == "1"@ {
        Some(FontStyle::Italic)
    } else if c == "2"@ {
        Some(FontStyle::Oblique)
    } else {
        None
    }
}

/// The style a cache field names; `None` for anything but `0`, `1` and `2`.
pub fn style_from(c: &str) -> (r: Option<FontStyle>)
    ensures
        r == style_from_spec(c@),
{
    if str_eq(c, "0") {
        Some(FontStyle::Normal)
    } else if str_eq(c, "1") {
        Some(FontStyle::Italic)
    } else if str_eq(c, "2") {
        Some(FontStyle::Oblique)
    } else {
        None
    }
}

/// A style's code, written as its one digit, reads back as that style.
pub proof fn law_style_code_roundtrip(s: FontStyle)
    ensures
        style_from_spec(crate::strs::decimal(style_code_spec(s) as nat)) == Some(s),
{
    reveal_strlit("0");
    reveal_strlit("1");
    reveal_strlit("2");
    let n: nat = style_code_spec(s) as nat;
    assert(crate::strs::decimal(n) =~= seq![crate::strs::digit_char(n as int)]);
    match s {
        FontStyle::Normal => {
            assert(crate::strs::decimal(n) =~= "0"@);
        },
        FontStyle::Italic => {
            assert(crate::strs::decimal(n) =~= "1"@);
            assert("1"@[0] != "0"@[0]);
        },
        FontStyle::Oblique => {
            assert(crate::strs::decimal(n) =~= "2"@);
            assert("2"@[0] != "0"@[0]);
            assert("2"@[0] != "1"@[0]);
        },
    }
}

} // verus!
