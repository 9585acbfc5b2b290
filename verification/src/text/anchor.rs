//! `text-anchor`: where a line's anchor point sits along its advance.
use vstd::prelude::*;
use crate::strs::str_eq;
use crate::xml::{trim, trimmed};

verus! {

#[derive(Debug, Clone, Copy, PartialEq, Eq, Structural)]
pub enum Anchor {
    Start,
    Middle,
    End,
}

/// The keyword of each anchor.
pub open spec fn anchor_name(a: Anchor) -> Seq<char> {
    match a {
        Anchor::Start => "start"@,
        Anchor::Middle => "middle"@,
        Anchor::End => "end"@,
    }
}

/// The anchor a trimmed keyword names.
pub open spec fn anchor_of(s: Seq<char>) -> Option<Anchor> {
    let t = trimmed(s);
    if t == "start"@ {
        Some(Anchor::Start)
    } else if t == "middle"@ {
        Some(Anchor::Middle)
    } else if t == "end"@ {
        Some(Anchor::End)
    } else {
        None
    }
}

impl Anchor {
    pub fn parse(s: &str) -> (r: Option<Anchor>)
        ensures
            r == anchor_of(s@),
    {
        let t = trim(s);
        let t = t.as_str();
        if str_eq(t, "start") {
            Some(Anchor::Start)
        } else if str_eq(t, "middle") {
            Some(Anchor::Middle)
        } else if str_eq(t, "end") {
            Some(Anchor::End)
        } else {
            None
        }
    }

    pub fn css(self) -> (r: &'static str)
        ensures
            r@ == anchor_name(self),
    {
        match self {
            Anchor::Start => "start",
            Anchor::Middle => "middle",
            Anchor::End => "end",
        }
    }
}

/// Reading back the keyword an anchor is written as gives the anchor.
pub proof fn law_anchor_roundtrip(a: Anchor)
    ensures
        anchor_of(anchor_name(a)) == Some(a),
{
    reveal_strlit("start");
    reveal_strlit("middle");
    reveal_strlit("end");
    let n = anchor_name(a);
    crate::xml::lemma_skip_ws(n, 0);
    crate::xml::lemma_rskip_ws(n, n.len() as int);
    assert(!crate::xml::is_ws(n[0]));
    assert(!crate::xml::is_ws(n[n.len() - 1]));
    assert(trimmed(n) =~= n);
}

} // verus!
