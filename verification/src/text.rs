//! Text: user-facing warnings, and the lxml-style view of a text element (runs of `.text` and
//! `.tail`), with whitespace clean-up.
use vstd::prelude::*;
use crate::style::strings_view;
use crate::sheet::contains_string;

pub mod anchor;
pub mod edit;
pub mod fontcache;
pub mod fonts;
pub mod kerning;
pub mod lines;
pub mod parse;
pub mod tree;
pub mod whitespace;
pub mod write;

verus! {

/// User-facing warnings collected while measuring or parsing, each once.
pub struct Warnings(pub Vec<String>);

/// `w` with `s` added unless it is already there.
pub open spec fn pushed_once(w: Seq<Seq<char>>, s: Seq<char>) -> Seq<Seq<char>> {
    if w.contains(s) {
        w
    } else {
        w.push(s)
    }
}

/// Warnings are kept each once: adding one keeps a list free of duplicates, and the warning is
/// then in it.
pub proof fn law_warnings_once(w: Seq<Seq<char>>, s: Seq<char>)
    requires
        w.no_duplicates(),
    ensures
        pushed_once(w, s).no_duplicates(),
        pushed_once(w, s).contains(s),
{
    if !w.contains(s) {
        let r = w.push(s);
        assert(r[w.len() as int] == s);
        assert forall|i: int, j: int| 0 <= i < r.len() && 0 <= j < r.len() && i != j implies r[i] != r[j] by {
            if i < w.len() && j < w.len() {
                assert(r[i] == w[i] && r[j] == w[j]);
            } else if i < w.len() {
                assert(r[i] == w[i]);
            } else if j < w.len() {
                assert(r[j] == w[j]);
            }
        }
    }
}

impl Warnings {
    pub fn new() -> (r: Warnings)
        ensures
            strings_view(r.0@) == Seq::<Seq<char>>::empty(),
    {
        let r = Warnings(Vec::new());
        assert(strings_view(r.0@) =~= Seq::<Seq<char>>::empty());
        r
    }

    /// Adds `s` unless it is already there.
    pub fn push(&mut self, s: &str)
        ensures
            strings_view(final(self).0@) == pushed_once(strings_view(old(self).0@), s@),
    {
        if !contains_string(&self.0, s) {
            let ghost o = strings_view(self.0@);
            self.0.push(s.to_owned());
            proof {
                assert(strings_view(self.0@) =~= o.push(s@));
            }
        }
    }
}

} // verus!
