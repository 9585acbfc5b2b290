//! Stylesheets: the selector subset exporters use (`*`, tag, `.class`, `#id`, compounds, comma
//! lists, descendant and child combinators), parsed from `<style>` text.
use vstd::prelude::*;
use crate::strs::{str_eq, chars_of, string_from, slice_range, is_alphanumeric, alphanumeric};
use crate::xml::{trimmed, trim, find_char};
use crate::style::{
    Style, Decls, split_declarations, split_decls, strings_view, decl_parts, important_split,
    strip_important, to_ascii_lowercase, ascii_lower, decl_applied,
};

verus! {

/// One compound selector: an optional tag, an optional id and any number of classes.
pub struct Compound {
    pub tag: Option<String>,
    pub id: Option<String>,
    pub classes: Vec<String>,
}

pub struct CompoundV {
    pub tag: Option<Seq<char>>,
    pub id: Option<Seq<char>>,
    pub classes: Seq<Seq<char>>,
}

pub open spec fn opt_view(o: Option<String>) -> Option<Seq<char>> {
    match o {
        Some(s) => Some(s@),
        None => None,
    }
}

impl View for Compound {
    type V = CompoundV;

    open spec fn view(&self) -> CompoundV {
        CompoundV { tag: opt_view(self.tag), id: opt_view(self.id), classes: strings_view(self.classes@) }
    }
}

pub open spec fn empty_compound() -> CompoundV {
    CompoundV { tag: None, id: None, classes: seq![] }
}

#[derive(PartialEq, Eq, Structural, Clone, Copy)]
pub enum Combinator {
    Descendant,
    Child,
}

/// A chain of compounds: `parts[k].1` relates `parts[k]` to `parts[k - 1]`; the first has none.
pub struct Selector {
    pub parts: Vec<(Compound, Option<Combinator>)>,
    /// (ids, classes, tags).
    pub specificity: (u128, u128, u128),
}

pub type PartsV = Seq<(CompoundV, Option<Combinator>)>;

pub open spec fn parts_view(p: Seq<(Compound, Option<Combinator>)>) -> PartsV {
    p.map_values(|x: (Compound, Option<Combinator>)| (x.0@, x.1))
}

pub struct SelectorV {
    pub parts: PartsV,
    pub specificity: (u128, u128, u128),
}

impl View for Selector {
    type V = SelectorV;

    open spec fn view(&self) -> SelectorV {
        SelectorV { parts: parts_view(self.parts@), specificity: self.specificity }
    }
}

/// One declaration of a rule: name, value, `!important`.
pub type SheetDecl = (Seq<char>, Seq<char>, bool);

pub open spec fn triples_view(v: Seq<(String, String, bool)>) -> Seq<SheetDecl> {
    v.map_values(|t: (String, String, bool)| (t.0@, t.1@, t.2))
}

pub struct Rule {
    pub selector: Selector,
    pub decls: Vec<(String, String, bool)>,
    pub order: usize,
    /// A lone `*` compound: matches every element.
    pub universal: bool,
}

pub struct RuleV {
    pub selector: SelectorV,
    pub decls: Seq<SheetDecl>,
    pub order: usize,
    pub universal: bool,
}

impl View for Rule {
    type V = RuleV;

    open spec fn view(&self) -> RuleV {
        RuleV { selector: self.selector@, decls: triples_view(self.decls@), order: self.order, universal: self.universal }
    }
}

pub open spec fn rules_view(v: Seq<Rule>) -> Seq<RuleV> {
    v.map_values(|r: Rule| r@)
}

/// A parsed stylesheet.
pub struct Stylesheet {
    pub rules: Vec<Rule>,
    /// The lone-`*` rules' declarations folded in source order (meaningful when
    /// `universal_folded`).
    pub universal_normal: Style,
    pub universal_important: Style,
    /// `order` of the first lone-`*` rule.
    pub universal_order: usize,
    /// Every rule of specificity (0,0,0) is a lone `*`, so those rules apply as one block.
    pub universal_folded: bool,
    /// Every property name the sheet declares.
    pub props: Vec<String>,
    /// Selectors that could not be represented plus `@` statements skipped whole.
    pub unsupported: usize,
}

pub struct SheetV {
    pub rules: Seq<RuleV>,
    pub universal_normal: Decls,
    pub universal_important: Decls,
    pub universal_order: usize,
    pub universal_folded: bool,
    pub props: Seq<Seq<char>>,
    pub unsupported: usize,
}

impl View for Stylesheet {
    type V = SheetV;

    open spec fn view(&self) -> SheetV {
        SheetV {
            rules: rules_view(self.rules@),
            universal_normal: self.universal_normal@,
            universal_important: self.universal_important@,
            universal_order: self.universal_order,
            universal_folded: self.universal_folded,
            props: strings_view(self.props@),
            unsupported: self.unsupported,
        }
    }
}

// ---------------------------------------------------------------------------------------------
// Comments and blocks

/// First `j >= i` where `a` is followed by `b` (-1 if none).
pub open spec fn find_pair(s: Seq<char>, i: int, a: char, b: char) -> int
    decreases s.len() - i,
{
    if i < 0 || i + 1 >= s.len() {
        -1
    } else if s[i] == a && s[i + 1] == b {
        i
    } else {
        find_pair(s, i + 1, a, b)
    }
}

pub proof fn lemma_find_pair(s: Seq<char>, i: int, a: char, b: char)
    requires
        0 <= i,
    ensures
        find_pair(s, i, a, b) == -1 || (i <= find_pair(s, i, a, b) && find_pair(s, i, a, b) + 1 < s.len()),
    decreases s.len() - i,
{
    if i + 1 < s.len() && !(s[i] == a && s[i + 1] == b) {
        lemma_find_pair(s, i + 1, a, b);
    }
}

/// `s` from `i` on with every `/* ... */` removed (an unterminated comment runs to the end).
pub open spec fn uncommented_from(s: Seq<char>, i: int) -> Seq<char>
    decreases s.len() - i,
{
    if i < 0 || i > s.len() {
        seq![]
    } else {
        let st = find_pair(s, i, '/', '*');
        if st < 0 {
            s.subrange(i, s.len() as int)
        } else {
            let e = find_pair(s, st + 2, '*', '/');
            if e < 0 || e < st + 2 {
                s.subrange(i, st)
            } else {
                s.subrange(i, st) + {
                    proof {
                        lemma_find_pair(s, i, '/', '*');
                        lemma_find_pair(s, st + 2, '*', '/');
                    }
                    uncommented_from(s, e + 2)
                }
            }
        }
    }
}

fn find_pair_exec(s: &Vec<char>, i: usize, a: char, b: char) -> (r: Option<usize>)
    ensures
        r matches Some(j) ==> j as int == find_pair(s@, i as int, a, b),
        r is None ==> find_pair(s@, i as int, a, b) == -1,
{
    let mut j = i;
    while j < s.len() && j + 1 < s.len()
        invariant
            i <= j,
            find_pair(s@, j as int, a, b) == find_pair(s@, i as int, a, b),
        decreases s@.len() - j,
    {
        if s[j] == a && s[j + 1] == b {
            return Some(j);
        }
        j = j + 1;
    }
    None
}

/// Removes `/* ... */` comments.
pub fn strip_comments(css: &str) -> (r: String)
    ensures
        r@ == uncommented_from(css@, 0),
{
    let cs = chars_of(css);
    let mut out = String::new();
    let mut i: usize = 0;
    loop
        invariant
            cs@ == css@,
            i <= cs@.len(),
            out@ + uncommented_from(cs@, i as int) == uncommented_from(cs@, 0),
        decreases cs@.len() - i,
    {
        proof {
            lemma_find_pair(cs@, i as int, '/', '*');
        }
        match find_pair_exec(&cs, i, '/', '*') {
            None => {
                out.append(string_from(slice_range(cs.as_slice(), i, cs.len())).as_str());
                return out;
            },
            Some(st) => {
                out.append(string_from(slice_range(cs.as_slice(), i, st)).as_str());
                proof {
                    lemma_find_pair(cs@, st + 2, '*', '/');
                }
                match find_pair_exec(&cs, st + 2, '*', '/') {
                    None => {
                        return out;
                    },
                    Some(e) => {
                        let n = cs.len();
                        proof {
                            assert(e + 1 < n);
                            assert(out@ + uncommented_from(cs@, e + 2) =~= uncommented_from(cs@, 0));
                        }
                        i = e + 2;
                    },
                }
            },
        }
    }
}

/// Index just past the `}` that closes the depth counted from `j` (or `s.len()`).
pub open spec fn block_end_from(s: Seq<char>, j: int, depth: int) -> int
    decreases s.len() - j,
{
    if j < 0 || j >= s.len() {
        s.len() as int
    } else if s[j] == '{' {
        block_end_from(s, j + 1, depth + 1)
    } else if s[j] == '}' {
        if depth - 1 == 0 {
            j + 1
        } else {
            block_end_from(s, j + 1, depth - 1)
        }
    } else {
        block_end_from(s, j + 1, depth)
    }
}

/// Index just past the `}` matching the `{` at `open` (or `s.len()`).
pub open spec fn block_end(s: Seq<char>, open: int) -> int {
    block_end_from(s, open, 0)
}

pub proof fn lemma_block_end_from(s: Seq<char>, j: int, depth: int)
    requires
        0 <= j <= s.len(),
    ensures
        j < block_end_from(s, j, depth) <= s.len() || (j == s.len() && block_end_from(s, j, depth) == s.len()),
    decreases s.len() - j,
{
    if j < s.len() {
        if s[j] == '{' {
            lemma_block_end_from(s, j + 1, depth + 1);
        } else if s[j] == '}' {
            if depth - 1 != 0 {
                lemma_block_end_from(s, j + 1, depth - 1);
            }
        } else {
            lemma_block_end_from(s, j + 1, depth);
        }
    }
}

fn skip_block(s: &Vec<char>, open: usize) -> (r: usize)
    requires
        open <= s@.len(),
    ensures
        r as int == block_end(s@, open as int),
{
    let mut depth: i128 = 0;
    let mut j = open;
    while j < s.len()
        invariant
            open <= j <= s@.len(),
            -(j as int) <= depth <= j as int,
            block_end_from(s@, j as int, depth as int) == block_end(s@, open as int),
        decreases s@.len() - j,
    {
        if s[j] == '{' {
            depth = depth + 1;
        } else if s[j] == '}' {
            depth = depth - 1;
            if depth == 0 {
                return j + 1;
            }
        }
        j = j + 1;
    }
    s.len()
}

// ---------------------------------------------------------------------------------------------
// Declarations of a rule

/// The declarations of a rule body: name lower-cased, value trimmed and split from a trailing
/// `!important`; declarations without `:` or with an empty name or value are dropped.
pub open spec fn sheet_decls(ds: Seq<Seq<char>>) -> Seq<SheetDecl>
    decreases ds.len(),
{
    if ds.len() == 0 {
        seq![]
    } else {
        let r = sheet_decls(ds.drop_last());
        match decl_parts(ds.last()) {
            None => r,
            Some((k, v0)) => {
                let (v, imp) = important_split(v0);
                if k.len() == 0 || v.len() == 0 {
                    r
                } else {
                    r.push((k, v, imp))
                }
            },
        }
    }
}

/// The declarations of a rule body.
pub fn parse_declarations(body: &str) -> (r: Vec<(String, String, bool)>)
    ensures
        triples_view(r@) == sheet_decls(split_decls(body@)),
{
    let ds = split_declarations(body);
    let ghost dv = strings_view(ds@);
    let mut out: Vec<(String, String, bool)> = Vec::new();
    let mut i: usize = 0;
    while i < ds.len()
        invariant
            dv == strings_view(ds@),
            dv == split_decls(body@),
            i <= ds@.len(),
            triples_view(out@) == sheet_decls(dv.subrange(0, i as int)),
        decreases ds@.len() - i,
    {
        proof {
            assert(dv.subrange(0, i + 1).drop_last() =~= dv.subrange(0, i as int));
            assert(dv[i as int] == ds@[i as int]@);
        }
        match crate::style::split_decl(ds[i].as_str()) {
            Some((k, v0)) => {
                let (v, imp) = strip_important(v0.as_str());
                if !k.as_str().is_empty() && !v.as_str().is_empty() {
                    let ghost o = triples_view(out@);
                    let ghost t = (k@, v@, imp);
                    out.push((k, v, imp));
                    proof {
                        assert(triples_view(out@) =~= o.push(t));
                    }
                }
            },
            None => {},
        }
        i = i + 1;
    }
    proof {
        assert(dv.subrange(0, ds@.len() as int) =~= dv);
    }
    out
}

// ---------------------------------------------------------------------------------------------
// Selectors

pub open spec fn is_ident_char(c: char) -> bool {
    alphanumeric(c) || c == '_' || c == '-'
}

/// End of the run of identifier characters starting at `i`.
pub open spec fn ident_end(s: Seq<char>, i: int) -> int
    decreases s.len() - i,
{
    if i < 0 || i >= s.len() {
        if i < 0 {
            0
        } else {
            s.len() as int
        }
    } else if is_ident_char(s[i]) {
        ident_end(s, i + 1)
    } else {
        i
    }
}

pub proof fn lemma_ident_end(s: Seq<char>, i: int)
    requires
        0 <= i <= s.len(),
    ensures
        i <= ident_end(s, i) <= s.len(),
    decreases s.len() - i,
{
    if i < s.len() && is_ident_char(s[i]) {
        lemma_ident_end(s, i + 1);
    }
}

/// The compounds of a selector text from position `i` on; `cur` is the compound being read,
/// `have` whether it has anything, `pending` the combinator before it. `None` for what is not
/// representable (attribute selectors, pseudo-classes, sibling combinators, a dangling
/// combinator).
pub open spec fn sel_from(s: Seq<char>, i: int, parts: PartsV, cur: CompoundV, have: bool, pending: Option<Combinator>) -> Option<PartsV>
    decreases s.len() - i,
{
    if i < 0 || i >= s.len() {
        if have {
            Some(parts.push((cur, pending)))
        } else if pending is Some && parts.len() > 0 {
            None
        } else {
            Some(parts)
        }
    } else {
        let c = s[i];
        if c == ' ' || c == '\t' || c == '\n' || c == '\r' {
            if have {
                sel_from(s, i + 1, parts.push((cur, pending)), empty_compound(), false, Some(Combinator::Descendant))
            } else {
                sel_from(s, i + 1, parts, cur, have, pending)
            }
        } else if c == '>' {
            if have {
                sel_from(s, i + 1, parts.push((cur, pending)), empty_compound(), false, Some(Combinator::Child))
            } else {
                sel_from(s, i + 1, parts, cur, false, Some(Combinator::Child))
            }
        } else if c == '*' {
            sel_from(s, i + 1, parts, cur, true, pending)
        } else if c == '.' || c == '#' {
            let e = ident_end(s, i + 1);
            if e <= i + 1 {
                None
            } else {
                let name = s.subrange(i + 1, e);
                let cur2 = if c == '.' {
                    CompoundV { classes: cur.classes.push(name), ..cur }
                } else {
                    CompoundV { id: Some(name), ..cur }
                };
                proof {
                    lemma_ident_end(s, i + 1);
                }
                sel_from(s, e, parts, cur2, true, pending)
            }
        } else if is_ident_char(c) {
            let e = ident_end(s, i + 1);
            if e <= i {
                None
            } else {
                proof {
                    lemma_ident_end(s, i + 1);
                }
                sel_from(s, e, parts, CompoundV { tag: Some(s.subrange(i, e)), ..cur }, true, pending)
            }
        } else {
            None
        }
    }
}

/// The compounds of a selector text; `None` when empty or not representable.
pub open spec fn selector_parts(s: Seq<char>) -> Option<PartsV> {
    if s.len() == 0 {
        None
    } else {
        match sel_from(s, 0, seq![], empty_compound(), false, None) {
            Some(p) => if p.len() == 0 {
                None
            } else {
                Some(p)
            },
            None => None,
        }
    }
}

/// (ids, classes, tags) summed over the compounds.
pub open spec fn specificity_of(p: PartsV) -> (int, int, int)
    decreases p.len(),
{
    if p.len() == 0 {
        (0, 0, 0)
    } else {
        let r = specificity_of(p.drop_last());
        let c = p.last().0;
        (
            r.0 + if c.id is Some { 1int } else { 0int },
            r.1 + c.classes.len(),
            r.2 + if c.tag is Some { 1int } else { 0int },
        )
    }
}

pub proof fn lemma_specificity_bound(p: PartsV)
    requires
        forall|k: int| 0 <= k < p.len() ==> (#[trigger] p[k]).0.classes.len() <= usize::MAX,
    ensures
        0 <= specificity_of(p).0 <= p.len(),
        0 <= specificity_of(p).1 <= p.len() * usize::MAX,
        0 <= specificity_of(p).2 <= p.len(),
    decreases p.len(),
{
    if p.len() > 0 {
        lemma_specificity_bound(p.drop_last());
        assert(p.last() == p[p.len() - 1]);
        assert((p.len() - 1) * usize::MAX + usize::MAX == p.len() * usize::MAX) by (nonlinear_arith);
    }
}

fn read_ident_end(s: &Vec<char>, i: usize) -> (r: usize)
    requires
        i <= s@.len(),
    ensures
        r as int == ident_end(s@, i as int),
        i <= r <= s@.len(),
{
    proof {
        lemma_ident_end(s@, i as int);
    }
    let mut j = i;
    while j < s.len() && (is_alphanumeric(s[j]) || s[j] == '_' || s[j] == '-')
        invariant
            i <= j <= s@.len(),
            ident_end(s@, j as int) == ident_end(s@, i as int),
        decreases s@.len() - j,
    {
        j = j + 1;
    }
    j
}

fn take_compound(cur: &mut Compound) -> (r: Compound)
    ensures
        r@ == old(cur)@,
        final(cur)@ == empty_compound(),
{
    let r = Compound { tag: cur.tag.clone(), id: cur.id.clone(), classes: vec_clone(&cur.classes) };
    *cur = Compound { tag: None, id: None, classes: Vec::new() };
    proof {
        assert(strings_view(Seq::<String>::empty()) =~= Seq::<Seq<char>>::empty());
    }
    r
}

fn vec_clone(v: &Vec<String>) -> (r: Vec<String>)
    ensures
        strings_view(r@) == strings_view(v@),
{
    let mut out: Vec<String> = Vec::new();
    let mut i: usize = 0;
    while i < v.len()
        invariant
            i <= v@.len(),
            strings_view(out@) == strings_view(v@).subrange(0, i as int),
        decreases v@.len() - i,
    {
        let ghost o = strings_view(out@);
        let c = v[i].clone();
        out.push(c);
        proof {
            assert(strings_view(out@) =~= o.push(v@[i as int]@));
            assert(strings_view(v@).subrange(0, i + 1) =~= strings_view(v@).subrange(0, i as int).push(v@[i as int]@));
        }
        i = i + 1;
    }
    proof {
        assert(strings_view(v@).subrange(0, v@.len() as int) =~= strings_view(v@));
    }
    out
}

/// Parses one selector of a comma list; `None` when empty or not representable.
pub fn parse_selector(text: &str) -> (r: Option<Selector>)
    ensures
        match (r, selector_parts(text@)) {
            (Some(sel), Some(p)) => sel@.parts == p && sel@.specificity.0 == specificity_of(p).0
                && sel@.specificity.1 == specificity_of(p).1 && sel@.specificity.2 == specificity_of(p).2,
            (None, None) => true,
            _ => false,
        },
{
    let s = chars_of(text);
    if s.len() == 0 {
        return None;
    }
    let mut parts: Vec<(Compound, Option<Combinator>)> = Vec::new();
    let mut cur = Compound { tag: None, id: None, classes: Vec::new() };
    let mut have = false;
    let mut pending: Option<Combinator> = None;
    let mut i: usize = 0;
    proof {
        assert(strings_view(Seq::<String>::empty()) =~= Seq::<Seq<char>>::empty());
        assert(parts_view(parts@) =~= Seq::<(CompoundV, Option<Combinator>)>::empty());
    }
    while i < s.len()
        invariant
            s@ == text@,
            s@.len() > 0,
            i <= s@.len(),
            sel_from(s@, 0, seq![], empty_compound(), false, None) == sel_from(s@, i as int, parts_view(parts@), cur@, have, pending),
        decreases s@.len() - i,
    {
        let c = s[i];
        if c == ' ' || c == '\t' || c == '\n' || c == '\r' {
            if have {
                let ghost pv = parts_view(parts@);
                let ghost cv = cur@;
                let comp = take_compound(&mut cur);
                parts.push((comp, pending));
                proof {
                    assert(parts_view(parts@) =~= pv.push((cv, pending)));
                }
                have = false;
                pending = Some(Combinator::Descendant);
            }
            i = i + 1;
        } else if c == '>' {
            if have {
                let ghost pv = parts_view(parts@);
                let ghost cv = cur@;
                let comp = take_compound(&mut cur);
                parts.push((comp, pending));
                proof {
                    assert(parts_view(parts@) =~= pv.push((cv, pending)));
                }
                have = false;
            }
            pending = Some(Combinator::Child);
            i = i + 1;
        } else if c == '*' {
            have = true;
            i = i + 1;
        } else if c == '.' || c == '#' {
            let e = read_ident_end(&s, i + 1);
            if e <= i + 1 {
                return None;
            }
            let name = string_from(slice_range(s.as_slice(), i + 1, e));
            if c == '.' {
                let ghost cl = strings_view(cur.classes@);
                cur.classes.push(name);
                proof {
                    assert(strings_view(cur.classes@) =~= cl.push(s@.subrange(i + 1, e as int)));
                }
            } else {
                cur.id = Some(name);
            }
            have = true;
            i = e;
        } else if is_alphanumeric(c) || c == '_' || c == '-' {
            let e = read_ident_end(&s, i + 1);
            cur.tag = Some(string_from(slice_range(s.as_slice(), i, e)));
            have = true;
            i = e;
        } else {
            return None;
        }
    }
    if have {
        let ghost pv = parts_view(parts@);
        let ghost cv = cur@;
        parts.push((cur, pending));
        proof {
            assert(parts_view(parts@) =~= pv.push((cv, pending)));
        }
    } else if pending.is_some() && parts.len() > 0 {
        return None;
    }
    if parts.len() == 0 {
        return None;
    }
    let ghost pv = parts_view(parts@);
    let mut ids: u128 = 0;
    let mut classes: u128 = 0;
    let mut tags: u128 = 0;
    let mut k: usize = 0;
    while k < parts.len()
        invariant
            pv == parts_view(parts@),
            k <= parts@.len(),
            ids <= k,
            tags <= k,
            classes <= k * 0xffff_ffff_ffff_ffffu128,
            ids == specificity_of(pv.subrange(0, k as int)).0,
            classes == specificity_of(pv.subrange(0, k as int)).1,
            tags == specificity_of(pv.subrange(0, k as int)).2,
        decreases parts@.len() - k,
    {
        let ghost pre = pv.subrange(0, k + 1);
        proof {
            assert(pre.drop_last() =~= pv.subrange(0, k as int));
            assert(pre.last() == (parts@[k as int].0@, parts@[k as int].1));
        }
        let n = parts.len();
        let l = parts[k].0.classes.len();
        proof {
            assert(l as int == pre.last().0.classes.len());
            assert(k < n);
            assert((k as int) * 0xffff_ffff_ffff_ffffu128 + (l as int) <= ((k + 1) as int) * 0xffff_ffff_ffff_ffffu128) by (nonlinear_arith)
                requires
                    l <= 0xffff_ffff_ffff_ffffu128,
            ;
            assert(((k + 1) as int) * 0xffff_ffff_ffff_ffffu128 <= 0xffff_ffff_ffff_ffffu128 * 0xffff_ffff_ffff_ffffu128) by (nonlinear_arith)
                requires
                    k + 1 <= 0xffff_ffff_ffff_ffffu128,
            ;
        }
        if parts[k].0.id.is_some() {
            ids = ids + 1;
        }
        classes = classes + l as u128;
        if parts[k].0.tag.is_some() {
            tags = tags + 1;
        }
        k = k + 1;
    }
    proof {
        assert(pv.subrange(0, parts@.len() as int) =~= pv);
    }
    Some(Selector { parts, specificity: (ids, classes, tags) })
}

// ---------------------------------------------------------------------------------------------
// Whole sheets

pub open spec fn is_ascii_ws(c: char) -> bool {
    c == ' ' || c == '\t' || c == '\n' || c == '\x0C' || c == '\r'
}

/// First index at or after `i` that is no ASCII whitespace.
pub open spec fn skip_ascii_ws(s: Seq<char>, i: int) -> int
    decreases s.len() - i,
{
    if i < 0 || i >= s.len() {
        if i < 0 {
            0
        } else {
            s.len() as int
        }
    } else if is_ascii_ws(s[i]) {
        skip_ascii_ws(s, i + 1)
    } else {
        i
    }
}

pub proof fn lemma_skip_ascii_ws(s: Seq<char>, i: int)
    requires
        0 <= i <= s.len(),
    ensures
        i <= skip_ascii_ws(s, i) <= s.len(),
    decreases s.len() - i,
{
    if i < s.len() && is_ascii_ws(s[i]) {
        lemma_skip_ascii_ws(s, i + 1);
    }
}

/// First index at or after `i` holding `;` or `{` (`s.len()` if none).
pub open spec fn statement_end(s: Seq<char>, i: int) -> int
    decreases s.len() - i,
{
    if i < 0 || i >= s.len() {
        if i < 0 {
            0
        } else {
            s.len() as int
        }
    } else if s[i] == ';' || s[i] == '{' {
        i
    } else {
        statement_end(s, i + 1)
    }
}

pub proof fn lemma_statement_end(s: Seq<char>, i: int)
    requires
        0 <= i <= s.len(),
    ensures
        i <= statement_end(s, i) <= s.len(),
    decreases s.len() - i,
{
    if i < s.len() && !(s[i] == ';' || s[i] == '{') {
        lemma_statement_end(s, i + 1);
    }
}

/// `s` split at every `,`, from position `i` on, the current piece having started at `start`.
pub open spec fn commas_from(s: Seq<char>, i: int, start: int) -> Seq<Seq<char>>
    decreases s.len() - i,
{
    if i < 0 || i >= s.len() {
        seq![s.subrange(start, s.len() as int)]
    } else if s[i] == ',' {
        seq![s.subrange(start, i)] + commas_from(s, i + 1, i + 1)
    } else {
        commas_from(s, i + 1, start)
    }
}

pub open spec fn split_commas(s: Seq<char>) -> Seq<Seq<char>> {
    commas_from(s, 0, 0)
}

/// The parse so far: the rules and the count of what was skipped.
pub struct SheetAcc {
    pub rules: Seq<RuleV>,
    pub unsupported: nat,
}

/// One rule per representable selector of the comma list, each with the body's declarations;
/// every other non-empty selector counts as unsupported.
pub open spec fn rules_from(sels: Seq<Seq<char>>, decls: Seq<SheetDecl>, acc: SheetAcc) -> SheetAcc
    decreases sels.len(),
{
    if sels.len() == 0 {
        acc
    } else {
        let a = rules_from(sels.drop_last(), decls, acc);
        let t = trimmed(sels.last());
        match selector_parts(t) {
            Some(p) => SheetAcc {
                rules: a.rules.push(
                    RuleV {
                        selector: SelectorV {
                            parts: p,
                            specificity: (
                                specificity_of(p).0 as u128,
                                specificity_of(p).1 as u128,
                                specificity_of(p).2 as u128,
                            ),
                        },
                        decls: decls,
                        order: a.rules.len() as usize,
                        universal: false,
                    },
                ),
                ..a
            },
            None => if t.len() > 0 {
                SheetAcc { unsupported: a.unsupported + 1, ..a }
            } else {
                a
            },
        }
    }
}

/// The rules of the (comment-free) text from position `i` on.
pub open spec fn sheet_from(s: Seq<char>, i: int, acc: SheetAcc) -> SheetAcc
    decreases s.len() + 1 - i,
{
    if i < 0 || i > s.len() {
        acc
    } else {
        let i1 = skip_ascii_ws(s, i);
        if i1 >= s.len() {
            acc
        } else if s[i1] == '@' {
            let j = statement_end(s, i1);
            let i2 = if j < s.len() && s[j] == '{' {
                block_end(s, j)
            } else {
                j + 1
            };
            if i2 <= i {
                acc
            } else {
                proof {
                    lemma_skip_ascii_ws(s, i);
                    lemma_statement_end(s, i1);
                    if j < s.len() {
                        lemma_block_end_from(s, j, 0);
                    }
                }
                sheet_from(s, i2, SheetAcc { unsupported: acc.unsupported + 1, ..acc })
            }
        } else {
            let open = find_char(s, i1, '{');
            if open < 0 {
                acc
            } else {
                let close = block_end(s, open);
                let body_end = if close > open + 1 && s[close - 1] == '}' {
                    close - 1
                } else {
                    close
                };
                let decls = sheet_decls(split_decls(s.subrange(open + 1, body_end)));
                let acc2 = rules_from(split_commas(s.subrange(i1, open)), decls, acc);
                if close <= i {
                    acc
                } else {
                    proof {
                        lemma_skip_ascii_ws(s, i);
                        crate::xml::lemma_find_char(s, i1, '{');
                        lemma_block_end_from(s, open, 0);
                    }
                    sheet_from(s, close, acc2)
                }
            }
        }
    }
}


pub proof fn lemma_commas_len(s: Seq<char>, i: int, start: int)
    requires
        0 <= i <= s.len(),
    ensures
        commas_from(s, i, start).len() <= s.len() - i + 1,
    decreases s.len() - i,
{
    if i < s.len() {
        lemma_commas_len(s, i + 1, if s[i] == ',' { i + 1 } else { start });
    }
}

pub proof fn lemma_rules_from_counts(sels: Seq<Seq<char>>, decls: Seq<SheetDecl>, acc: SheetAcc)
    ensures
        rules_from(sels, decls, acc).unsupported <= acc.unsupported + sels.len(),
        rules_from(sels, decls, acc).rules.len() <= acc.rules.len() + sels.len(),
    decreases sels.len(),
{
    if sels.len() > 0 {
        lemma_rules_from_counts(sels.drop_last(), decls, acc);
    }
}

/// A rule is a lone `*`: one compound with no tag, id or class.
pub open spec fn is_universal(r: RuleV) -> bool {
    &&& r.selector.parts.len() == 1
    &&& r.selector.parts[0].0.tag is None
    &&& r.selector.parts[0].0.id is None
    &&& r.selector.parts[0].0.classes.len() == 0
}

pub open spec fn flagged(rules: Seq<RuleV>) -> Seq<RuleV> {
    rules.map_values(|r: RuleV| RuleV { universal: is_universal(r), ..r })
}

/// Every rule of specificity (0,0,0) is a lone `*`.
pub open spec fn all_zero_universal(rules: Seq<RuleV>) -> bool {
    forall|k: int| 0 <= k < rules.len() && #[trigger] rules[k].selector.specificity == (0u128, 0u128, 0u128)
        ==> is_universal(rules[k])
}

/// The declarations of one kind (`!important` or not) applied in order.
pub open spec fn applied_decls(st: Decls, ds: Seq<SheetDecl>, imp: bool) -> Decls
    decreases ds.len(),
{
    if ds.len() == 0 {
        st
    } else {
        let st1 = applied_decls(st, ds.drop_last(), imp);
        if ds.last().2 == imp {
            decl_applied(st1, ds.last().0, ds.last().1)
        } else {
            st1
        }
    }
}

/// The lone-`*` rules' declarations of one kind folded in source order.
pub open spec fn universal_decls(rules: Seq<RuleV>, imp: bool) -> Decls
    decreases rules.len(),
{
    if rules.len() == 0 {
        seq![]
    } else {
        let st = universal_decls(rules.drop_last(), imp);
        if rules.last().universal {
            applied_decls(st, rules.last().decls, imp)
        } else {
            st
        }
    }
}

/// `order` of the first lone-`*` rule.
pub open spec fn first_universal(rules: Seq<RuleV>) -> Option<usize>
    decreases rules.len(),
{
    if rules.len() == 0 {
        None
    } else {
        match first_universal(rules.drop_last()) {
            Some(o) => Some(o),
            None => if rules.last().universal {
                Some(rules.last().order)
            } else {
                None
            },
        }
    }
}

/// The names `ds` declare, added to `names` when new.
pub open spec fn names_added(names: Seq<Seq<char>>, ds: Seq<SheetDecl>) -> Seq<Seq<char>>
    decreases ds.len(),
{
    if ds.len() == 0 {
        names
    } else {
        let n = names_added(names, ds.drop_last());
        if n.contains(ds.last().0) {
            n
        } else {
            n.push(ds.last().0)
        }
    }
}

/// Every property name the rules declare, each once, in order of first appearance.
pub open spec fn declared_names(rules: Seq<RuleV>) -> Seq<Seq<char>>
    decreases rules.len(),
{
    if rules.len() == 0 {
        seq![]
    } else {
        names_added(declared_names(rules.drop_last()), rules.last().decls)
    }
}

/// The stylesheet `css` describes.
pub open spec fn parsed_sheet(css: Seq<char>) -> SheetV {
    let s = uncommented_from(css, 0);
    let acc = sheet_from(s, 0, SheetAcc { rules: seq![], unsupported: 0 });
    let rules = flagged(acc.rules);
    let folded = all_zero_universal(rules);
    SheetV {
        rules: rules,
        universal_normal: if folded {
            universal_decls(rules, false)
        } else {
            seq![]
        },
        universal_important: if folded {
            universal_decls(rules, true)
        } else {
            seq![]
        },
        universal_order: if folded {
            match first_universal(rules) {
                Some(o) => o,
                None => 0,
            }
        } else {
            0
        },
        universal_folded: folded,
        props: declared_names(rules),
        unsupported: acc.unsupported as usize,
    }
}

fn clone_decls(v: &Vec<(String, String, bool)>) -> (r: Vec<(String, String, bool)>)
    ensures
        triples_view(r@) == triples_view(v@),
{
    let mut out: Vec<(String, String, bool)> = Vec::new();
    let mut i: usize = 0;
    while i < v.len()
        invariant
            i <= v@.len(),
            triples_view(out@) == triples_view(v@).subrange(0, i as int),
        decreases v@.len() - i,
    {
        let ghost o = triples_view(out@);
        let t = (v[i].0.clone(), v[i].1.clone(), v[i].2);
        out.push(t);
        proof {
            assert(triples_view(out@) =~= o.push(triples_view(v@)[i as int]));
            assert(triples_view(v@).subrange(0, i + 1) =~= triples_view(v@).subrange(0, i as int).push(triples_view(v@)[i as int]));
        }
        i = i + 1;
    }
    proof {
        assert(triples_view(v@).subrange(0, v@.len() as int) =~= triples_view(v@));
    }
    out
}

/// `s` split at every `,`.
fn split_commas_exec(s: &Vec<char>, a: usize, b: usize) -> (r: Vec<String>)
    requires
        a <= b <= s@.len(),
    ensures
        strings_view(r@) == split_commas(s@.subrange(a as int, b as int)),
{
    let ghost t = s@.subrange(a as int, b as int);
    let mut out: Vec<String> = Vec::new();
    let mut start = a;
    let mut i = a;
    while i < b
        invariant
            a <= start <= i <= b,
            b <= s@.len(),
            t == s@.subrange(a as int, b as int),
            strings_view(out@) + commas_from(t, i - a, start - a) == split_commas(t),
        decreases b - i,
    {
        if s[i] == ',' {
            let piece = string_from(slice_range(s.as_slice(), start, i));
            let ghost o = strings_view(out@);
            out.push(piece);
            proof {
                assert(t[i - a] == s@[i as int]);
                assert(piece@ =~= t.subrange(start - a, i - a));
                assert(strings_view(out@) =~= o.push(piece@));
                assert(o + (seq![t.subrange(start - a, i - a)] + commas_from(t, i - a + 1, i - a + 1)) =~= o.push(piece@)
                    + commas_from(t, i - a + 1, i - a + 1));
            }
            start = i + 1;
        } else {
            proof {
                assert(t[i - a] == s@[i as int]);
            }
        }
        i = i + 1;
    }
    let piece = string_from(slice_range(s.as_slice(), start, b));
    let ghost o = strings_view(out@);
    out.push(piece);
    proof {
        assert(piece@ =~= t.subrange(start - a, t.len() as int));
        assert(strings_view(out@) =~= o.push(piece@));
        assert(o + seq![t.subrange(start - a, t.len() as int)] =~= o.push(piece@));
    }
    out
}

pub open spec fn acc_of(rules: Seq<Rule>, unsupported: usize) -> SheetAcc {
    SheetAcc { rules: rules_view(rules), unsupported: unsupported as nat }
}

/// Adds one rule per representable selector of the comma list.
fn add_rules(rules: &mut Vec<Rule>, unsupported: &mut usize, sels: &Vec<String>, decls: &Vec<(String, String, bool)>, Ghost(bound): Ghost<int>)
    requires
        *old(unsupported) + sels@.len() <= bound,
        bound <= usize::MAX,
    ensures
        acc_of(final(rules)@, *final(unsupported)) == rules_from(strings_view(sels@), triples_view(decls@), acc_of(old(rules)@, *old(unsupported))),
        *final(unsupported) <= bound,
{
    let ghost sv = strings_view(sels@);
    let ghost a0 = acc_of(rules@, *unsupported);
    let ghost u0 = *unsupported;
    let mut k: usize = 0;
    while k < sels.len()
        invariant
            sv == strings_view(sels@),
            k <= sels@.len(),
            u0 + sels@.len() <= bound,
            bound <= usize::MAX,
            *unsupported <= u0 + k,
            acc_of(rules@, *unsupported) == rules_from(sv.subrange(0, k as int), triples_view(decls@), a0),
        decreases sels@.len() - k,
    {
        proof {
            assert(sv.subrange(0, k + 1).drop_last() =~= sv.subrange(0, k as int));
            assert(sv[k as int] == sels@[k as int]@);
        }
        let t = trim(sels[k].as_str());
        match parse_selector(t.as_str()) {
            Some(sel) => {
                let order = rules.len();
                let ghost rv = rules_view(rules@);
                let r = Rule { selector: sel, decls: clone_decls(decls), order, universal: false };
                let ghost r_v = r@;
                rules.push(r);
                proof {
                    assert(rules_view(rules@) =~= rv.push(r_v));
                }
            },
            None => {
                if !t.as_str().is_empty() {
                    *unsupported = *unsupported + 1;
                }
            },
        }
        k = k + 1;
    }
    proof {
        assert(sv.subrange(0, sels@.len() as int) =~= sv);
    }
}

fn skip_ascii_ws_exec(s: &Vec<char>, i: usize) -> (r: usize)
    requires
        i <= s@.len(),
    ensures
        r as int == skip_ascii_ws(s@, i as int),
        i <= r <= s@.len(),
{
    proof {
        lemma_skip_ascii_ws(s@, i as int);
    }
    let mut j = i;
    while j < s.len() && (s[j] == ' ' || s[j] == '\t' || s[j] == '\n' || s[j] == '\x0C' || s[j] == '\r')
        invariant
            i <= j <= s@.len(),
            skip_ascii_ws(s@, j as int) == skip_ascii_ws(s@, i as int),
        decreases s@.len() - j,
    {
        j = j + 1;
    }
    j
}

/// Parses a stylesheet: comments removed, `@` statements and blocks skipped (and counted),
/// one rule per representable selector of each comma list.
pub fn parse_stylesheet(css: &str) -> (r: Stylesheet)
    ensures
        r@ == parsed_sheet(css@),
{
    let text = strip_comments(css);
    let s = chars_of(text.as_str());
    let ghost sv = s@;
    let mut rules: Vec<Rule> = Vec::new();
    let mut unsupported: usize = 0;
    let mut i: usize = 0;
    proof {
        assert(rules_view(rules@) =~= Seq::<RuleV>::empty());
    }
    while i < s.len()
        invariant
            sv == s@,
            sv == uncommented_from(css@, 0),
            i <= s@.len(),
            unsupported <= i,
            sheet_from(sv, 0, SheetAcc { rules: seq![], unsupported: 0 }) == sheet_from(sv, i as int, acc_of(rules@, unsupported)),
        ensures
            sheet_from(sv, 0, SheetAcc { rules: seq![], unsupported: 0 }) == acc_of(rules@, unsupported),
        decreases s@.len() + 1 - i,
    {
        let i1 = skip_ascii_ws_exec(&s, i);
        if i1 >= s.len() {
            break;
        }
        if s[i1] == '@' {
            proof {
                lemma_statement_end(sv, i1 as int);
            }
            let mut j = i1;
            while j < s.len() && s[j] != ';' && s[j] != '{'
                invariant
                    i1 <= j <= s@.len(),
                    statement_end(s@, j as int) == statement_end(s@, i1 as int),
                decreases s@.len() - j,
            {
                j = j + 1;
            }
            let i2 = if j < s.len() && s[j] == '{' {
                proof {
                    lemma_block_end_from(sv, j as int, 0);
                }
                skip_block(&s, j)
            } else if j < s.len() {
                j + 1
            } else {
                s.len()
            };
            let ghost a0 = acc_of(rules@, unsupported);
            unsupported = unsupported + 1;
            proof {
                let a1 = SheetAcc { unsupported: a0.unsupported + 1, ..a0 };
                assert(acc_of(rules@, unsupported) == a1);
                if j >= s.len() {
                    assert(sheet_from(sv, (s@.len() + 1) as int, a1) == a1);
                    assert(sheet_from(sv, s@.len() as int, a1) == a1);
                }
                assert(sheet_from(sv, i as int, a0) == sheet_from(sv, i2 as int, a1));
            }
            i = i2;
        } else {
            let mut open = i1;
            while open < s.len() && s[open] != '{'
                invariant
                    i1 <= open <= s@.len(),
                    find_char(s@, open as int, '{') == find_char(s@, i1 as int, '{'),
                decreases s@.len() - open,
            {
                open = open + 1;
            }
            if open >= s.len() {
                proof {
                    crate::xml::lemma_find_char(sv, i1 as int, '{');
                }
                break;
            }
            let close = skip_block(&s, open);
            proof {
                lemma_block_end_from(sv, open as int, 0);
            }
            let body_end = if close > open + 1 && s[close - 1] == '}' {
                close - 1
            } else {
                close
            };
            let body = string_from(slice_range(s.as_slice(), open + 1, body_end));
            let decls = parse_declarations(body.as_str());
            let sels = split_commas_exec(&s, i1, open);
            proof {
                lemma_commas_len(sv.subrange(i1 as int, open as int), 0, 0);
            }
            let ghost a0 = acc_of(rules@, unsupported);
            add_rules(&mut rules, &mut unsupported, &sels, &decls, Ghost(close as int));
            proof {
                assert(body@ == sv.subrange(open + 1, body_end as int));
                let a2 = rules_from(split_commas(sv.subrange(i1 as int, open as int)), sheet_decls(split_decls(sv.subrange(open + 1, body_end as int))), a0);
                assert(acc_of(rules@, unsupported) == a2);
                assert(sheet_from(sv, i as int, a0) == sheet_from(sv, close as int, a2));
            }
            i = close;
        }
    }
    finish_sheet(rules, unsupported)
}

/// Marks the lone-`*` rules, folds their declarations when the cascade allows it, and lists
/// the declared names.
fn finish_sheet(rules0: Vec<Rule>, unsupported: usize) -> (r: Stylesheet)
    ensures
        r@.rules == flagged(rules_view(rules0@)),
        r@.universal_folded == all_zero_universal(flagged(rules_view(rules0@))),
        r@.universal_normal == (if r@.universal_folded { universal_decls(r@.rules, false) } else { seq![] }),
        r@.universal_important == (if r@.universal_folded { universal_decls(r@.rules, true) } else { seq![] }),
        r@.universal_order == (if r@.universal_folded {
            match first_universal(r@.rules) {
                Some(o) => o,
                None => 0,
            }
        } else {
            0
        }),
        r@.props == declared_names(r@.rules),
        r@.unsupported == unsupported,
{
    let mut rules = rules0;
    let ghost rv0 = rules_view(rules0@);
    let mut folded = true;
    let mut props: Vec<String> = Vec::new();
    let mut k: usize = 0;
    while k < rules.len()
        invariant
            rv0 == rules_view(rules0@),
            rules@.len() == rv0.len(),
            k <= rules@.len(),
            forall|j: int| 0 <= j < k ==> rules_view(rules@)[j] == flagged(rv0)[j],
            forall|j: int| k <= j < rules@.len() ==> rules_view(rules@)[j] == rv0[j],
            folded == all_zero_universal(flagged(rv0).subrange(0, k as int)),
            strings_view(props@) == declared_names(flagged(rv0).subrange(0, k as int)),
        decreases rules@.len() - k,
    {
        let ghost before = rules_view(rules@);
        let u = {
            let p = &rules[k].selector.parts;
            p.len() == 1 && p[0].0.tag.is_none() && p[0].0.id.is_none() && p[0].0.classes.len() == 0
        };
        proof {
            assert(before[k as int] == rules@[k as int]@);
            assert(u == is_universal(rv0[k as int]));
        }
        rules[k].universal = u;
        proof {
            assert(rules_view(rules@) =~= before.update(k as int, flagged(rv0)[k as int]));
        }
        let sp = rules[k].selector.specificity;
        let ghost folded0 = folded;
        if sp.0 == 0 && sp.1 == 0 && sp.2 == 0 && !u {
            folded = false;
        }
        let ghost fr = flagged(rv0);
        proof {
            let fk = fr[k as int];
            assert(fk.selector == rv0[k as int].selector);
            assert(is_universal(fk) == u);
            assert(fk.selector.specificity == sp);
            let pre = fr.subrange(0, k as int);
            let pre1 = fr.subrange(0, k + 1);
            if folded {
                assert forall|j: int| 0 <= j < pre1.len() && #[trigger] pre1[j].selector.specificity == (0u128, 0u128, 0u128)
                    implies is_universal(pre1[j]) by {
                    if j < k {
                        assert(pre1[j] == pre[j]);
                    }
                }
            } else {
                if folded0 {
                    assert(pre1[k as int] == fk);
                } else {
                    let j = choose|j: int| 0 <= j < pre.len() && #[trigger] pre[j].selector.specificity == (0u128, 0u128, 0u128)
                        && !is_universal(pre[j]);
                    assert(pre1[j] == pre[j]);
                }
            }
        }
        proof {
            assert(fr.subrange(0, k + 1).drop_last() =~= fr.subrange(0, k as int));
            assert(fr[k as int].decls == triples_view(rules@[k as int].decls@));
        }
        let mut d: usize = 0;
        let ghost p0 = strings_view(props@);
        while d < rules[k].decls.len()
            invariant
                k < rules@.len(),
                d <= rules@[k as int].decls@.len(),
                strings_view(props@) == names_added(p0, triples_view(rules@[k as int].decls@).subrange(0, d as int)),
            decreases rules@[k as int].decls@.len() - d,
        {
            let ghost dv = triples_view(rules@[k as int].decls@);
            proof {
                assert(dv.subrange(0, d + 1).drop_last() =~= dv.subrange(0, d as int));
                assert(dv[d as int].0 == rules@[k as int].decls@[d as int].0@);
            }
            if !contains_string(&props, rules[k].decls[d].0.as_str()) {
                let ghost o = strings_view(props@);
                props.push(rules[k].decls[d].0.clone());
                proof {
                    assert(strings_view(props@) =~= o.push(dv[d as int].0));
                }
            }
            d = d + 1;
        }
        proof {
            let dv = triples_view(rules@[k as int].decls@);
            assert(dv.subrange(0, dv.len() as int) =~= dv);
        }
        k = k + 1;
    }
    proof {
        assert(rules_view(rules@) =~= flagged(rv0));
        assert(flagged(rv0).subrange(0, rules@.len() as int) =~= flagged(rv0));
        assert(rv0.subrange(0, rules@.len() as int) =~= rv0);
    }
    let ghost fr = rules_view(rules@);
    let mut normal = Style::new();
    let mut important = Style::new();
    let mut first: Option<usize> = None;
    if folded {
        let mut k: usize = 0;
        while k < rules.len()
            invariant
                fr == rules_view(rules@),
                k <= rules@.len(),
                normal@ == universal_decls(fr.subrange(0, k as int), false),
                important@ == universal_decls(fr.subrange(0, k as int), true),
                first == first_universal(fr.subrange(0, k as int)),
            decreases rules@.len() - k,
        {
            proof {
                assert(fr.subrange(0, k + 1).drop_last() =~= fr.subrange(0, k as int));
                assert(fr[k as int] == rules@[k as int]@);
            }
            if rules[k].universal {
                if first.is_none() {
                    first = Some(rules[k].order);
                }
                let ghost dv = triples_view(rules@[k as int].decls@);
                let ghost n0 = normal@;
                let ghost i0 = important@;
                let mut d: usize = 0;
                while d < rules[k].decls.len()
                    invariant
                        k < rules@.len(),
                        dv == triples_view(rules@[k as int].decls@),
                        d <= dv.len(),
                        normal@ == applied_decls(n0, dv.subrange(0, d as int), false),
                        important@ == applied_decls(i0, dv.subrange(0, d as int), true),
                    decreases dv.len() - d,
                {
                    proof {
                        assert(dv.subrange(0, d + 1).drop_last() =~= dv.subrange(0, d as int));
                        assert(dv[d as int] == (rules@[k as int].decls@[d as int].0@, rules@[k as int].decls@[d as int].1@, rules@[k as int].decls@[d as int].2));
                    }
                    if rules[k].decls[d].2 {
                        important.set_decl(rules[k].decls[d].0.as_str(), rules[k].decls[d].1.as_str());
                    } else {
                        normal.set_decl(rules[k].decls[d].0.as_str(), rules[k].decls[d].1.as_str());
                    }
                    d = d + 1;
                }
                proof {
                    assert(dv.subrange(0, dv.len() as int) =~= dv);
                }
            }
            k = k + 1;
        }
        proof {
            assert(fr.subrange(0, rules@.len() as int) =~= fr);
        }
    }
    let order = match first {
        Some(o) => o,
        None => 0,
    };
    Stylesheet {
        rules,
        universal_normal: normal,
        universal_important: important,
        universal_order: order,
        universal_folded: folded,
        props,
        unsupported,
    }
}

/// `v` holds a string equal to `s`.
pub fn contains_string(v: &Vec<String>, s: &str) -> (r: bool)
    ensures
        r == strings_view(v@).contains(s@),
{
    let mut i: usize = 0;
    while i < v.len()
        invariant
            i <= v@.len(),
            forall|j: int| 0 <= j < i ==> strings_view(v@)[j] != s@,
        decreases v@.len() - i,
    {
        if str_eq(v[i].as_str(), s) {
            assert(strings_view(v@)[i as int] == s@);
            return true;
        }
        i = i + 1;
    }
    false
}

impl Stylesheet {
    pub fn rule_count(&self) -> (r: usize)
        ensures
            r == self@.rules.len(),
    {
        self.rules.len()
    }

    /// How much of the sheet could not be analysed: a caller that needs to know whether it has
    /// seen the whole stylesheet checks this, not just `rule_count`.
    pub fn unsupported_rules(&self) -> (r: usize)
        ensures
            r == self@.unsupported,
    {
        self.unsupported
    }

    /// Every rule is a lone `*`: nothing can match one element and not another.
    pub fn only_universal_rules(&self) -> (r: bool)
        ensures
            r == (forall|k: int| 0 <= k < self@.rules.len() ==> #[trigger] self@.rules[k].universal),
    {
        let mut i: usize = 0;
        while i < self.rules.len()
            invariant
                i <= self.rules@.len(),
                forall|k: int| 0 <= k < i ==> #[trigger] self@.rules[k].universal,
            decreases self.rules@.len() - i,
        {
            proof {
                assert(self@.rules[i as int] == self.rules@[i as int]@);
            }
            if !self.rules[i].universal {
                assert(!self@.rules[i as int].universal);
                return false;
            }
            i = i + 1;
        }
        true
    }

    /// The sheet declares one of `props` (lower-case property names).
    pub fn declares_any(&self, props: &[&str]) -> (r: bool)
        ensures
            r == (exists|k: int| 0 <= k < props@.len() && self@.props.contains(#[trigger] props@[k]@)),
    {
        let mut i: usize = 0;
        while i < props.len()
            invariant
                i <= props@.len(),
                forall|k: int| 0 <= k < i ==> !self@.props.contains(#[trigger] props@[k]@),
            decreases props@.len() - i,
        {
            if contains_string(&self.props, props[i]) {
                return true;
            }
            i = i + 1;
        }
        false
    }
}

} // verus!
