//! Command-line contract with Inkscape: every `.inx` parameter arrives as `--name=value`
//! (booleans as `true`/`false`), each selected object as `--id=ID`, and the input path last.
use vstd::prelude::*;
use crate::strs::str_eq;
use crate::style::{ascii_lower, to_ascii_lowercase};
use crate::xml::{trim, trimmed};

verus! {

/// The tools this binary runs, named on the command line in kebab case (`text-ghoster`, ...).
#[derive(Debug, Clone, Copy, PartialEq, Eq, Structural)]
pub enum ToolName {
    Flattener,
    Scaler,
    Homogenizer,
    TextGhoster,
    CombineByColor,
    FavoriteMarkers,
    About,
    FontProbe,
    TextHighlight,
    TextFix,
}

/// Arguments every tool accepts; paths are kept as the strings they were given as.
pub struct Common {
    pub tool: ToolName,
    /// Selected object ids, in Inkscape's selection order.
    pub ids: Vec<String>,
    /// `id:subpath:node` triples; accepted, unused.
    pub selected_nodes: Vec<String>,
    /// Write the result here instead of stdout (`-` = stdout).
    pub output: Option<String>,
    /// Append timing lines to this file.
    pub log: Option<String>,
    /// Input SVG; stdin when absent.
    pub input: Option<String>,
}

/// The word an `.inx` boolean is read from: trimmed, ASCII letters lower-cased.
pub open spec fn inx_word(s: Seq<char>) -> Seq<char> {
    ascii_lower(trimmed(s))
}

/// What an `.inx` boolean means: `true`/`1`/`yes` and `false`/`0`/`no` in any ASCII case, with
/// whitespace around; anything else is refused with a message that quotes the word.
pub open spec fn inx_bool_spec(s: Seq<char>) -> Result<bool, Seq<char>> {
    let w = inx_word(s);
    if w == "true"@ || w == "1"@ || w == "yes"@ {
        Ok(true)
    } else if w == "false"@ || w == "0"@ || w == "no"@ {
        Ok(false)
    } else {
        Err("expected true/false, got '"@ + w + "'"@)
    }
}

/// Parses an `.inx` boolean. Inkscape sends `true`/`false`; other front ends send `True`.
pub fn inx_bool(s: &str) -> (r: Result<bool, String>)
    ensures
        match r {
            Ok(b) => inx_bool_spec(s@) == Ok::<bool, Seq<char>>(b),
            Err(m) => inx_bool_spec(s@) == Err::<bool, Seq<char>>(m@),
        },
{
    let t = trim(s);
    let w = to_ascii_lowercase(t.as_str());
    let w = w.as_str();
    if str_eq(w, "true") || str_eq(w, "1") || str_eq(w, "yes") {
        Ok(true)
    } else if str_eq(w, "false") || str_eq(w, "0") || str_eq(w, "no") {
        Ok(false)
    } else {
        let mut m = String::from_str("expected true/false, got '");
        m.append(w);
        m.append("'");
        Err(m)
    }
}

/// The few arguments `main` needs before any tool has parsed the command line.
pub struct Prescan {
    pub tool: Option<String>,
    pub input: Option<String>,
    pub output: Option<String>,
    pub log: Option<String>,
}

/// The view of a `Prescan`: tool, input, output, log.
pub struct PrescanV {
    pub tool: Option<Seq<char>>,
    pub input: Option<Seq<char>>,
    pub output: Option<Seq<char>>,
    pub log: Option<Seq<char>>,
}

pub open spec fn opt_view(o: Option<String>) -> Option<Seq<char>> {
    match o {
        Some(s) => Some(s@),
        None => None,
    }
}

impl Prescan {
    pub open spec fn view(&self) -> PrescanV {
        PrescanV {
            tool: opt_view(self.tool),
            input: opt_view(self.input),
            output: opt_view(self.output),
            log: opt_view(self.log),
        }
    }
}

/// Position of the first `=` in `a`, or `a.len()`.
pub open spec fn eq_pos(a: Seq<char>, i: int) -> int
    decreases a.len() - i,
{
    if i >= a.len() {
        a.len() as int
    } else if a[i] == '=' {
        i
    } else {
        eq_pos(a, i + 1)
    }
}

pub open spec fn starts_dashdash(k: Seq<char>) -> bool {
    k.len() >= 2 && k[0] == '-' && k[1] == '-'
}

/// An argument split into its key and, for `--key=value`, the value written inline.
pub open spec fn key_and_inline(a: Seq<char>) -> (Seq<char>, Option<Seq<char>>) {
    let k = eq_pos(a, 0);
    if k < a.len() && starts_dashdash(a.subrange(0, k)) {
        (a.subrange(0, k), Some(a.subrange(k + 1, a.len() as int)))
    } else {
        (a, None)
    }
}

/// The keys that take a value.
pub open spec fn takes_value(key: Seq<char>) -> bool {
    key == "--tool"@ || key == "--output"@ || key == "-o"@ || key == "--log"@
}

/// `p` with the value `v` recorded under `key`.
pub open spec fn recorded(p: PrescanV, key: Seq<char>, v: Option<Seq<char>>) -> PrescanV {
    if key == "--tool"@ {
        PrescanV { tool: v, ..p }
    } else if key == "--output"@ || key == "-o"@ {
        PrescanV { output: v, ..p }
    } else {
        PrescanV { log: v, ..p }
    }
}

/// The scan of `args` from position `i` on, starting from `p`: a key that takes a value takes the
/// inline one or else the next argument (none past the end); an argument that does not start with
/// `-` is the input, and the last one wins.
pub open spec fn scan_from(args: Seq<Seq<char>>, i: int, p: PrescanV) -> PrescanV
    decreases args.len() + 1 - i,
{
    if i < 0 || i >= args.len() {
        p
    } else {
        let a = args[i];
        let (key, inline) = key_and_inline(a);
        if takes_value(key) {
            match inline {
                Some(v) => scan_from(args, i + 1, recorded(p, key, Some(v))),
                None => {
                    let v = if i + 1 < args.len() {
                        Some(args[i + 1])
                    } else {
                        None
                    };
                    scan_from(args, i + 2, recorded(p, key, v))
                },
            }
        } else if a.len() == 0 || a[0] != '-' {
            scan_from(args, i + 1, PrescanV { input: Some(a), ..p })
        } else {
            scan_from(args, i + 1, p)
        }
    }
}

pub open spec fn args_view(v: Seq<String>) -> Seq<Seq<char>> {
    v.map_values(|s: String| s@)
}

pub open spec fn empty_prescan() -> PrescanV {
    PrescanV { tool: None, input: None, output: None, log: None }
}

fn eq_index(a: &Vec<char>) -> (r: usize)
    ensures
        r == eq_pos(a@, 0),
{
    let mut i: usize = 0;
    while i < a.len()
        invariant
            i <= a@.len(),
            eq_pos(a@, i as int) == eq_pos(a@, 0),
        decreases a@.len() - i,
    {
        if a[i] == '=' {
            return i;
        }
        i = i + 1;
    }
    i
}

/// Splits `a` into its key and inline value.
fn split_arg(a: &str) -> (r: (String, Option<String>))
    ensures
        r.0@ == key_and_inline(a@).0,
        opt_view(r.1) == key_and_inline(a@).1,
{
    let cs = crate::strs::chars_of(a);
    let k = eq_index(&cs);
    if k < cs.len() && k >= 2 && cs[0] == '-' && cs[1] == '-' {
        let key = crate::strs::string_from(crate::strs::slice_range(cs.as_slice(), 0, k));
        let v = crate::strs::string_from(crate::strs::slice_range(cs.as_slice(), k + 1, cs.len()));
        (key, Some(v))
    } else {
        (a.to_owned(), None)
    }
}

/// Lenient scan of the command line (the program name first) for `--tool`, `--output`/`-o`,
/// `--log` (as `--k=v` or `--k v`) and the last bare argument, the input path. Never fails.
pub fn prescan(argv: &[String]) -> (r: Prescan)
    ensures
        argv@.len() == 0 ==> r@ == empty_prescan(),
        argv@.len() > 0 ==> r@ == scan_from(args_view(argv@).skip(1), 0, empty_prescan()),
{
    let mut p = Prescan { tool: None, input: None, output: None, log: None };
    if argv.len() == 0 {
        return p;
    }
    let ghost args = args_view(argv@).skip(1);
    let n = argv.len();
    let mut i: usize = 1;
    while i < n
        invariant
            n == argv@.len(),
            args == args_view(argv@).skip(1),
            1 <= i <= n,
            scan_from(args, i - 1, p@) == scan_from(args, 0, empty_prescan()),
        decreases n - i,
    {
        let a = argv[i].as_str();
        let ghost pv = p@;
        proof {
            assert(args.len() == n - 1);
            assert(args[i - 1] == a@);
        }
        let (key, inline) = split_arg(a);
        let k = key.as_str();
        let is_tool = str_eq(k, "--tool");
        let is_out = str_eq(k, "--output") || str_eq(k, "-o");
        let is_log = str_eq(k, "--log");
        let mut next = i + 1;
        if is_tool || is_out || is_log {
            let v = match inline {
                Some(v) => Some(v),
                None => {
                    if i + 1 < n {
                        next = i + 2;
                        proof {
                            assert(args[i as int] == argv@[i + 1]@);
                        }
                        Some(argv[i + 1].clone())
                    } else {
                        next = n;
                        None
                    }
                },
            };
            if is_tool {
                p.tool = v;
            } else if is_out {
                p.output = v;
            } else {
                p.log = v;
            }
        } else {
            let cs = crate::strs::chars_of(a);
            if cs.len() == 0 || cs[0] != '-' {
                p.input = Some(a.to_owned());
            }
        }
        proof {
            let (kk, inl) = key_and_inline(a@);
            assert(kk == k@);
            if takes_value(kk) {
                assert(is_tool || is_out || is_log);
                if inl is None && i + 1 >= n {
                    assert(scan_from(args, next - 1, p@) == p@);
                }
            }
            if takes_value(kk) {
                assert(scan_from(args, i - 1, pv) == match inl {
                    Some(v) => scan_from(args, i as int, recorded(pv, kk, Some(v))),
                    None => scan_from(args, i + 1, recorded(pv, kk, if i < args.len() { Some(args[i as int]) } else { None })),
                });
                if inl is Some {
                    assert(next == i + 1);
                    assert(p@ == recorded(pv, kk, inl));
                } else {
                    assert(p@ == recorded(pv, kk, if i < args.len() { Some(args[i as int]) } else { None }));
                }
            } else if a@.len() == 0 || a@[0] != '-' {
                assert(p@ == PrescanV { input: Some(a@), ..pv });
            } else {
                assert(p@ == pv);
            }
            assert(scan_from(args, i - 1, pv) == scan_from(args, next - 1, p@));
        }
        i = next;
    }
    p
}

} // verus!
