//! Favorite Markers: the template store (a small SVG document of `<marker>` templates) and the
//! reading of a shape's markers as template data.
use vstd::prelude::*;
use crate::cleanup::{url_id, url_id_of};
use crate::dom::{Doc, DocV, DomError, DomErrorKind, NodeId, parse_result, AttrV, KindV, attrs_view, lemma_child, lemma_node_ok, lemma_subtree_valid, lemma_fresh_not_anc, known_uri, vec_contains, all_detached, lemma_detached_wf, lemma_anc_back, lemma_anc_f_sound, lemma_subtree_contains, lemma_subtree_members};
use crate::ops::clip::{lemma_chain_kept, lemma_chain_valid};
use crate::strs::{decimal, in_list, listed, push_decimal, str_eq};
use crate::style::{join, joined_with, strings_view, style_get};
use crate::cascade::specified_of;
use crate::tools::gather::{added_where, gathered};
use crate::tools::flattener::{all_valid, kept_where, lemma_kept_members, lemma_kept_valid};
use crate::xml::{trim, trimmed};
use vstd::string::StringSliceAdditionalSpecFns;

verus! {

pub const TEMPLATE_ATTR: &'static str = "sciink:template";
pub const POSITION_ATTR: &'static str = "sciink:position";
pub const POSITIONS: [&'static str; 3] = ["start", "mid", "end"];

/// The three built-in templates: Arrow, Triangle, Distance.
pub const BUILTINS: &'static str = r#"<svg xmlns="http://www.w3.org/2000/svg" xmlns:inkscape="http://www.inkscape.org/namespaces/inkscape" xmlns:sciink="https://github.com/Mr-Milk/sciink">
<marker sciink:template="Arrow" sciink:position="start" style="overflow:visible" refX="0.0" refY="0.0" orient="auto" inkscape:stockid="Arrow2Mstart" inkscape:isstock="true"><path transform="scale(0.6, 0.6)" d="M 8.7185878,4.0337352 L -2.2072895,0.016013256 L 8.7185884,-4.0017078 C 6.9730900,-1.6296469 6.9831476,1.6157441 8.7185878,4.0337352 z " style="stroke:context-stroke;fill-rule:evenodd;fill:context-stroke;stroke-width:0.62500000;stroke-linejoin:round"/></marker>
<marker sciink:template="Arrow" sciink:position="mid" style="overflow:visible" refX="0.0" refY="0.0" orient="auto" inkscape:stockid="Arrow2Mend" inkscape:isstock="true"><path transform="scale(-0.6, -0.6)" d="M 8.7185878,4.0337352 L -2.2072895,0.016013256 L 8.7185884,-4.0017078 C 6.9730900,-1.6296469 6.9831476,1.6157441 8.7185878,4.0337352 z " style="stroke:context-stroke;fill-rule:evenodd;fill:context-stroke;stroke-width:0.62500000;stroke-linejoin:round"/></marker>
<marker sciink:template="Arrow" sciink:position="end" style="overflow:visible" refX="0.0" refY="0.0" orient="auto" inkscape:stockid="Arrow2Mend" inkscape:isstock="true"><path transform="scale(-0.6, -0.6)" d="M 8.7185878,4.0337352 L -2.2072895,0.016013256 L 8.7185884,-4.0017078 C 6.9730900,-1.6296469 6.9831476,1.6157441 8.7185878,4.0337352 z " style="stroke:context-stroke;fill-rule:evenodd;fill:context-stroke;stroke-width:0.62500000;stroke-linejoin:round"/></marker>
<marker sciink:template="Triangle" sciink:position="start" style="overflow:visible" refX="0.0" refY="0.0" orient="auto" inkscape:stockid="TriangleInM" inkscape:isstock="true"><path transform="scale(-0.4, -0.4)" style="fill-rule:evenodd;fill:context-stroke;stroke:context-stroke;stroke-width:1.0pt" d="M 5.77,0.0 L -2.88,5.0 L -2.88,-5.0 L 5.77,0.0 z "/></marker>
<marker sciink:template="Triangle" sciink:position="mid" style="overflow:visible" refX="0.0" refY="0.0" orient="auto" inkscape:stockid="TriangleOutM" inkscape:isstock="true"><path transform="scale(0.4, 0.4)" style="fill-rule:evenodd;fill:context-stroke;stroke:context-stroke;stroke-width:1.0pt" d="M 5.77,0.0 L -2.88,5.0 L -2.88,-5.0 L 5.77,0.0 z "/></marker>
<marker sciink:template="Triangle" sciink:position="end" style="overflow:visible" refX="0.0" refY="0.0" orient="auto" inkscape:stockid="TriangleOutM" inkscape:isstock="true"><path transform="scale(0.4, 0.4)" style="fill-rule:evenodd;fill:context-stroke;stroke:context-stroke;stroke-width:1.0pt" d="M 5.77,0.0 L -2.88,5.0 L -2.88,-5.0 L 5.77,0.0 z "/></marker>
<marker sciink:template="Distance" sciink:position="start" inkscape:stockid="DistanceStart" orient="auto" refY="0.0" refX="0.0" style="overflow:visible" inkscape:isstock="true"><path d="M 0,0 L 2,0" style="fill:none;stroke:context-fill;stroke-width:1.15;stroke-linecap:square"/><path d="M 0,0 L 13,4 L 9,0 13,-4 L 0,0 z " style="fill:context-stroke;fill-rule:evenodd;stroke:none"/><path d="M 0,-4 L 0,40" style="fill:none;stroke:context-stroke;stroke-width:1;stroke-linecap:square"/></marker>
<marker sciink:template="Distance" sciink:position="mid" style="overflow:visible" refX="0.0" refY="0.0" orient="auto" inkscape:stockid="StopL" inkscape:isstock="true"><path transform="scale(0.8, 0.8)" style="fill:none;fill-opacity:0.75000000;fill-rule:evenodd;stroke:context-stroke;stroke-width:1.0pt" d="M 0.0,5.65 L 0.0,-5.65"/></marker>
<marker sciink:template="Distance" sciink:position="end" inkscape:stockid="DistanceEnd" orient="auto" refY="0.0" refX="0.0" style="overflow:visible" inkscape:isstock="true"><path d="M 0,0 L -2,0" style="fill:none;stroke:context-fill;stroke-width:1.15;stroke-linecap:square"/><path d="M 0,0 L -13,4 L -9,0 -13,-4 L 0,0 z " style="fill:context-stroke;fill-rule:evenodd;stroke:none"/><path d="M 0,-4 L 0,40" style="fill:none;stroke:context-stroke;stroke-width:1;stroke-linecap:square"/></marker>
</svg>
"#;

/// One marker of a template: its attributes and its paths' attributes, never an `id`.
pub struct MarkerData {
    pub attrs: Vec<(String, String)>,
    pub paths: Vec<Vec<(String, String)>>,
}

pub struct MarkerDataV {
    pub attrs: Seq<(Seq<char>, Seq<char>)>,
    pub paths: Seq<Seq<(Seq<char>, Seq<char>)>>,
}

pub open spec fn pairs_of(v: Seq<(String, String)>) -> Seq<(Seq<char>, Seq<char>)> {
    v.map_values(|p: (String, String)| (p.0@, p.1@))
}

impl View for MarkerData {
    type V = MarkerDataV;

    open spec fn view(&self) -> MarkerDataV {
        MarkerDataV {
            attrs: pairs_of(self.attrs@),
            paths: self.paths@.map_values(|p: Vec<(String, String)>| pairs_of(p@)),
        }
    }
}

/// The attributes not named in `skip`, as `(name, value)` pairs in order.
pub open spec fn attrs_except(attrs: Seq<AttrV>, skip: Seq<&'static str>) -> Seq<(Seq<char>, Seq<char>)>
    decreases attrs.len(),
{
    if attrs.len() == 0 {
        seq![]
    } else {
        let r = attrs_except(attrs.drop_last(), skip);
        if listed(skip, attrs.last().name) {
            r
        } else {
            r.push((attrs.last().name, attrs.last().value))
        }
    }
}

fn attrs_of(doc: &Doc, n: NodeId, skip: &[&'static str]) -> (r: Vec<(String, String)>)
    requires
        doc@.valid(n),
    ensures
        pairs_of(r@) == attrs_except(doc@.attrs(n), skip@),
{
    let attrs = doc.attrs(n);
    let mut out: Vec<(String, String)> = Vec::new();
    let mut i: usize = 0;
    while i < attrs.len()
        invariant
            attrs_view(attrs@) == doc@.attrs(n),
            i <= attrs@.len(),
            pairs_of(out@) == attrs_except(attrs_view(attrs@).subrange(0, i as int), skip@),
        decreases attrs@.len() - i,
    {
        let a = &attrs[i];
        proof {
            let av = attrs_view(attrs@);
            assert(av.subrange(0, i + 1).drop_last() =~= av.subrange(0, i as int));
            assert(av.subrange(0, i + 1).last() == a@);
        }
        if !in_list(skip, a.name.as_str()) {
            let ghost o = pairs_of(out@);
            out.push((a.name.clone(), a.value.clone()));
            proof {
                assert(pairs_of(out@) =~= o.push((a.name@, a.value@)));
            }
        }
        i = i + 1;
    }
    proof {
        assert(attrs_view(attrs@).subrange(0, attrs@.len() as int) =~= attrs_view(attrs@));
    }
    out
}

pub open spec fn is_path_el(d: DocV) -> spec_fn(NodeId) -> bool {
    |n: NodeId| d.is_element(n) && d.tag(n) == "path"@
}

/// The attributes (without `id`) of the `<path>` children of `p`, in order.
pub open spec fn path_attrs(d: DocV, p: NodeId) -> Seq<Seq<(Seq<char>, Seq<char>)>> {
    kept_where(d.children(p), is_path_el(d)).map_values(|k: NodeId| attrs_except(d.attrs(k), seq!["id"]))
}

fn path_attrs_exec(doc: &Doc, p: NodeId) -> (r: Vec<Vec<(String, String)>>)
    requires
        doc.wf(),
        doc@.valid(p),
    ensures
        r@.map_values(|v: Vec<(String, String)>| pairs_of(v@)) == path_attrs(doc@, p),
{
    let cs = doc.children(p);
    let mut out: Vec<Vec<(String, String)>> = Vec::new();
    let ghost ks = Seq::<NodeId>::empty();
    let mut i: usize = 0;
    while i < cs.len()
        invariant
            doc.wf(),
            doc@.valid(p),
            cs@ == doc@.children(p),
            i <= cs@.len(),
            ks == kept_where(cs@.subrange(0, i as int), is_path_el(doc@)),
            out@.map_values(|v: Vec<(String, String)>| pairs_of(v@)) == ks.map_values(|k: NodeId| attrs_except(doc@.attrs(k), seq!["id"])),
        decreases cs@.len() - i,
    {
        let c = cs[i];
        proof {
            lemma_child(doc@, p, i as int);
            assert(cs@.subrange(0, i + 1).drop_last() =~= cs@.subrange(0, i as int));
        }
        if doc.is_element(c) && str_eq(doc.tag(c), "path") {
            let skip: [&'static str; 1] = ["id"];
            let a = attrs_of(doc, c, &skip);
            proof {
                assert(skip@ =~= seq!["id"]);
            }
            let ghost o = out@.map_values(|v: Vec<(String, String)>| pairs_of(v@));
            out.push(a);
            proof {
                ks = ks.push(c);
                assert(out@.map_values(|v: Vec<(String, String)>| pairs_of(v@)) =~= o.push(pairs_of(a@)));
                assert(ks.map_values(|k: NodeId| attrs_except(doc@.attrs(k), seq!["id"])) =~= ks.drop_last().map_values(|k: NodeId| attrs_except(doc@.attrs(k), seq!["id"])).push(attrs_except(doc@.attrs(c), seq!["id"])));
            }
        }
        i = i + 1;
    }
    proof {
        assert(cs@.subrange(0, cs@.len() as int) =~= cs@);
    }
    out
}

// ---------------------------------------------------------------------------------------------
// The store

/// The template store: `<marker sciink:template sciink:position ...>` elements of one document.
pub struct Store {
    doc: Doc,
}

pub open spec fn is_marker_el(d: DocV) -> spec_fn(NodeId) -> bool {
    |n: NodeId| d.is_element(n) && d.tag(n) == "marker"@
}

/// The markers of the store, in document order.
pub open spec fn markers_of(d: DocV) -> Seq<NodeId> {
    kept_where(d.subtree(d.svg), is_marker_el(d))
}

/// Template names in order of first appearance.
pub open spec fn template_names(d: DocV, ms: Seq<NodeId>) -> Seq<Seq<char>>
    decreases ms.len(),
{
    if ms.len() == 0 {
        seq![]
    } else {
        let a = template_names(d, ms.drop_last());
        match d.attr(ms.last(), TEMPLATE_ATTR@) {
            Some(t) => if a.contains(t) {
                a
            } else {
                a.push(t)
            },
            None => a,
        }
    }
}

/// The index of the position a marker is stored under.
pub open spec fn position_index(d: DocV, m: NodeId) -> Option<int> {
    match d.attr(m, POSITION_ATTR@) {
        Some(p) => if p == POSITIONS[0]@ {
            Some(0)
        } else if p == POSITIONS[1]@ {
            Some(1)
        } else if p == POSITIONS[2]@ {
            Some(2)
        } else {
            None
        },
        None => None,
    }
}

/// A stored marker as template data.
pub open spec fn marker_data_of(d: DocV, m: NodeId) -> MarkerDataV {
    MarkerDataV {
        attrs: attrs_except(d.attrs(m), seq!["id", TEMPLATE_ATTR, POSITION_ATTR]),
        paths: path_attrs(d, m),
    }
}

/// The template `name` read from the markers `ms`: each position holds the data of the last
/// marker stored there.
pub open spec fn template_from(d: DocV, ms: Seq<NodeId>, name: Seq<char>) -> Seq<Option<MarkerDataV>>
    decreases ms.len(),
{
    if ms.len() == 0 {
        seq![None, None, None]
    } else {
        let t = template_from(d, ms.drop_last(), name);
        let m = ms.last();
        if d.attr(m, TEMPLATE_ATTR@) == Some(name) {
            match position_index(d, m) {
                Some(i) => t.update(i, Some(marker_data_of(d, m))),
                None => t,
            }
        } else {
            t
        }
    }
}

pub open spec fn has_template(d: DocV, ms: Seq<NodeId>, name: Seq<char>) -> bool {
    exists|i: int| 0 <= i < ms.len() && d.attr(#[trigger] ms[i], TEMPLATE_ATTR@) == Some(name)
}

/// A name is listed exactly when some marker carries it.
pub proof fn lemma_listed_iff_stored(d: DocV, ms: Seq<NodeId>, t: Seq<char>)
    ensures
        template_names(d, ms).contains(t) == has_template(d, ms, t),
    decreases ms.len(),
{
    if ms.len() > 0 {
        let p = ms.drop_last();
        lemma_listed_iff_stored(d, p, t);
        if has_template(d, p, t) {
            let i = choose|i: int| 0 <= i < p.len() && d.attr(#[trigger] p[i], TEMPLATE_ATTR@) == Some(t);
            assert(ms[i] == p[i]);
        }
        if has_template(d, ms, t) {
            let i = choose|i: int| 0 <= i < ms.len() && d.attr(#[trigger] ms[i], TEMPLATE_ATTR@) == Some(t);
            if i < ms.len() - 1 {
                assert(p[i] == ms[i]);
            }
        }
        let a = template_names(d, p);
        match d.attr(ms.last(), TEMPLATE_ATTR@) {
            Some(x) => {
                if !a.contains(x) {
                    assert(a.push(x)[a.len() as int] == x);
                    if a.push(x).contains(t) && t != x {
                        let k = choose|k: int| 0 <= k < a.push(x).len() && a.push(x)[k] == t;
                        assert(a[k] == t);
                    }
                    if a.contains(t) {
                        let k = choose|k: int| 0 <= k < a.len() && a[k] == t;
                        assert(a.push(x)[k] == t);
                    }
                }
                if t == x {
                    assert(ms[ms.len() - 1] == ms.last());
                }
            },
            None => {},
        }
    }
}

pub open spec fn opt_marker_view(o: Option<MarkerData>) -> Option<MarkerDataV> {
    match o {
        Some(m) => Some(m@),
        None => None,
    }
}

/// The markers of template `name`, in document order.
pub open spec fn named_markers(d: DocV, name: Seq<char>) -> Seq<NodeId> {
    kept_where(markers_of(d), |m: NodeId| d.attr(m, TEMPLATE_ATTR@) == Some(name))
}


impl Store {
    /// The store's document.
    pub closed spec fn view(&self) -> DocV {
        self.doc@
    }

    pub closed spec fn well_formed(&self) -> bool {
        self.doc.wf()
    }

    /// The store holding the built-in templates.
    pub fn builtins() -> (r: Result<Store, DomError>)
        ensures
            match (r, parse_result(BUILTINS.spec_bytes())) {
                (Ok(s), Ok(dv)) => s.well_formed() && s@ == dv,
                (Err(e), Err(k)) => e.kind() == k,
                _ => false,
            },
    {
        match Doc::parse(BUILTINS.as_bytes()) {
            Ok(doc) => Ok(Store { doc }),
            Err(e) => Err(e),
        }
    }

    /// A store over an existing document.
    pub fn from_doc(doc: Doc) -> (r: Store)
        ensures
            r@ == doc@,
            r.well_formed() == doc.wf(),
    {
        Store { doc }
    }

    /// The document the store is kept in.
    pub fn doc(&self) -> (r: &Doc)
        ensures
            r@ == self@,
            r.wf() == self.well_formed(),
    {
        &self.doc
    }

    fn markers(&self) -> (r: Vec<NodeId>)
        requires
            self.well_formed(),
        ensures
            r@ == markers_of(self@),
            all_valid(self@, r@),
    {
        let doc = &self.doc;
        let ds = doc.descendants(doc.svg());
        proof {
            lemma_subtree_valid(doc@, doc@.svg);
        }
        let mut out: Vec<NodeId> = Vec::new();
        let mut i: usize = 0;
        while i < ds.len()
            invariant
                doc.wf(),
                ds@ == doc@.subtree(doc@.svg),
                forall|k: int| 0 <= k < ds@.len() ==> doc@.valid(#[trigger] ds@[k]),
                i <= ds@.len(),
                out@ == kept_where(ds@.subrange(0, i as int), is_marker_el(doc@)),
                all_valid(doc@, out@),
            decreases ds@.len() - i,
        {
            proof {
                assert(ds@.subrange(0, i + 1).drop_last() =~= ds@.subrange(0, i as int));
                assert(doc@.valid(ds@[i as int]));
            }
            let n = ds[i];
            if doc.is_element(n) && str_eq(doc.tag(n), "marker") {
                out.push(n);
            }
            i = i + 1;
        }
        proof {
            assert(ds@.subrange(0, ds@.len() as int) =~= ds@);
        }
        out
    }

    /// Template names in order of first appearance.
    pub fn templates(&self) -> (r: Vec<String>)
        requires
            self.well_formed(),
        ensures
            strings_view(r@) == template_names(self@, markers_of(self@)),
    {
        let ms = self.markers();
        let mut out: Vec<String> = Vec::new();
        let mut i: usize = 0;
        while i < ms.len()
            invariant
                self.well_formed(),
                ms@ == markers_of(self@),
                all_valid(self@, ms@),
                i <= ms@.len(),
                strings_view(out@) == template_names(self@, ms@.subrange(0, i as int)),
            decreases ms@.len() - i,
        {
            proof {
                assert(ms@.subrange(0, i + 1).drop_last() =~= ms@.subrange(0, i as int));
                assert(self@.valid(ms@[i as int]));
            }
            if let Some(t) = self.doc.attr(ms[i], TEMPLATE_ATTR) {
                if !crate::sheet::contains_string(&out, t) {
                    let ghost o = strings_view(out@);
                    out.push(t.to_owned());
                    proof {
                        assert(strings_view(out@) =~= o.push(t@));
                    }
                }
            }
            i = i + 1;
        }
        proof {
            assert(ms@.subrange(0, ms@.len() as int) =~= ms@);
        }
        out
    }

    /// The template `name`, start/mid/end; `None` when no marker carries that name.
    pub fn get(&self, name: &str) -> (r: Option<[Option<MarkerData>; 3]>)
        requires
            self.well_formed(),
        ensures
            match r {
                Some(t) => has_template(self@, markers_of(self@), name@) && t@.map_values(|o: Option<MarkerData>| opt_marker_view(o))
                    == template_from(self@, markers_of(self@), name@),
                None => !has_template(self@, markers_of(self@), name@),
            },
    {
        let ms = self.markers();
        let mut t: [Option<MarkerData>; 3] = [None, None, None];
        let mut found = false;
        let mut i: usize = 0;
        proof {
            assert(t@.map_values(|o: Option<MarkerData>| opt_marker_view(o)) =~= seq![None, None, None]);
        }
        while i < ms.len()
            invariant
                self.well_formed(),
                ms@ == markers_of(self@),
                all_valid(self@, ms@),
                i <= ms@.len(),
                t@.len() == 3,
                t@.map_values(|o: Option<MarkerData>| opt_marker_view(o)) == template_from(self@, ms@.subrange(0, i as int), name@),
                found == has_template(self@, ms@.subrange(0, i as int), name@),
            decreases ms@.len() - i,
        {
            let m = ms[i];
            proof {
                assert(ms@.subrange(0, i + 1).drop_last() =~= ms@.subrange(0, i as int));
                assert(self@.valid(ms@[i as int]));
                let p = ms@.subrange(0, i + 1);
                if has_template(self@, ms@.subrange(0, i as int), name@) {
                    let q = choose|q: int| 0 <= q < i && self@.attr(#[trigger] ms@.subrange(0, i as int)[q], TEMPLATE_ATTR@) == Some(name@);
                    assert(p[q] == ms@.subrange(0, i as int)[q]);
                }
                if has_template(self@, p, name@) {
                    let q = choose|q: int| 0 <= q < i + 1 && self@.attr(#[trigger] p[q], TEMPLATE_ATTR@) == Some(name@);
                    if q < i {
                        assert(ms@.subrange(0, i as int)[q] == p[q]);
                    }
                }
            }
            let named = match self.doc.attr(m, TEMPLATE_ATTR) {
                Some(v) => str_eq(v, name),
                None => false,
            };
            if named {
                proof {
                    assert(ms@.subrange(0, i + 1)[i as int] == m);
                }
                found = true;
                let pos: Option<usize> = match self.doc.attr(m, POSITION_ATTR) {
                    Some(p) => if str_eq(p, POSITIONS[0]) {
                        Some(0)
                    } else if str_eq(p, POSITIONS[1]) {
                        Some(1)
                    } else if str_eq(p, POSITIONS[2]) {
                        Some(2)
                    } else {
                        None
                    },
                    None => None,
                };
                if let Some(k) = pos {
                    let skip: [&'static str; 3] = ["id", TEMPLATE_ATTR, POSITION_ATTR];
                    let attrs = attrs_of(&self.doc, m, &skip);
                    let paths = path_attrs_exec(&self.doc, m);
                    proof {
                        assert(skip@ =~= seq!["id", TEMPLATE_ATTR, POSITION_ATTR]);
                    }
                    let md = MarkerData { attrs, paths };
                    let ghost before = t@.map_values(|o: Option<MarkerData>| opt_marker_view(o));
                    t.set(k, Some(md));
                    proof {
                        assert(md@ == marker_data_of(self@, m));
                        assert(t@.map_values(|o: Option<MarkerData>| opt_marker_view(o)) =~= before.update(k as int, Some(marker_data_of(self@, m))));
                    }
                }
            }
            i = i + 1;
        }
        proof {
            assert(ms@.subrange(0, ms@.len() as int) =~= ms@);
        }
        if found {
            Some(t)
        } else {
            None
        }
    }

    /// The markers of template `name`, in document order.
    fn named(&self, name: &str) -> (r: Vec<NodeId>)
        requires
            self.well_formed(),
        ensures
            r@ == named_markers(self@, name@),
            all_valid(self@, r@),
    {
        let ms = self.markers();
        let ghost d0 = self@;
        let mut out: Vec<NodeId> = Vec::new();
        let mut i: usize = 0;
        while i < ms.len()
            invariant
                self@ == d0,
                self.well_formed(),
                ms@ == markers_of(d0),
                all_valid(d0, ms@),
                i <= ms@.len(),
                out@ == kept_where(ms@.subrange(0, i as int), |m: NodeId| d0.attr(m, TEMPLATE_ATTR@) == Some(name@)),
                all_valid(d0, out@),
            decreases ms@.len() - i,
        {
            proof {
                assert(ms@.subrange(0, i + 1).drop_last() =~= ms@.subrange(0, i as int));
                assert(d0.valid(ms@[i as int]));
            }
            let is_named = match self.doc.attr(ms[i], TEMPLATE_ATTR) {
                Some(v) => str_eq(v, name),
                None => false,
            };
            if is_named {
                out.push(ms[i]);
            }
            i = i + 1;
        }
        proof {
            assert(ms@.subrange(0, ms@.len() as int) =~= ms@);
        }
        out
    }

    /// Detaches `ns` one after the other.
    fn detach_all(&mut self, ns: &Vec<NodeId>)
        requires
            old(self).well_formed(),
            all_valid(old(self)@, ns@),
        ensures
            final(self).well_formed(),
            final(self)@ == all_detached(old(self)@, ns@),
            final(self)@.nodes.len() == old(self)@.nodes.len(),
            final(self)@.svg == old(self)@.svg,
            forall|z: NodeId| old(self)@.valid(z) && !ns@.contains(z) ==> #[trigger] final(self)@.parent(z) == old(self)@.parent(z),
    {
        let ghost d0 = self@;
        let mut k: usize = 0;
        while k < ns.len()
            invariant
                self.well_formed(),
                all_valid(d0, ns@),
                k <= ns@.len(),
                self@.nodes.len() == d0.nodes.len(),
                self@.svg == d0.svg,
                self@ == all_detached(d0, ns@.subrange(0, k as int)),
                forall|z: NodeId| d0.valid(z) && !ns@.subrange(0, k as int).contains(z) ==> #[trigger] self@.parent(z) == d0.parent(z),
            decreases ns@.len() - k,
        {
            proof {
                assert(ns@.subrange(0, k + 1).drop_last() =~= ns@.subrange(0, k as int));
                assert(d0.valid(ns@[k as int]));
            }
            let ghost before = self@;
            let x = ns[k];
            self.doc.detach(x);
            proof {
                assert forall|z: NodeId| d0.valid(z) && !ns@.subrange(0, k + 1).contains(z) implies #[trigger] self@.parent(z) == d0.parent(z) by {
                    assert(ns@.subrange(0, k + 1)[k as int] == x);
                    assert(z != x);
                    if ns@.subrange(0, k as int).contains(z) {
                        let q = choose|q: int| 0 <= q < k && ns@.subrange(0, k as int)[q] == z;
                        assert(ns@.subrange(0, k + 1)[q] == z);
                    }
                    lemma_node_ok(before, x);
                    assert(self@.parent(z) == before.parent(z));
                }
            }
            k = k + 1;
        }
        proof {
            assert(ns@.subrange(0, ns@.len() as int) =~= ns@);
        }
    }

    /// The element before the first of `old_ms` among the root's children.
    fn anchor(&self, old_ms: &Vec<NodeId>) -> (r: Option<NodeId>)
        requires
            self.well_formed(),
            all_valid(self@, old_ms@),
        ensures
            r == anchor_of(self@, old_ms@),
            r matches Some(a) ==> self@.valid(a) && self@.parent(a) == Some(self@.svg) && !old_ms@.contains(a),
    {
        if old_ms.len() == 0 {
            return None;
        }
        let ghost d = self@;
        let svg = self.doc.svg();
        let kids = self.doc.children(svg);
        proof {
            lemma_node_ok(d, svg);
            assert forall|k: int| 0 <= k < kids@.len() implies d.valid(#[trigger] kids@[k]) && d.parent(kids@[k]) == Some(svg) by {
                lemma_child(d, svg, k);
            }
        }
        let first = old_ms[0];
        let mut idx: usize = 0;
        while idx < kids.len() && kids[idx] != first
            invariant
                kids@ == d.children(d.svg),
                idx <= kids@.len(),
                forall|k: int| 0 <= k < idx ==> kids@[k] != first,
            decreases kids@.len() - idx,
        {
            idx = idx + 1;
        }
        if idx == kids.len() {
            proof {
                assert(!kids@.contains(first));
            }
            return None;
        }
        proof {
            crate::dom::lemma_index_of(kids@, idx as int, first);
            assert(kids@.contains(first));
        }
        let mut j: usize = idx;
        while j > 0 && !self.doc.is_element(kids[j - 1])
            invariant
                self.well_formed(),
                self@ == d,
                kids@ == d.children(d.svg),
                j <= idx < kids@.len(),
                forall|k: int| 0 <= k < kids@.len() ==> d.valid(#[trigger] kids@[k]),
                prev_element_from(d, kids@, j - 1) == prev_element_from(d, kids@, idx - 1),
            decreases j,
        {
            j = j - 1;
        }
        if j == 0 {
            return None;
        }
        let a = kids[j - 1];
        if crate::dom::vec_contains(old_ms, a) {
            None
        } else {
            Some(a)
        }
    }

    /// Removes a template; `false` when no marker carried that name.
    pub fn remove(&mut self, name: &str) -> (r: bool)
        requires
            old(self).well_formed(),
        ensures
            final(self).well_formed(),
            final(self)@ == all_detached(old(self)@, named_markers(old(self)@, name@)),
            r == (named_markers(old(self)@, name@).len() > 0),
    {
        let old_ms = self.named(name);
        self.detach_all(&old_ms);
        old_ms.len() > 0
    }

    /// Stores `t` under `name`, replacing an existing template of that name in place (its
    /// markers are replaced where the first of them stood, so the list order is stable).
    #[verifier::rlimit(60)]
    #[verifier::spinoff_prover]
    pub fn set(&mut self, name: &str, t: &[Option<MarkerData>; 3])
        requires
            old(self).well_formed(),
            old(self)@.nodes.len() + template_size(template_view(t@), 3) + 3 < u32::MAX,
        ensures
            final(self).well_formed(),
            final(self)@ == template_stored(old(self)@, name@, template_view(t@)),
            !all_none(template_view(t@)) ==> has_template(final(self)@, markers_of(final(self)@), name@)
                && template_names(final(self)@, markers_of(final(self)@)).contains(name@),
            plain_template(template_view(t@)) && !is_marker_el(old(self)@)(old(self)@.svg)
                ==> template_from(final(self)@, markers_of(final(self)@), name@) == template_view(t@),
    {
        let ghost d0 = self@;
        let ghost tv = template_view(t@);
        let old_ms = self.named(name);
        let anchor = self.anchor(&old_ms);
        let had_old = old_ms.len() > 0;
        self.detach_all(&old_ms);
        let ghost dd = self@;
        proof {
            assert(dd.wf());
            lemma_node_ok(dd, dd.svg);
        }
        let mut prev = anchor;
        let ghost mut mks: Seq<NodeId> = seq![0, 0, 0];
        let mut i: usize = 0;
        while i < 3
            invariant
                self.well_formed(),
                i <= 3,
                t@.len() == 3,
                tv == template_view(t@),
                (self@, prev) == placed_upto(dd, name@, tv, i as int, anchor, had_old),
                prev matches Some(p) ==> self@.valid(p) && self@.parent(p) == Some(self@.svg),
                self@.nodes.len() == dd.nodes.len() + template_size(tv, i as int),
                dd.nodes.len() + template_size(tv, 3) + 3 < u32::MAX,
                dd.valid(dd.svg),
                dd.wf(),
                dd.parent(dd.svg) matches Some(q) ==> dd.valid(q),
                self@.svg == dd.svg,
                mks.len() == 3,
                forall|y: NodeId| dd.valid(y) ==> #[trigger] self@.parent(y) == dd.parent(y),
                forall|y: NodeId| dd.valid(y) && y != dd.svg ==> #[trigger] self@.kind(y) == dd.kind(y),
                self@.is_element(dd.svg) == dd.is_element(dd.svg),
                self@.qname(dd.svg) == dd.qname(dd.svg),
                new_nodes_ok(self@, dd.nodes.len() as int, mks, tv, i as int),
                forall|j: int| 0 <= j < i && (#[trigger] tv[j]) is Some ==> marker_ok(self@, mks[j], name@, j, tv[j]->0)
                    && dd.nodes.len() <= mks[j] < self@.nodes.len(),
                forall|j1: int, j2: int| 0 <= j1 < i && 0 <= j2 < i && j1 != j2 && tv[j1] is Some && tv[j2] is Some
                    ==> mks[j1] != mks[j2],
            decreases 3 - i,
        {
            proof {
                lemma_template_size_mono(tv, i + 1, 3);
                assert(tv[i as int] == opt_marker_view(t@[i as int]));
            }
            let ghost before = self@;
            match &t[i] {
                Some(m) => {
                    let mk = place_marker(&mut self.doc, name, i, m, prev, had_old);
                    prev = Some(mk);
                    proof {
                        let after = self@;
                        assert(tv[i as int] == Some(m@));
                        assert(tv[i as int]->0 == m@);
                        assert forall|j: int| 0 <= j < i && (#[trigger] tv[j]) is Some implies marker_ok(after, mks[j], name@, j, tv[j]->0) by {
                            let mj = mks[j];
                            assert(marker_ok(before, mj, name@, j, tv[j]->0));
                            assert forall|k: int| 0 <= k < before.children(mj).len() implies before.valid(#[trigger] before.children(mj)[k])
                                && before.children(mj)[k] != before.svg by {
                                lemma_child(before, mj, k);
                                if before.children(mj)[k] == before.svg {
                                    assert(before.parent(dd.svg) == dd.parent(dd.svg));
                                }
                            }
                            lemma_marker_ok_kept(before, after, mj, name@, j, tv[j]->0);
                        }
                        let ghost mks_old = mks;
                        mks = mks.update(i as int, mk);
                        assert(marker_ok(after, mks[i as int], name@, i as int, tv[i as int]->0));
                        lemma_new_nodes_step(before, after, dd.nodes.len() as int, mks_old, tv, i as int, mk);
                        assert forall|j1: int, j2: int| 0 <= j1 < i + 1 && 0 <= j2 < i + 1 && j1 != j2 && tv[j1] is Some && tv[j2] is Some
                            implies mks[j1] != mks[j2] by {
                            if j1 < i && j2 < i {
                                assert(mks_old[j1] != mks_old[j2]);
                            }
                        }
                        assert forall|j: int| 0 <= j < i + 1 && (#[trigger] tv[j]) is Some implies dd.nodes.len() <= mks[j] < after.nodes.len() by {
                            if j < i {
                                assert(mks_old[j] < before.nodes.len());
                            }
                        }
                        assert(new_nodes_ok(after, dd.nodes.len() as int, mks, tv, i as int + 1));
                    }
                },
                None => {
                    proof {
                        lemma_new_nodes_mono(self@, dd.nodes.len() as int, mks, tv, i as int, i as int + 1);
                        assert(new_nodes_ok(self@, dd.nodes.len() as int, mks, tv, i as int + 1));
                    }
                },
            }
            i = i + 1;
        }
        proof {
            if !all_none(tv) {
                let j = choose|j: int| 0 <= j < tv.len() && !(tv[j] is None);
                assert(marker_ok(self@, mks[j], name@, j, tv[j]->0));
                lemma_in_markers(self@, mks[j]);
                let q = choose|q: int| 0 <= q < markers_of(self@).len() && markers_of(self@)[q] == mks[j];
                assert(self@.attr(markers_of(self@)[q], TEMPLATE_ATTR@) == Some(name@));
                lemma_listed_iff_stored(self@, markers_of(self@), name@);
            }
            if plain_template(tv) && !is_marker_el(d0)(d0.svg) {
                lemma_stored_reads_back(d0, dd, self@, name@, tv, mks);
            }
        }
    }
}

// ---------------------------------------------------------------------------------------------
// Removal

pub open spec fn is_named(d: DocV, name: Seq<char>) -> spec_fn(NodeId) -> bool {
    |m: NodeId| d.attr(m, TEMPLATE_ATTR@) == Some(name)
}

/// Detaching the first `k` of `ns` keeps the document well-formed with the same nodes and kinds,
/// keeps every remaining parent link, and leaves each of those `k` without a parent.
proof fn lemma_all_detached(d: DocV, ns: Seq<NodeId>, k: int)
    requires
        d.wf(),
        all_valid(d, ns),
        0 <= k <= ns.len(),
    ensures
        all_detached(d, ns.subrange(0, k)).wf(),
        all_detached(d, ns.subrange(0, k)).nodes.len() == d.nodes.len(),
        all_detached(d, ns.subrange(0, k)).svg == d.svg,
        forall|y: NodeId| d.valid(y) ==> #[trigger] all_detached(d, ns.subrange(0, k)).kind(y) == d.kind(y),
        forall|y: NodeId| d.valid(y) && (#[trigger] all_detached(d, ns.subrange(0, k)).parent(y)) is Some
            ==> all_detached(d, ns.subrange(0, k)).parent(y) == d.parent(y),
        forall|j: int| 0 <= j < k ==> (#[trigger] all_detached(d, ns.subrange(0, k)).parent(ns[j])) is None,
    decreases k,
{
    if k > 0 {
        lemma_all_detached(d, ns, k - 1);
        let s = ns.subrange(0, k);
        assert(s.drop_last() =~= ns.subrange(0, k - 1));
        assert(s.last() == ns[k - 1]);
        let d1 = all_detached(d, ns.subrange(0, k - 1));
        let x = ns[k - 1];
        assert(d.valid(x));
        lemma_detached_wf(d1, x);
        let d2 = d1.detached(x);
        assert(d2 == all_detached(d, s));
        assert forall|y: NodeId| d.valid(y) && (#[trigger] d2.parent(y)) is Some implies d2.parent(y) == d.parent(y) by {
            assert(y != x);
            assert(d2.parent(y) == d1.parent(y));
        }
        assert forall|j: int| 0 <= j < k implies (#[trigger] d2.parent(ns[j])) is None by {
            assert(d.valid(ns[j]));
            if ns[j] != x {
                assert(d1.parent(ns[j]) is None);
            }
        }
    } else {
        assert(ns.subrange(0, 0) =~= Seq::<NodeId>::empty());
    }
}

/// Once a template is removed, no marker of the store carries its name; so it is no longer
/// listed and reading it gives nothing. (The root element itself is no stored marker.)
pub proof fn law_removed_template_is_gone(d: DocV, name: Seq<char>)
    requires
        d.wf(),
        !is_marker_el(d)(d.svg),
    ensures
        named_markers(all_detached(d, named_markers(d, name)), name).len() == 0,
        !has_template(all_detached(d, named_markers(d, name)), markers_of(all_detached(d, named_markers(d, name))), name),
        !template_names(all_detached(d, named_markers(d, name)), markers_of(all_detached(d, named_markers(d, name)))).contains(name),
{
    let ns = named_markers(d, name);
    let ms = markers_of(d);
    lemma_subtree_valid(d, d.svg);
    lemma_kept_valid(d, d.subtree(d.svg), is_marker_el(d));
    lemma_kept_valid(d, ms, is_named(d, name));
    lemma_kept_members(d.subtree(d.svg), is_marker_el(d));
    lemma_kept_members(ms, is_named(d, name));
    lemma_all_detached(d, ns, ns.len() as int);
    assert(ns.subrange(0, ns.len() as int) =~= ns);
    let dd = all_detached(d, ns);
    let mds = markers_of(dd);
    lemma_subtree_valid(dd, dd.svg);
    lemma_subtree_members(dd, dd.svg);
    lemma_kept_members(dd.subtree(dd.svg), is_marker_el(dd));
    lemma_kept_members(mds, is_named(dd, name));
    assert forall|z: NodeId| mds.contains(z) implies dd.attr(z, TEMPLATE_ATTR@) != Some(name) by {
        let i = choose|i: int| 0 <= i < mds.len() && mds[i] == z;
        let sub = dd.subtree(dd.svg);
        let j = choose|j: int| 0 <= j < sub.len() && sub[j] == z;
        assert(dd.valid(sub[j]) && dd.anc_or_self(dd.svg, sub[j]));
        assert(is_marker_el(dd)(z));
        if dd.attr(z, TEMPLATE_ATTR@) == Some(name) {
            assert(dd.kind(z) == d.kind(z));
            lemma_anc_back(d, dd, d.svg, z, dd.dep(z));
            lemma_anc_f_sound(d, d.svg, z, dd.dep(z));
            lemma_subtree_contains(d, d.svg, z);
            let js = choose|js: int| 0 <= js < d.subtree(d.svg).len() && d.subtree(d.svg)[js] == z;
            assert(is_marker_el(d)(d.subtree(d.svg)[js]));
            assert(ms.contains(z));
            let jm = choose|jm: int| 0 <= jm < ms.len() && ms[jm] == z;
            assert(is_named(d, name)(ms[jm]));
            assert(ns.contains(z));
            let jn = choose|jn: int| 0 <= jn < ns.len() && ns[jn] == z;
            assert(dd.parent(ns[jn]) is None);
            assert(z != d.svg);
            assert(!dd.anc_f(dd.svg, z, dd.dep(z)));
        }
    }
    if named_markers(dd, name).len() > 0 {
        let z = named_markers(dd, name)[0];
        assert(mds.contains(z) && is_named(dd, name)(z));
    }
    if has_template(dd, mds, name) {
        let i = choose|i: int| 0 <= i < mds.len() && dd.attr(#[trigger] mds[i], TEMPLATE_ATTR@) == Some(name);
        assert(mds.contains(mds[i]));
    }
    lemma_listed_iff_stored(dd, mds, name);
}

// ---------------------------------------------------------------------------------------------
// Storing a template

/// The text of `k` before its first `:`, when it has one.
pub open spec fn colon_at(k: Seq<char>, i: int) -> int
    decreases k.len() - i,
{
    if i < 0 || i >= k.len() {
        -1
    } else if k[i] == ':' {
        i
    } else {
        colon_at(k, i + 1)
    }
}

pub open spec fn prefix_of(k: Seq<char>) -> Option<Seq<char>> {
    let c = colon_at(k, 0);
    if c < 0 {
        None
    } else {
        Some(k.subrange(0, c))
    }
}

/// What making `pf` usable leaves: the document and whether the prefix can be used.
pub open spec fn prefix_ensured(d: DocV, pf: Seq<char>) -> (DocV, bool) {
    if pf == "xml"@ {
        (d, true)
    } else if d.attr(d.svg, "xmlns:"@ + pf) is Some {
        (d, true)
    } else {
        match known_uri(pf) {
            Some(u) => (d.attr_set(d.svg, "xmlns:"@ + pf, u), true),
            None => (d, false),
        }
    }
}

/// `attrs` copied onto `dst`, skipping the names in `skip` and any whose namespace prefix
/// cannot be declared on the root.
pub open spec fn attrs_copied(d: DocV, dst: NodeId, attrs: Seq<(Seq<char>, Seq<char>)>, skip: Seq<&'static str>) -> DocV
    decreases attrs.len(),
{
    if attrs.len() == 0 {
        d
    } else {
        let d1 = attrs_copied(d, dst, attrs.drop_last(), skip);
        let (k, v) = attrs.last();
        if listed(skip, k) {
            d1
        } else {
            match prefix_of(k) {
                Some(pf) => if pf != "xmlns"@ {
                    let (d2, ok) = prefix_ensured(d1, pf);
                    if ok {
                        d2.attr_set(dst, k, v)
                    } else {
                        d2
                    }
                } else {
                    d1.attr_set(dst, k, v)
                },
                None => d1.attr_set(dst, k, v),
            }
        }
    }
}

/// A new `<path>` for each of `paths`, given those attributes and appended to `mk`.
pub open spec fn paths_added(d: DocV, mk: NodeId, paths: Seq<Seq<(Seq<char>, Seq<char>)>>) -> DocV
    decreases paths.len(),
{
    if paths.len() == 0 {
        d
    } else {
        let d1 = paths_added(d, mk, paths.drop_last());
        let pe = d1.nodes.len() as NodeId;
        let d2 = d1.allocated(KindV::Element { name: "path"@, attrs: seq![], self_closing: true, close_ws: seq![] });
        attrs_copied(d2, pe, paths.last(), seq!["id"]).appended(mk, pe)
    }
}

/// `mk` placed after `prev`, or else first in the root when it replaces stored markers, or else
/// last in the root.
pub open spec fn placed_after(d: DocV, mk: NodeId, prev: Option<NodeId>, had_old: bool) -> DocV {
    match prev {
        Some(p) => match d.next_sibling(p) {
            None => d.appended(d.parent(p).unwrap(), mk),
            Some(nx) => if nx == mk {
                d
            } else {
                d.inserted_before(mk, nx)
            },
        },
        None => if had_old {
            let cs = d.children(d.svg);
            if cs.len() == 0 {
                d.appended(d.svg, mk)
            } else if cs[0] == mk {
                d
            } else {
                d.inserted_before(mk, cs[0])
            }
        } else {
            d.appended(d.svg, mk)
        },
    }
}

/// The new marker for position `i` of template `name`.
/// The new, still unattached marker for position `i` of template `name`, with its paths.
pub open spec fn marker_built(d: DocV, name: Seq<char>, i: int, m: MarkerDataV) -> DocV {
    let mk = d.nodes.len() as NodeId;
    let da = d.allocated(KindV::Element { name: "marker"@, attrs: seq![], self_closing: true, close_ws: seq![] });
    let db = da.attr_set(mk, TEMPLATE_ATTR@, name).attr_set(mk, POSITION_ATTR@, POSITIONS[i]@);
    let dc = attrs_copied(db, mk, m.attrs, seq!["id", TEMPLATE_ATTR, POSITION_ATTR]);
    paths_added(dc, mk, m.paths)
}

pub open spec fn marker_placed(d: DocV, name: Seq<char>, i: int, m: MarkerDataV, prev: Option<NodeId>, had_old: bool) -> (DocV, NodeId) {
    let mk = d.nodes.len() as NodeId;
    (placed_after(marker_built(d, name, i, m), mk, prev, had_old), mk)
}

/// The markers for the first `k` positions of `t` placed one after the other.
pub open spec fn placed_upto(d: DocV, name: Seq<char>, t: Seq<Option<MarkerDataV>>, k: int, anchor: Option<NodeId>, had_old: bool) -> (DocV, Option<NodeId>)
    decreases k,
{
    if k <= 0 || k > t.len() {
        (d, anchor)
    } else {
        let (d1, prev) = placed_upto(d, name, t, k - 1, anchor, had_old);
        match t[k - 1] {
            None => (d1, prev),
            Some(m) => {
                let (d2, mk) = marker_placed(d1, name, k - 1, m, prev, had_old);
                (d2, Some(mk))
            },
        }
    }
}

/// The element before position `i` of `kids`, nearest first.
pub open spec fn prev_element_from(d: DocV, kids: Seq<NodeId>, i: int) -> Option<NodeId>
    decreases i + 1,
{
    if i < 0 || i >= kids.len() {
        None
    } else if d.is_element(kids[i]) {
        Some(kids[i])
    } else {
        prev_element_from(d, kids, i - 1)
    }
}

/// Where new markers go: after the element sibling before the first stored marker, when that
/// marker is a child of the root (never one of the stored markers themselves).
pub open spec fn anchor_of(d: DocV, old: Seq<NodeId>) -> Option<NodeId> {
    if old.len() == 0 {
        None
    } else {
        let kids = d.children(d.svg);
        if !kids.contains(old[0]) {
            None
        } else {
            match prev_element_from(d, kids, crate::dom::pos_in(kids, old[0]) - 1) {
                Some(a) => if old.contains(a) {
                    None
                } else {
                    Some(a)
                },
                None => None,
            }
        }
    }
}

/// How many nodes storing the first `k` positions of `t` makes.
pub open spec fn template_size(t: Seq<Option<MarkerDataV>>, k: int) -> nat
    decreases k,
{
    if k <= 0 || k > t.len() {
        0
    } else {
        template_size(t, k - 1) + match t[k - 1] {
            Some(m) => 1 + m.paths.len(),
            None => 0,
        }
    }
}

proof fn lemma_template_size_mono(t: Seq<Option<MarkerDataV>>, i: int, j: int)
    requires
        0 <= i <= j <= t.len(),
    ensures
        template_size(t, i) <= template_size(t, j),
    decreases j - i,
{
    if i < j {
        lemma_template_size_mono(t, i, j - 1);
    }
}

pub open spec fn template_view(t: Seq<Option<MarkerData>>) -> Seq<Option<MarkerDataV>> {
    t.map_values(|o: Option<MarkerData>| opt_marker_view(o))
}

/// The store after `t` is stored under `name`: the markers of that name removed, then one new
/// marker per position, placed where the first old one stood (after the element before it, or
/// first in the root), or at the end of the root for a new name.
pub open spec fn template_stored(d: DocV, name: Seq<char>, t: Seq<Option<MarkerDataV>>) -> DocV {
    let old = named_markers(d, name);
    placed_upto(all_detached(d, old), name, t, t.len() as int, anchor_of(d, old), old.len() > 0).0
}

/// Parents of the nodes of `d1` are those of `d2`.
pub open spec fn parents_kept(d1: DocV, d2: DocV) -> bool {
    &&& d1.nodes.len() <= d2.nodes.len()
    &&& forall|z: NodeId| d1.valid(z) ==> #[trigger] d2.parent(z) == d1.parent(z)
}

/// Where no parent of an older node changed, the older nodes' ancestors are as they were.
proof fn lemma_parents_kept_anc(d1: DocV, d2: DocV, a: NodeId, x: NodeId, f: nat)
    requires
        d1.wf(),
        d1.valid(x),
        parents_kept(d1, d2),
    ensures
        d1.anc_f(a, x, f) == d2.anc_f(a, x, f),
{
    assert forall|z: NodeId| #[trigger] d1.anc_f(z, x, f) implies d1.parent(z) == d2.parent(z) by {
        lemma_chain_valid(d1, z, x, f);
    }
    lemma_chain_kept(d1, d2, a, x, f);
}

/// Setting an attribute changes no parent.
proof fn lemma_attr_set_parents(d: DocV, n: NodeId, k: Seq<char>, v: Seq<char>)
    requires
        d.wf(),
        d.valid(n),
    ensures
        parents_kept(d, d.attr_set(n, k, v)),
        d.attr_set(n, k, v).nodes.len() == d.nodes.len(),
        d.attr_set(n, k, v).svg == d.svg,
{
    let d2 = d.attr_set(n, k, v);
    assert forall|z: NodeId| d.valid(z) implies #[trigger] d2.parent(z) == d.parent(z) by {
        if z == n {
        }
    }
}

/// Setting an attribute of `n` changes no other node's kind, nor `n`'s name or other attributes.
proof fn lemma_attr_set_kinds(d: DocV, n: NodeId, k: Seq<char>, v: Seq<char>)
    requires
        d.wf(),
        d.valid(n),
    ensures
        forall|y: NodeId| d.valid(y) && y != n ==> #[trigger] d.attr_set(n, k, v).kind(y) == d.kind(y),
        d.attr_set(n, k, v).is_element(n) == d.is_element(n),
        d.attr_set(n, k, v).qname(n) == d.qname(n),
        forall|o: Seq<char>| o != k ==> #[trigger] d.attr_set(n, k, v).attr(n, o) == d.attr(n, o),
        d.is_element(n) ==> d.attr_set(n, k, v).attr(n, k) == Some(v),
{
    let d2 = d.attr_set(n, k, v);
    if let KindV::Element { name: q, attrs, self_closing, close_ws } = d.kind(n) {
        assert forall|o: Seq<char>| o != k implies #[trigger] d2.attr(n, o) == d.attr(n, o) by {
            crate::dom::lemma_attrs_set_get(attrs, k, v, o);
        }
        crate::dom::lemma_attrs_set_get(attrs, k, v, k);
    }
}

/// Attaching a node that is no node of `d0` changes no parent of `d0`'s nodes.
proof fn lemma_attach_new_parents(d0: DocV, d: DocV, mk: NodeId, pe: NodeId)
    requires
        d.wf(),
        d.valid(mk),
        d.valid(pe),
        parents_kept(d0, d),
        pe as int >= d0.nodes.len(),
        d.parent(pe) is None,
    ensures
        parents_kept(d0, d.appended(mk, pe)),
        d.appended(mk, pe).nodes.len() == d.nodes.len(),
        d.appended(mk, pe).svg == d.svg,
{
    let d1 = d.detached(pe);
    assert(d1 == d);
    let d2 = d.appended(mk, pe);
    assert(d2.nodes == d.attach_struct(mk, d.children(mk).len() as int, pe).nodes);
    assert forall|z: NodeId| d0.valid(z) implies #[trigger] d2.parent(z) == d0.parent(z) by {
        assert(z != pe);
        assert(d.valid(z));
        assert(d.parent(z) == d0.parent(z));
        assert(d2.nodes[z as int].parent == d.nodes[z as int].parent);
    }
}

fn colon_index(k: &str) -> (r: Option<usize>)
    ensures
        match r {
            Some(c) => colon_at(k@, 0) == c && c < k@.len(),
            None => colon_at(k@, 0) < 0,
        },
{
    let cs = crate::strs::chars_of(k);
    let mut i: usize = 0;
    while i < cs.len()
        invariant
            cs@ == k@,
            i <= cs@.len(),
            colon_at(cs@, i as int) == colon_at(cs@, 0),
        decreases cs@.len() - i,
    {
        if cs[i] == ':' {
            return Some(i);
        }
        i = i + 1;
    }
    None
}

/// A prefix that can always be used: none, `xmlns`, `xml`, or one whose namespace is known.
pub open spec fn prefix_usable(k: Seq<char>) -> bool {
    match prefix_of(k) {
        None => true,
        Some(pf) => pf == "xmlns"@ || pf == "xml"@ || known_uri(pf) is Some,
    }
}

/// Attributes that copying writes back as they are: distinct names, none skipped, each prefix
/// usable.
pub open spec fn plain_attrs(ps: Seq<(Seq<char>, Seq<char>)>, skip: Seq<&'static str>) -> bool {
    &&& forall|i: int, j: int| 0 <= i < j < ps.len() ==> ps[i].0 != ps[j].0
    &&& forall|i: int| 0 <= i < ps.len() ==> !listed(skip, #[trigger] ps[i].0) && prefix_usable(ps[i].0)
}

/// `(name, value)` pairs as freshly written attributes.
pub open spec fn as_attrvs(ps: Seq<(Seq<char>, Seq<char>)>) -> Seq<AttrV> {
    ps.map_values(|p: (Seq<char>, Seq<char>)| AttrV { name: p.0, value: p.1, ws: seq![' '] })
}

/// No attribute of `base` has a name among `ps`.
pub open spec fn names_apart(base: Seq<AttrV>, ps: Seq<(Seq<char>, Seq<char>)>) -> bool {
    forall|i: int, j: int| 0 <= i < base.len() && 0 <= j < ps.len() ==> base[i].name != ps[j].0
}

fn copy_attrs(doc: &mut Doc, dst: NodeId, attrs: &Vec<(String, String)>, skip: &[&'static str])
    requires
        old(doc).wf(),
        old(doc)@.valid(dst),
    ensures
        final(doc).wf(),
        final(doc)@ == attrs_copied(old(doc)@, dst, pairs_of(attrs@), skip@),
        final(doc)@.nodes.len() == old(doc)@.nodes.len(),
        parents_kept(old(doc)@, final(doc)@),
        final(doc)@.svg == old(doc)@.svg,
        forall|y: NodeId| old(doc)@.valid(y) && y != dst && y != old(doc)@.svg ==> #[trigger] final(doc)@.kind(y) == old(doc)@.kind(y),
        dst != old(doc)@.svg ==> final(doc)@.is_element(dst) == old(doc)@.is_element(dst) && final(doc)@.qname(dst) == old(doc)@.qname(dst),
        dst != old(doc)@.svg ==> forall|k: Seq<char>| listed(skip@, k) ==> #[trigger] final(doc)@.attr(dst, k) == old(doc)@.attr(dst, k),
        forall|y: NodeId| old(doc)@.valid(y) ==> #[trigger] final(doc)@.children(y) == old(doc)@.children(y),
        final(doc)@.is_element(old(doc)@.svg) == old(doc)@.is_element(old(doc)@.svg),
        final(doc)@.qname(old(doc)@.svg) == old(doc)@.qname(old(doc)@.svg),
        dst != old(doc)@.svg && old(doc)@.is_element(dst) && plain_attrs(pairs_of(attrs@), skip@)
            && names_apart(old(doc)@.attrs(dst), pairs_of(attrs@))
            ==> final(doc)@.attrs(dst) == old(doc)@.attrs(dst) + as_attrvs(pairs_of(attrs@)),
{
    let ghost d0 = doc@;
    let ghost ps = pairs_of(attrs@);
    let ghost plain = dst != d0.svg && d0.is_element(dst) && plain_attrs(ps, skip@) && names_apart(d0.attrs(dst), ps);
    let mut i: usize = 0;
    while i < attrs.len()
        invariant
            doc.wf(),
            d0.wf(),
            d0.valid(dst),
            i <= attrs@.len(),
            doc@ == attrs_copied(d0, dst, pairs_of(attrs@).subrange(0, i as int), skip@),
            doc@.nodes.len() == d0.nodes.len(),
            parents_kept(d0, doc@),
            doc@.svg == d0.svg,
            forall|y: NodeId| d0.valid(y) && y != dst && y != d0.svg ==> #[trigger] doc@.kind(y) == d0.kind(y),
            dst != d0.svg ==> doc@.is_element(dst) == d0.is_element(dst) && doc@.qname(dst) == d0.qname(dst),
            dst != d0.svg ==> forall|k: Seq<char>| listed(skip@, k) ==> #[trigger] doc@.attr(dst, k) == d0.attr(dst, k),
            forall|y: NodeId| d0.valid(y) ==> #[trigger] doc@.children(y) == d0.children(y),
            doc@.is_element(d0.svg) == d0.is_element(d0.svg),
            doc@.qname(d0.svg) == d0.qname(d0.svg),
            ps == pairs_of(attrs@),
            plain == (dst != d0.svg && d0.is_element(dst) && plain_attrs(ps, skip@) && names_apart(d0.attrs(dst), ps)),
            plain ==> doc@.attrs(dst) == d0.attrs(dst) + as_attrvs(ps.subrange(0, i as int)),
        decreases attrs@.len() - i,
    {
        let (k, v) = (&attrs[i].0, &attrs[i].1);
        let ghost ds = doc@;
        proof {
            assert(ps.subrange(0, i + 1).drop_last() =~= ps.subrange(0, i as int));
            assert(ps.subrange(0, i + 1).last() == (k@, v@));
            assert(ps[i as int] == (k@, v@));
            if plain {
                assert(!listed(skip@, ps[i as int].0) && prefix_usable(ps[i as int].0));
            }
        }
        if !in_list(skip, k.as_str()) {
            let usable = match colon_index(k.as_str()) {
                Some(c) => {
                    let kc = crate::strs::chars_of(k.as_str());
                    let pf = crate::strs::string_from(crate::strs::slice_prefix(kc.as_slice(), c));
                    proof {
                        assert(pf@ =~= k@.subrange(0, c as int));
                        assert(prefix_of(k@) == Some(pf@));
                    }
                    if str_eq(pf.as_str(), "xmlns") {
                        true
                    } else {
                        proof {
                            reveal_strlit("xml");
                            reveal_strlit("xmlns");
                        }
                        let ghost dp = doc@;
                        let ok = doc.ensure_prefix(pf.as_str());
                        proof {
                            if doc@ != dp {
                                lemma_attr_set_parents(dp, dp.svg, "xmlns:"@ + pf@, known_uri(pf@).unwrap());
                                lemma_attr_set_kinds(dp, dp.svg, "xmlns:"@ + pf@, known_uri(pf@).unwrap());
                                assert(doc@.is_element(d0.svg) == dp.is_element(d0.svg));
                                assert(doc@.qname(d0.svg) == dp.qname(d0.svg));
                                if dst != d0.svg {
                                    assert(doc@.kind(dst) == dp.kind(dst));
                                }
                                assert forall|y: NodeId| d0.valid(y) implies #[trigger] doc@.children(y) == dp.children(y) by {
                                    if y != dp.svg {
                                        assert(doc@.kind(y) == dp.kind(y));
                                    }
                                    assert(doc@.nodes[y as int].children == dp.nodes[y as int].children);
                                }
                            }
                            if plain {
                                assert(prefix_usable(k@));
                                assert(ok);
                            }
                        }
                        ok
                    }
                },
                None => true,
            };
            if usable {
                proof {
                    lemma_attr_set_parents(doc@, dst, k@, v@);
                    lemma_attr_set_kinds(doc@, dst, k@, v@);
                    assert(!listed(skip@, k@));
                }
                let ghost dq = doc@;
                doc.set_attr(dst, k.as_str(), v.as_str());
                proof {
                    assert forall|kk: Seq<char>| listed(skip@, kk) implies #[trigger] doc@.attr(dst, kk) == dq.attr(dst, kk) by {
                        assert(kk != k@);
                    }
                    assert forall|y: NodeId| d0.valid(y) implies #[trigger] doc@.children(y) == dq.children(y) by {
                        assert(doc@.nodes[y as int].children == dq.nodes[y as int].children);
                    }
                    if dst != d0.svg {
                        assert(doc@.kind(d0.svg) == dq.kind(d0.svg));
                    }
                    assert(doc@.is_element(d0.svg) == dq.is_element(d0.svg));
                    assert(doc@.qname(d0.svg) == dq.qname(d0.svg));
                    if plain {
                        let cur = dq.attrs(dst);
                        assert(cur == d0.attrs(dst) + as_attrvs(ps.subrange(0, i as int)));
                        crate::dom::lemma_attr_pos(cur, k@);
                        assert forall|j: int| 0 <= j < cur.len() implies cur[j].name != k@ by {
                            if j < d0.attrs(dst).len() {
                                assert(cur[j] == d0.attrs(dst)[j]);
                            } else {
                                let jj = j - d0.attrs(dst).len();
                                assert(cur[j] == as_attrvs(ps.subrange(0, i as int))[jj]);
                                assert(ps.subrange(0, i as int)[jj] == ps[jj]);
                            }
                        }
                        if crate::dom::attr_pos(cur, k@) >= 0 {
                            assert(cur[crate::dom::attr_pos(cur, k@)].name == k@);
                        }
                        assert(doc@.attrs(dst) =~= d0.attrs(dst) + as_attrvs(ps.subrange(0, i + 1)));
                    }
                }
            }
        }
        proof {
            if dst != d0.svg {
                assert(forall|kk: Seq<char>| listed(skip@, kk) ==> #[trigger] doc@.attr(dst, kk) == ds.attr(dst, kk));
            }
        }
        i = i + 1;
    }
    proof {
        assert(pairs_of(attrs@).subrange(0, attrs@.len() as int) =~= pairs_of(attrs@));
        assert(ps.subrange(0, attrs@.len() as int) =~= ps);
    }
}

pub open spec fn paths_view(v: Seq<Vec<(String, String)>>) -> Seq<Seq<(Seq<char>, Seq<char>)>> {
    v.map_values(|p: Vec<(String, String)>| pairs_of(p@))
}

/// The nodes of `d` after the first `lo + 1` are `<path>` elements.
pub open spec fn paths_after(d: DocV, lo: int) -> bool {
    forall|y: NodeId|
        #![trigger d.is_element(y)]
        #![trigger d.qname(y)]
        lo < y < d.nodes.len() ==> d.is_element(y) && d.qname(y) == "path"@
}

/// The nodes of `d` from `lo` on are `<path>` elements under `mk`.
pub open spec fn paths_under(d: DocV, lo: int, mk: NodeId) -> bool {
    forall|y: NodeId|
        #![trigger d.is_element(y)]
        #![trigger d.qname(y)]
        #![trigger d.parent(y)]
        lo <= y < d.nodes.len() ==> d.is_element(y) && d.qname(y) == "path"@ && d.parent(y) == Some(mk)
}

proof fn lemma_path_after(d: DocV, lo: int, y: NodeId)
    requires
        paths_after(d, lo),
        lo < y < d.nodes.len(),
    ensures
        d.is_element(y),
        d.qname(y) == "path"@,
{
}

/// The `n` nodes numbered from `start`.
pub open spec fn node_range(start: int, n: int) -> Seq<NodeId> {
    Seq::new(n as nat, |j: int| (start + j) as NodeId)
}

pub open spec fn plain_paths(pv: Seq<Seq<(Seq<char>, Seq<char>)>>) -> bool {
    forall|j: int| 0 <= j < pv.len() ==> plain_attrs(#[trigger] pv[j], seq!["id"])
}

/// Freshly written attributes, none of them skipped, read back as written.
proof fn lemma_attrs_except_plain(ps: Seq<(Seq<char>, Seq<char>)>, skip: Seq<&'static str>)
    requires
        forall|i: int| 0 <= i < ps.len() ==> !listed(skip, #[trigger] ps[i].0),
    ensures
        attrs_except(as_attrvs(ps), skip) == ps,
    decreases ps.len(),
{
    if ps.len() > 0 {
        assert(as_attrvs(ps).drop_last() =~= as_attrvs(ps.drop_last()));
        lemma_attrs_except_plain(ps.drop_last(), skip);
        assert(!listed(skip, ps[ps.len() - 1].0));
        assert(ps.drop_last().push(ps.last()) =~= ps);
    } else {
        assert(as_attrvs(ps) =~= Seq::<AttrV>::empty());
    }
}

/// Skipping attributes works piece by piece.
proof fn lemma_attrs_except_concat(a: Seq<AttrV>, b: Seq<AttrV>, skip: Seq<&'static str>)
    ensures
        attrs_except(a + b, skip) == attrs_except(a, skip) + attrs_except(b, skip),
    decreases b.len(),
{
    if b.len() > 0 {
        assert((a + b).drop_last() =~= a + b.drop_last());
        assert((a + b).last() == b.last());
        lemma_attrs_except_concat(a, b.drop_last(), skip);
        let r = attrs_except(a, skip);
        let q = attrs_except(b.drop_last(), skip);
        if !listed(skip, b.last().name) {
            assert((r + q).push((b.last().name, b.last().value)) =~= r + q.push((b.last().name, b.last().value)));
        }
    } else {
        assert(a + b =~= a);
        assert(attrs_except(b, skip) =~= Seq::<(Seq<char>, Seq<char>)>::empty());
        assert(attrs_except(a, skip) + Seq::<(Seq<char>, Seq<char>)>::empty() =~= attrs_except(a, skip));
    }
}

fn add_paths(doc: &mut Doc, mk: NodeId, paths: &Vec<Vec<(String, String)>>)
    requires
        old(doc).wf(),
        old(doc)@.valid(mk),
        old(doc)@.nodes.len() + paths@.len() + 1 < u32::MAX,
    ensures
        final(doc).wf(),
        final(doc)@ == paths_added(old(doc)@, mk, paths_view(paths@)),
        final(doc)@.nodes.len() == old(doc)@.nodes.len() + paths@.len(),
        parents_kept(old(doc)@, final(doc)@),
        final(doc)@.svg == old(doc)@.svg,
        forall|y: NodeId| old(doc)@.valid(y) && y != old(doc)@.svg ==> #[trigger] final(doc)@.kind(y) == old(doc)@.kind(y),
        forall|y: NodeId| old(doc)@.valid(y) && y != mk ==> #[trigger] final(doc)@.children(y) == old(doc)@.children(y),
        final(doc)@.children(mk) == old(doc)@.children(mk) + node_range(old(doc)@.nodes.len() as int, paths@.len() as int),
        paths_under(final(doc)@, old(doc)@.nodes.len() as int, mk),
        final(doc)@.is_element(old(doc)@.svg) == old(doc)@.is_element(old(doc)@.svg),
        final(doc)@.qname(old(doc)@.svg) == old(doc)@.qname(old(doc)@.svg),
        plain_paths(paths_view(paths@)) ==> forall|j: int| 0 <= j < paths@.len() ==>
            attrs_except(#[trigger] final(doc)@.attrs((old(doc)@.nodes.len() + j) as NodeId), seq!["id"]) == paths_view(paths@)[j],
{
    let ghost d0 = doc@;
    let ghost pv = paths_view(paths@);
    let mut i: usize = 0;
    while i < paths.len()
        invariant
            doc.wf(),
            d0.wf(),
            d0.valid(mk),
            i <= paths@.len(),
            d0.nodes.len() + paths@.len() + 1 < u32::MAX,
            doc@ == paths_added(d0, mk, paths_view(paths@).subrange(0, i as int)),
            doc@.nodes.len() == d0.nodes.len() + i,
            parents_kept(d0, doc@),
            doc@.svg == d0.svg,
            forall|y: NodeId| d0.valid(y) && y != d0.svg ==> #[trigger] doc@.kind(y) == d0.kind(y),
            pv == paths_view(paths@),
            forall|y: NodeId| d0.valid(y) && y != mk ==> #[trigger] doc@.children(y) == d0.children(y),
            doc@.children(mk) == d0.children(mk) + node_range(d0.nodes.len() as int, i as int),
            paths_under(doc@, d0.nodes.len() as int, mk),
            doc@.is_element(d0.svg) == d0.is_element(d0.svg),
            doc@.qname(d0.svg) == d0.qname(d0.svg),
            plain_paths(pv) ==> forall|j: int| 0 <= j < i ==>
                attrs_except(#[trigger] doc@.attrs((d0.nodes.len() + j) as NodeId), seq!["id"]) == pv[j],
        decreases paths@.len() - i,
    {
        proof {
            let pv = paths_view(paths@);
            assert(pv.subrange(0, i + 1).drop_last() =~= pv.subrange(0, i as int));
            assert(pv.subrange(0, i + 1).last() == pairs_of(paths@[i as int]@));
        }
        let ghost da = doc@;
        let pe = doc.new_element("path");
        let ghost db = doc@;
        let skip: [&'static str; 1] = ["id"];
        copy_attrs(doc, pe, &paths[i], &skip);
        proof {
            assert(skip@ =~= seq!["id"]);
            let dc = doc@;
            assert(parents_kept(da, db));
            assert(parents_kept(da, dc));
            lemma_fresh_not_anc(da, db.kind(pe), mk, dc.dep(mk));
            lemma_parents_kept_anc(db, dc, pe, mk, dc.dep(mk));
            lemma_node_ok(da, mk);
        }
        proof {
            lemma_attach_new_parents(d0, doc@, mk, pe);
        }
        let ghost de = doc@;
        proof {
            reveal_strlit("path");
            assert(pe as int == d0.nodes.len() + i);
            assert(de.is_element(pe) && de.qname(pe) == "path"@);
            if plain_paths(pv) {
                assert(plain_attrs(pv[i as int], seq!["id"]));
                assert(pv[i as int] == pairs_of(paths@[i as int]@));
                assert(db.attrs(pe) =~= Seq::<AttrV>::empty());
                assert(de.attrs(pe) =~= as_attrvs(pv[i as int]));
                lemma_attrs_except_plain(pv[i as int], seq!["id"]);
            }
        }
        doc.append_child(mk, pe);
        proof {
            assert(da.kind(d0.svg) == db.kind(d0.svg));
            assert(doc@.nodes[d0.svg as int].kind == de.nodes[d0.svg as int].kind);
            assert forall|y: NodeId| d0.valid(y) && y != d0.svg implies #[trigger] doc@.kind(y) == d0.kind(y) by {
                assert(da.kind(y) == d0.kind(y));
                assert(db.kind(y) == da.kind(y));
                assert(y != pe);
                assert(de.kind(y) == db.kind(y));
                assert(doc@.nodes[y as int].kind == de.nodes[y as int].kind);
            }
            assert forall|y: NodeId| d0.valid(y) && y != mk implies #[trigger] doc@.children(y) == d0.children(y) by {
                assert(da.children(y) == d0.children(y));
                assert(db.children(y) == da.children(y));
                assert(de.children(y) == db.children(y));
                assert(doc@.nodes[y as int].children == de.nodes[y as int].children);
            }
            assert(de.children(mk) == db.children(mk));
            assert(doc@.children(mk) =~= d0.children(mk) + node_range(d0.nodes.len() as int, i + 1));
            assert forall|y: NodeId| d0.nodes.len() <= y < doc@.nodes.len() implies #[trigger] doc@.is_element(y)
                && doc@.qname(y) == "path"@ && doc@.parent(y) == Some(mk) by {
                if y != pe {
                    assert(da.is_element(y));
                }
                assert(doc@.nodes[y as int].kind == de.nodes[y as int].kind);
                if y == pe {
                    assert(de.parent(pe) == db.parent(pe));
                    assert(de.detached(pe) == de);
                    assert(doc@.nodes[pe as int].parent == Some(mk));
                } else {
                    assert(y != d0.svg);
                    assert(db.valid(y));
                    assert(de.kind(y) == db.kind(y));
                    assert(db.kind(y) == da.kind(y));
                    assert(de.parent(y) == db.parent(y));
                    assert(db.parent(y) == da.parent(y));
                    assert(doc@.nodes[y as int].parent == de.nodes[y as int].parent);
                    assert(da.is_element(y) && da.qname(y) == "path"@ && da.parent(y) == Some(mk));
                }
                assert(doc@.is_element(y));
                assert(doc@.qname(y) == "path"@);
                assert(doc@.parent(y) == Some(mk));
            }
            if plain_paths(pv) {
                assert forall|j: int| 0 <= j < i + 1 implies
                    attrs_except(#[trigger] doc@.attrs((d0.nodes.len() + j) as NodeId), seq!["id"]) == pv[j] by {
                    let y = (d0.nodes.len() + j) as NodeId;
                    assert(doc@.nodes[y as int].kind == de.nodes[y as int].kind);
                    if j < i {
                        assert(y != d0.svg);
                        assert(db.valid(y) && y != pe);
                        assert(de.kind(y) == db.kind(y));
                        assert(db.kind(y) == da.kind(y));
                        assert(attrs_except(da.attrs((d0.nodes.len() + j) as NodeId), seq!["id"]) == pv[j]);
                    } else {
                        assert(y == pe);
                        assert(attrs_except(de.attrs(pe), seq!["id"]) == pv[i as int]);
                    }
                }
            }
        }
        i = i + 1;
    }
    proof {
        assert(paths_view(paths@).subrange(0, paths@.len() as int) =~= paths_view(paths@));
    }
}

proof fn lemma_kept_all(els: Seq<NodeId>, keep: spec_fn(NodeId) -> bool)
    requires
        forall|i: int| 0 <= i < els.len() ==> keep(#[trigger] els[i]),
    ensures
        kept_where(els, keep) == els,
    decreases els.len(),
{
    if els.len() > 0 {
        lemma_kept_all(els.drop_last(), keep);
        assert(keep(els[els.len() - 1]));
        assert(els.drop_last().push(els.last()) =~= els);
    }
}

/// Linking `n` under `p` changes only `p`'s children and `n`'s parent.
proof fn lemma_attached_effects(d: DocV, p: NodeId, i: int, n: NodeId)
    requires
        d.valid(p),
        d.valid(n),
        p != n,
    ensures
        forall|y: NodeId| d.valid(y) ==> #[trigger] d.attached_at(p, i, n).kind(y) == d.kind(y),
        forall|y: NodeId| d.valid(y) && y != p ==> #[trigger] d.attached_at(p, i, n).children(y) == d.children(y),
        forall|y: NodeId| d.valid(y) && y != n ==> #[trigger] d.attached_at(p, i, n).parent(y) == d.parent(y),
        d.attached_at(p, i, n).parent(n) == Some(p),
        d.attached_at(p, i, n).nodes.len() == d.nodes.len(),
        d.attached_at(p, i, n).svg == d.svg,
{
    let d2 = d.attached_at(p, i, n);
    assert forall|y: NodeId| d.valid(y) implies #[trigger] d2.kind(y) == d.kind(y) by {
        if y != n && y != p {
            assert(d2.nodes[y as int] == d.nodes[y as int]);
        }
    }
    assert forall|y: NodeId| d.valid(y) && y != p implies #[trigger] d2.children(y) == d.children(y) by {
        if y != n {
            assert(d2.nodes[y as int] == d.nodes[y as int]);
        }
    }
    assert forall|y: NodeId| d.valid(y) && y != n implies #[trigger] d2.parent(y) == d.parent(y) by {
        if y != p {
            assert(d2.nodes[y as int] == d.nodes[y as int]);
        }
    }
}

#[verifier::rlimit(40)]
fn build_marker(doc: &mut Doc, name: &str, i: usize, m: &MarkerData) -> (mk: NodeId)
    requires
        old(doc).wf(),
        i < 3,
        old(doc)@.nodes.len() + m.paths@.len() + 2 < u32::MAX,
    ensures
        final(doc).wf(),
        final(doc)@ == marker_built(old(doc)@, name@, i as int, m@),
        mk as int == old(doc)@.nodes.len(),
        final(doc)@.valid(mk),
        final(doc)@.parent(mk) is None,
        final(doc)@.nodes.len() == old(doc)@.nodes.len() + 1 + m.paths@.len(),
        final(doc)@.svg == old(doc)@.svg,
        final(doc)@.is_element(mk),
        final(doc)@.qname(mk) == "marker"@,
        final(doc)@.attr(mk, TEMPLATE_ATTR@) == Some(name@),
        final(doc)@.attr(mk, POSITION_ATTR@) == Some(POSITIONS[i as int]@),
        plain_attrs(m@.attrs, seq!["id", TEMPLATE_ATTR, POSITION_ATTR]) ==> attrs_except(final(doc)@.attrs(mk), seq!["id", TEMPLATE_ATTR, POSITION_ATTR]) == m@.attrs,
        final(doc)@.children(mk) == node_range(old(doc)@.nodes.len() + 1int, m.paths@.len() as int),
        paths_after(final(doc)@, old(doc)@.nodes.len() as int),
        plain_paths(m@.paths) ==> forall|j: int| 0 <= j < m.paths@.len() ==>
            attrs_except(#[trigger] final(doc)@.attrs((old(doc)@.nodes.len() + 1 + j) as NodeId), seq!["id"]) == m@.paths[j],
        forall|y: NodeId| old(doc)@.valid(y) && y != old(doc)@.svg ==> #[trigger] final(doc)@.kind(y) == old(doc)@.kind(y),
        forall|y: NodeId| old(doc)@.valid(y) ==> #[trigger] final(doc)@.children(y) == old(doc)@.children(y),
        forall|y: NodeId| old(doc)@.valid(y) ==> #[trigger] final(doc)@.parent(y) == old(doc)@.parent(y),
        forall|y: NodeId| old(doc)@.valid(y) ==> !final(doc)@.anc_or_self(mk, y),
        final(doc)@.is_element(old(doc)@.svg) == old(doc)@.is_element(old(doc)@.svg),
        final(doc)@.qname(old(doc)@.svg) == old(doc)@.qname(old(doc)@.svg),
{
    let ghost d = doc@;
    let mk = doc.new_element("marker");
    let ghost da = doc@;
    proof {
        reveal_strlit("marker");
        lemma_attr_set_parents(da, mk, TEMPLATE_ATTR@, name@);
        lemma_attr_set_kinds(da, mk, TEMPLATE_ATTR@, name@);
    }
    doc.set_attr(mk, TEMPLATE_ATTR, name);
    let ghost d1 = doc@;
    proof {
        assert(da.attrs(mk) =~= Seq::<AttrV>::empty());
        assert(crate::dom::attr_pos(Seq::<AttrV>::empty(), TEMPLATE_ATTR@) == -1);
        assert(d1.attrs(mk) =~= seq![AttrV { name: TEMPLATE_ATTR@, value: name@, ws: seq![' '] }]);
        lemma_attr_set_parents(doc@, mk, POSITION_ATTR@, POSITIONS[i as int]@);
        lemma_attr_set_kinds(doc@, mk, POSITION_ATTR@, POSITIONS[i as int]@);
        reveal_strlit("sciink:template");
        reveal_strlit("sciink:position");
        assert(TEMPLATE_ATTR@[7] != POSITION_ATTR@[7]);
    }
    doc.set_attr(mk, POSITION_ATTR, POSITIONS[i]);
    let ghost db = doc@;
    proof {
        assert(db.attr(mk, TEMPLATE_ATTR@) == Some(name@));
        assert(db.is_element(mk) && db.qname(mk) == "marker"@);
        lemma_node_ok(d, d.svg);
        assert(mk != db.svg);
    }
    let skip: [&'static str; 3] = ["id", TEMPLATE_ATTR, POSITION_ATTR];
    copy_attrs(doc, mk, &m.attrs, &skip);
    proof {
        assert(skip@ =~= seq!["id", TEMPLATE_ATTR, POSITION_ATTR]);
        assert(skip@[1]@ == TEMPLATE_ATTR@);
        assert(skip@[2]@ == POSITION_ATTR@);
        assert(listed(skip@, TEMPLATE_ATTR@));
        assert(listed(skip@, POSITION_ATTR@));
        assert(doc@.attr(mk, TEMPLATE_ATTR@) == Some(name@));
        assert(doc@.attr(mk, POSITION_ATTR@) == db.attr(mk, POSITION_ATTR@));
    }
    let ghost dc = doc@;
    proof {
        let base = db.attrs(mk);
        let one = seq![AttrV { name: TEMPLATE_ATTR@, value: name@, ws: seq![' '] }];
        assert(one.drop_first() =~= Seq::<AttrV>::empty());
        assert(crate::dom::attr_pos(one.drop_first(), POSITION_ATTR@) == -1);
        assert(one[0].name != POSITION_ATTR@);
        assert(crate::dom::attr_pos(one, POSITION_ATTR@) == -1);
        assert(base =~= seq![
            AttrV { name: TEMPLATE_ATTR@, value: name@, ws: seq![' '] },
            AttrV { name: POSITION_ATTR@, value: POSITIONS[i as int]@, ws: seq![' '] },
        ]);
        if plain_attrs(m@.attrs, seq!["id", TEMPLATE_ATTR, POSITION_ATTR]) {
            assert(m@.attrs == pairs_of(m.attrs@));
            assert(names_apart(base, pairs_of(m.attrs@))) by {
                assert forall|a: int, b: int| 0 <= a < base.len() && 0 <= b < m@.attrs.len() implies base[a].name != m@.attrs[b].0 by {
                    assert(!listed(skip@, m@.attrs[b].0));
                    if a == 0 {
                        assert(skip@[1]@ == base[a].name);
                    } else {
                        assert(skip@[2]@ == base[a].name);
                    }
                }
            }
            assert(dc.attrs(mk) == base + as_attrvs(m@.attrs));
            lemma_attrs_except_concat(base, as_attrvs(m@.attrs), seq!["id", TEMPLATE_ATTR, POSITION_ATTR]);
            lemma_attrs_except_plain(m@.attrs, seq!["id", TEMPLATE_ATTR, POSITION_ATTR]);
            assert(base.drop_last().drop_last() =~= Seq::<AttrV>::empty());
            assert(listed(seq!["id", TEMPLATE_ATTR, POSITION_ATTR], base[1].name));
            assert(listed(seq!["id", TEMPLATE_ATTR, POSITION_ATTR], base[0].name));
            assert(base.drop_last() =~= seq![base[0]]);
            let sk = seq!["id", TEMPLATE_ATTR, POSITION_ATTR];
            assert(sk[2]@ == base[1].name);
            assert(sk[1]@ == base[0].name);
            assert(attrs_except(base.drop_last().drop_last(), sk) =~= Seq::<(Seq<char>, Seq<char>)>::empty());
            assert(attrs_except(base.drop_last(), sk) == attrs_except(base.drop_last().drop_last(), sk));
            assert(attrs_except(base, sk) == attrs_except(base.drop_last(), sk));
            assert(attrs_except(base, seq!["id", TEMPLATE_ATTR, POSITION_ATTR]) =~= Seq::<(Seq<char>, Seq<char>)>::empty());
            assert(attrs_except(dc.attrs(mk), seq!["id", TEMPLATE_ATTR, POSITION_ATTR]) =~= m@.attrs);
        }
    }
    add_paths(doc, mk, &m.paths);
    let ghost dd = doc@;
    proof {
        assert(dd.kind(mk) == dc.kind(mk));
        assert(paths_view(m.paths@) == m@.paths);
        assert(dc.children(mk) == da.children(mk));
        assert(da.children(mk) =~= Seq::<NodeId>::empty());
    }
    proof {
        assert(paths_view(m.paths@) == m@.paths);
        assert(parents_kept(da, dd));
        assert(dd.parent(mk) is None);
        lemma_node_ok(d, d.svg);
        lemma_fresh_not_anc(d, da.kind(mk), d.svg, dd.dep(d.svg));
        lemma_parents_kept_anc(da, dd, mk, d.svg, dd.dep(d.svg));
    }
    proof {
        assert forall|y: NodeId| d.valid(y) && y != d.svg implies #[trigger] dd.kind(y) == d.kind(y) by {
            assert(da.kind(y) == d.kind(y));
            assert(y != mk);
            assert(d1.kind(y) == da.kind(y));
            assert(db.kind(y) == d1.kind(y));
            assert(dc.kind(y) == db.kind(y));
        }
        assert forall|y: NodeId| d.valid(y) implies #[trigger] dd.children(y) == d.children(y) by {
            assert(da.children(y) == d.children(y));
            assert(d1.nodes[y as int].children == da.nodes[y as int].children);
            assert(db.nodes[y as int].children == d1.nodes[y as int].children);
            assert(dc.children(y) == db.children(y));
            assert(y != mk);
        }
        assert forall|y: NodeId| d.valid(y) implies #[trigger] dd.parent(y) == d.parent(y) by {
            assert(da.parent(y) == d.parent(y));
        }
        assert forall|y: NodeId| d.valid(y) implies !dd.anc_or_self(mk, y) by {
            lemma_fresh_not_anc(d, da.kind(mk), y, dd.dep(y));
            lemma_parents_kept_anc(da, dd, mk, y, dd.dep(y));
        }
    }
    proof {
        assert(dc.nodes.len() == d.nodes.len() + 1);
        assert forall|j: int| 0 <= j < m.paths@.len() implies paths_view(m.paths@)[j] == #[trigger] m@.paths[j] by {}
        assert(da.kind(d.svg) == d.kind(d.svg));
        assert(d1.kind(d.svg) == da.kind(d.svg));
        assert(db.kind(d.svg) == d1.kind(d.svg));
    }
    mk
}

#[verifier::rlimit(40)]
#[verifier::spinoff_prover]
fn place_marker(doc: &mut Doc, name: &str, i: usize, m: &MarkerData, prev: Option<NodeId>, had_old: bool) -> (mk: NodeId)
    requires
        old(doc).wf(),
        i < 3,
        old(doc)@.nodes.len() + m.paths@.len() + 2 < u32::MAX,
        prev matches Some(p) ==> old(doc)@.valid(p) && old(doc)@.parent(p) == Some(old(doc)@.svg),
    ensures
        final(doc).wf(),
        (final(doc)@, mk) == marker_placed(old(doc)@, name@, i as int, m@, prev, had_old),
        final(doc)@.valid(mk),
        mk as int == old(doc)@.nodes.len(),
        final(doc)@.nodes.len() == old(doc)@.nodes.len() + 1 + m.paths@.len(),
        final(doc)@.svg == old(doc)@.svg,
        final(doc)@.is_element(mk),
        final(doc)@.qname(mk) == "marker"@,
        final(doc)@.attr(mk, TEMPLATE_ATTR@) == Some(name@),
        final(doc)@.attr(mk, POSITION_ATTR@) == Some(POSITIONS[i as int]@),
        final(doc)@.parent(mk) == Some(final(doc)@.svg),
        plain_attrs(m@.attrs, seq!["id", TEMPLATE_ATTR, POSITION_ATTR]) ==> attrs_except(final(doc)@.attrs(mk), seq!["id", TEMPLATE_ATTR, POSITION_ATTR]) == m@.attrs,
        plain_paths(m@.paths) ==> path_attrs(final(doc)@, mk) == m@.paths,
        forall|y: NodeId| old(doc)@.valid(y) && y != old(doc)@.svg ==> #[trigger] final(doc)@.kind(y) == old(doc)@.kind(y),
        forall|y: NodeId| old(doc)@.valid(y) && y != old(doc)@.svg ==> #[trigger] final(doc)@.children(y) == old(doc)@.children(y),
        forall|y: NodeId| old(doc)@.valid(y) ==> #[trigger] final(doc)@.parent(y) == old(doc)@.parent(y),
        paths_after(final(doc)@, old(doc)@.nodes.len() as int),
        final(doc)@.children(mk) == node_range(old(doc)@.nodes.len() + 1int, m.paths@.len() as int),
        final(doc)@.is_element(old(doc)@.svg) == old(doc)@.is_element(old(doc)@.svg),
        final(doc)@.qname(old(doc)@.svg) == old(doc)@.qname(old(doc)@.svg),
{
    let ghost d = doc@;
    let mk = build_marker(doc, name, i, m);
    let ghost dd = doc@;
    proof {
        lemma_node_ok(d, d.svg);
        assert(mk != d.svg);
        assert(paths_after(dd, d.nodes.len() as int));
    }
    let svg = doc.svg();
    let ghost j_at: int = 0;
    match prev {
        Some(p) => {
            proof {
                let pp = dd.parent(p).unwrap();
                lemma_node_ok(dd, p);
                lemma_node_ok(dd, pp);
                let k = crate::dom::pos_in(dd.children(pp), p) + 1;
                if 0 <= k < dd.children(pp).len() {
                    lemma_child(dd, pp, k);
                }
            }
            doc.insert_after(mk, p);
            proof {
                assert(dd.parent(p) == Some(svg));
                assert(dd.detached(mk) == dd);
                match dd.next_sibling(p) {
                    None => {
                        j_at = dd.children(svg).len() as int;
                    },
                    Some(nx) => {
                        let k = crate::dom::pos_in(dd.children(svg), p) + 1;
                        lemma_child(dd, svg, k);
                        assert(nx != mk);
                        assert(dd.parent(nx) == Some(svg));
                        j_at = crate::dom::pos_in(dd.children(svg), nx);
                    },
                }
                assert(doc@ == dd.attached_at(svg, j_at, mk));
            }
        },
        None => {
            if had_old {
                proof {
                    if dd.children(svg).len() > 0 {
                        lemma_child(dd, svg, 0);
                    }
                }
                doc.prepend_child(svg, mk);
                proof {
                    assert(dd.detached(mk) == dd);
                    if dd.children(svg).len() > 0 {
                        assert(dd.children(svg)[0] != mk);
                        j_at = crate::dom::pos_in(dd.children(svg), dd.children(svg)[0]);
                    } else {
                        j_at = 0;
                    }
                    assert(doc@ == dd.attached_at(svg, j_at, mk));
                }
            } else {
                doc.append_child(svg, mk);
                proof {
                    assert(dd.detached(mk) == dd);
                    j_at = dd.children(svg).len() as int;
                    assert(doc@ == dd.attached_at(svg, j_at, mk));
                }
            }
        },
    }
    proof {
        let df = doc@;
        lemma_attached_effects(dd, svg, j_at, mk);
        assert(df.kind(mk) == dd.kind(mk));
        assert(df.kind(svg) == dd.kind(svg));
        assert(df.children(mk) == dd.children(mk));
        assert forall|y: NodeId| d.valid(y) && y != d.svg implies #[trigger] df.kind(y) == d.kind(y) by {
            assert(df.kind(y) == dd.kind(y));
        }
        assert forall|y: NodeId| d.valid(y) && y != d.svg implies #[trigger] df.children(y) == d.children(y) by {
            assert(df.children(y) == dd.children(y));
        }
        assert forall|y: NodeId| d.valid(y) implies #[trigger] df.parent(y) == d.parent(y) by {
            assert(df.parent(y) == dd.parent(y));
        }
        assert forall|y: NodeId| d.nodes.len() < y < df.nodes.len() implies #[trigger] df.kind(y) == dd.kind(y) by {}
        assert forall|y: NodeId| d.nodes.len() < y < df.nodes.len() implies #[trigger] df.is_element(y) && df.qname(y) == "path"@ by {
            assert(df.kind(y) == dd.kind(y));
            lemma_path_after(dd, d.nodes.len() as int, y);
        }
        assert(paths_after(df, d.nodes.len() as int));
        if plain_paths(m@.paths) {
            let cs = df.children(mk);
            assert(cs == node_range(d.nodes.len() + 1int, m.paths@.len() as int));
            reveal_strlit("path");
            assert(crate::dom::local_name("path"@) == "path"@) by {
                reveal_with_fuel(crate::dom::local_name, 5);
            }
            assert forall|k: int| 0 <= k < cs.len() implies is_path_el(df)(#[trigger] cs[k]) by {
                assert(cs[k] == (d.nodes.len() + 1 + k) as NodeId);
                assert(df.kind(cs[k]) == dd.kind(cs[k]));
                assert(d.nodes.len() < cs[k] < doc@.nodes.len());
                lemma_path_after(dd, d.nodes.len() as int, cs[k]);
                assert(df.is_element(cs[k]) && df.qname(cs[k]) == "path"@);
                assert(df.tag(cs[k]) == "path"@);
            }
            lemma_kept_all(cs, is_path_el(df));
            let pa = path_attrs(df, mk);
            assert(pa.len() == m@.paths.len());
            assert forall|k: int| 0 <= k < pa.len() implies pa[k] == m@.paths[k] by {
                let y = (d.nodes.len() + 1 + k) as NodeId;
                assert(cs[k] == y);
                assert(df.kind(y) == dd.kind(y));
                assert(attrs_except(dd.attrs((d.nodes.len() + 1 + k) as NodeId), seq!["id"]) == m@.paths[k]);
            }
            assert(pa =~= m@.paths);
        }
    }
    mk
}

// ---------------------------------------------------------------------------------------------
// The template the Markers page selects

pub open spec fn template_name_spec(template: u8, custom_name: Seq<char>) -> Result<Seq<char>, Seq<char>> {
    if template == 0 {
        Ok("Arrow"@)
    } else if template == 1 {
        Ok("Triangle"@)
    } else if template == 2 {
        Ok("Distance"@)
    } else if template == 3 {
        if trimmed(custom_name).len() == 0 {
            Err("Custom template selected: type its template name in the box below the template list."@)
        } else {
            Ok(trimmed(custom_name))
        }
    } else {
        Err("unknown template option "@ + decimal(template as nat) + " (0\u{2013}3)"@)
    }
}

/// The template the Markers page selects: the three built-in names for options 0 to 2, the
/// trimmed custom name for option 3.
pub fn template_name(template: u8, custom_name: &str) -> (r: Result<String, String>)
    ensures
        match r {
            Ok(n) => template_name_spec(template, custom_name@) == Ok::<Seq<char>, Seq<char>>(n@),
            Err(e) => template_name_spec(template, custom_name@) == Err::<Seq<char>, Seq<char>>(e@),
        },
{
    proof {
        reveal_strlit("Arrow");
        reveal_strlit("Triangle");
        reveal_strlit("Distance");
    }
    if template == 0 {
        Ok(String::from_str("Arrow"))
    } else if template == 1 {
        Ok(String::from_str("Triangle"))
    } else if template == 2 {
        Ok(String::from_str("Distance"))
    } else if template == 3 {
        let n = trim(custom_name);
        if n.as_str().is_empty() {
            Err(String::from_str("Custom template selected: type its template name in the box below the template list."))
        } else {
            Ok(n)
        }
    } else {
        let mut e = String::from_str("unknown template option ");
        push_decimal(template as u128, &mut e);
        e.append(" (0\u{2013}3)");
        Err(e)
    }
}


// ---------------------------------------------------------------------------------------------
// Reading back a stored template

/// Templates whose markers and paths copying writes back as they are (distinct attribute names,
/// no `id` or store attribute, prefixes that can be declared).
pub open spec fn plain_template(tv: Seq<Option<MarkerDataV>>) -> bool {
    forall|j: int| 0 <= j < tv.len() ==> (#[trigger] tv[j] matches Some(m) ==> plain_attrs(m.attrs, seq!["id", TEMPLATE_ATTR, POSITION_ATTR])
        && plain_paths(m.paths))
}

/// `mk` is the marker stored for position `j` of template `name`, holding `m`.
pub open spec fn marker_ok(d: DocV, mk: NodeId, name: Seq<char>, j: int, m: MarkerDataV) -> bool {
    &&& d.valid(mk)
    &&& d.parent(mk) == Some(d.svg)
    &&& d.is_element(mk)
    &&& d.qname(mk) == "marker"@
    &&& d.attr(mk, TEMPLATE_ATTR@) == Some(name)
    &&& d.attr(mk, POSITION_ATTR@) == Some(POSITIONS[j]@)
    &&& d.children(mk) == node_range(mk + 1int, m.paths.len() as int)
    &&& (plain_attrs(m.attrs, seq!["id", TEMPLATE_ATTR, POSITION_ATTR]) ==> attrs_except(d.attrs(mk), seq!["id", TEMPLATE_ATTR, POSITION_ATTR]) == m.attrs)
    &&& (plain_paths(m.paths) ==> path_attrs(d, mk) == m.paths)
}

/// The nodes from `lo` on are the markers `mks` of the positions placed so far, or `<path>`s.
pub open spec fn new_nodes_ok(d: DocV, lo: int, mks: Seq<NodeId>, tv: Seq<Option<MarkerDataV>>, i: int) -> bool {
    forall|y: NodeId|
        #![trigger d.qname(y)]
        lo <= y < d.nodes.len() ==> placed_at(mks, tv, i, y) || (d.is_element(y) && d.qname(y) == "path"@)
}

/// `y` is the marker of one of the first `i` positions.
pub open spec fn placed_at(mks: Seq<NodeId>, tv: Seq<Option<MarkerDataV>>, i: int, y: NodeId) -> bool {
    exists|j: int| 0 <= j < i && tv[j] is Some && #[trigger] mks[j] == y
}

proof fn lemma_new_node_at(d: DocV, lo: int, mks: Seq<NodeId>, tv: Seq<Option<MarkerDataV>>, i: int, y: NodeId)
    requires
        new_nodes_ok(d, lo, mks, tv, i),
        lo <= y < d.nodes.len(),
    ensures
        placed_at(mks, tv, i, y) || (d.is_element(y) && d.qname(y) == "path"@),
{
    assert(d.qname(y) == d.qname(y));
}

proof fn lemma_new_nodes_mono(d: DocV, lo: int, mks: Seq<NodeId>, tv: Seq<Option<MarkerDataV>>, i: int, k: int)
    requires
        new_nodes_ok(d, lo, mks, tv, i),
        i <= k,
    ensures
        new_nodes_ok(d, lo, mks, tv, k),
{
    assert forall|y: NodeId| lo <= y < d.nodes.len() implies #[trigger] placed_at(mks, tv, k, y)
        || (d.is_element(y) && d.qname(y) == "path"@) by {
        lemma_new_node_at(d, lo, mks, tv, i, y);
        if placed_at(mks, tv, i, y) {
            let j = choose|j: int| 0 <= j < i && tv[j] is Some && #[trigger] mks[j] == y;
            assert(mks[j] == y);
            assert(placed_at(mks, tv, k, y));
        }
    }
    assert(new_nodes_ok(d, lo, mks, tv, k));
}

proof fn lemma_new_nodes_step(before: DocV, after: DocV, lo: int, mks_old: Seq<NodeId>, tv: Seq<Option<MarkerDataV>>, i: int, mk: NodeId)
    requires
        new_nodes_ok(before, lo, mks_old, tv, i),
        0 <= i < mks_old.len(),
        0 <= i < tv.len(),
        tv[i] is Some,
        mk as int == before.nodes.len(),
        before.nodes.len() < after.nodes.len(),
        before.valid(before.svg),
        before.svg < lo,
        paths_after(after, before.nodes.len() as int),
        forall|y: NodeId| before.valid(y) && y != before.svg ==> #[trigger] after.kind(y) == before.kind(y),
    ensures
        new_nodes_ok(after, lo, mks_old.update(i, mk), tv, i + 1),
{
    let mks = mks_old.update(i, mk);
    assert forall|y: NodeId| lo <= y < after.nodes.len() implies #[trigger] placed_at(mks, tv, i + 1, y)
        || (after.is_element(y) && after.qname(y) == "path"@) by {
        if y == mk {
            assert(mks[i] == y);
            assert(placed_at(mks, tv, i + 1, y));
        } else if y > mk {
            lemma_path_after(after, before.nodes.len() as int, y);
        } else {
            lemma_new_node_at(before, lo, mks_old, tv, i, y);
            assert(after.kind(y) == before.kind(y));
            if placed_at(mks_old, tv, i, y) {
                let j = choose|j: int| 0 <= j < i && tv[j] is Some && #[trigger] mks_old[j] == y;
                assert(mks[j] == y);
                assert(placed_at(mks, tv, i + 1, y));
            }
        }
    }
    assert(new_nodes_ok(after, lo, mks, tv, i + 1));
}

/// What a later placement leaves of an earlier marker.
proof fn lemma_marker_ok_kept(d1: DocV, d2: DocV, mk: NodeId, name: Seq<char>, j: int, m: MarkerDataV)
    requires
        marker_ok(d1, mk, name, j, m),
        mk != d1.svg,
        d2.svg == d1.svg,
        d1.nodes.len() <= d2.nodes.len(),
        forall|y: NodeId| d1.valid(y) && y != d1.svg ==> #[trigger] d2.kind(y) == d1.kind(y),
        forall|y: NodeId| d1.valid(y) && y != d1.svg ==> #[trigger] d2.children(y) == d1.children(y),
        forall|y: NodeId| d1.valid(y) ==> #[trigger] d2.parent(y) == d1.parent(y),
        forall|k: int| 0 <= k < d1.children(mk).len() ==> d1.valid(#[trigger] d1.children(mk)[k]) && d1.children(mk)[k] != d1.svg,
    ensures
        marker_ok(d2, mk, name, j, m),
{
    assert(d2.kind(mk) == d1.kind(mk));
    assert(d2.children(mk) == d1.children(mk));
    let cs = d1.children(mk);
    assert forall|k: int| 0 <= k < cs.len() implies #[trigger] d2.kind(cs[k]) == d1.kind(cs[k]) by {}
    assert(is_path_el(d1) =~= is_path_el(d1));
    lemma_kept_same(cs, is_path_el(d1), is_path_el(d2));
    let ks = kept_where(cs, is_path_el(d1));
    lemma_kept_members(cs, is_path_el(d1));
    assert(path_attrs(d2, mk) =~= path_attrs(d1, mk)) by {
        assert forall|k: int| 0 <= k < ks.len() implies d2.attrs(#[trigger] ks[k]) == d1.attrs(ks[k]) by {
            let q = choose|q: int| 0 <= q < cs.len() && cs[q] == ks[k];
            assert(d2.kind(cs[q]) == d1.kind(cs[q]));
        }
    }
}

/// Reading markers in any order gives each position the data of its one named marker.
proof fn lemma_template_prefix(d: DocV, ms: Seq<NodeId>, name: Seq<char>, mks: Seq<NodeId>, tv: Seq<Option<MarkerDataV>>, k: int)
    requires
        tv.len() == 3,
        mks.len() == 3,
        0 <= k <= ms.len(),
        forall|q: int| 0 <= q < ms.len() && d.attr(#[trigger] ms[q], TEMPLATE_ATTR@) == Some(name)
            ==> exists|j: int| 0 <= j < 3 && tv[j] is Some && mks[j] == ms[q],
        forall|j: int| 0 <= j < 3 && (#[trigger] tv[j]) is Some ==> position_index(d, mks[j]) == Some(j)
            && d.attr(mks[j], TEMPLATE_ATTR@) == Some(name) && tv[j] == Some(marker_data_of(d, mks[j])),
        forall|j1: int, j2: int| 0 <= j1 < 3 && 0 <= j2 < 3 && j1 != j2 && tv[j1] is Some && tv[j2] is Some
            ==> mks[j1] != mks[j2],
    ensures
        template_from(d, ms.subrange(0, k), name).len() == 3,
        forall|j: int| 0 <= j < 3 ==> #[trigger] template_from(d, ms.subrange(0, k), name)[j] == (if tv[j] is Some
            && ms.subrange(0, k).contains(mks[j]) {
            tv[j]
        } else {
            None
        }),
    decreases k,
{
    let p = ms.subrange(0, k);
    if k == 0 {
        assert(p =~= Seq::<NodeId>::empty());
    } else {
        lemma_template_prefix(d, ms, name, mks, tv, k - 1);
        let q = ms.subrange(0, k - 1);
        assert(p.drop_last() =~= q);
        let last = ms[k - 1];
        assert(p.last() == last);
        let t = template_from(d, q, name);
        assert forall|j: int| 0 <= j < 3 && tv[j] is Some implies p.contains(mks[j]) == (q.contains(mks[j]) || mks[j] == last) by {
            if p.contains(mks[j]) {
                let x = choose|x: int| 0 <= x < p.len() && p[x] == mks[j];
                if x < k - 1 {
                    assert(q[x] == mks[j]);
                }
            }
            if q.contains(mks[j]) {
                let x = choose|x: int| 0 <= x < q.len() && q[x] == mks[j];
                assert(p[x] == mks[j]);
            }
            if mks[j] == last {
                assert(p[k - 1] == last);
            }
        }
        if d.attr(last, TEMPLATE_ATTR@) == Some(name) {
            assert(d.attr(ms[k - 1], TEMPLATE_ATTR@) == Some(name));
            let j0 = choose|j: int| 0 <= j < 3 && tv[j] is Some && mks[j] == ms[k - 1];
            assert(tv[j0] is Some);
            assert(position_index(d, last) == Some(j0));
            assert forall|j: int| 0 <= j < 3 implies #[trigger] template_from(d, p, name)[j] == (if tv[j] is Some
                && p.contains(mks[j]) {
                tv[j]
            } else {
                None
            }) by {
                assert(t[j] == (if tv[j] is Some && q.contains(mks[j]) { tv[j] } else { None }));
                if j != j0 && tv[j] is Some {
                    assert(mks[j] != mks[j0]);
                }
            }
        } else {
            assert forall|j: int| 0 <= j < 3 implies #[trigger] template_from(d, p, name)[j] == (if tv[j] is Some
                && p.contains(mks[j]) {
                tv[j]
            } else {
                None
            }) by {
                assert(t[j] == (if tv[j] is Some && q.contains(mks[j]) { tv[j] } else { None }));
                if tv[j] is Some {
                    assert(d.attr(mks[j], TEMPLATE_ATTR@) == Some(name));
                }
            }
        }
    }
}

/// A `<marker>` child of the root is one of the store's markers.
proof fn lemma_in_markers(d: DocV, mk: NodeId)
    requires
        d.wf(),
        d.valid(mk),
        d.parent(mk) == Some(d.svg),
        d.is_element(mk),
        d.qname(mk) == "marker"@,
    ensures
        markers_of(d).contains(mk),
{
    crate::dom::lemma_anc_unfold(d, d.svg, mk);
    crate::dom::lemma_node_ok(d, mk);
    crate::dom::lemma_anc_unfold(d, d.svg, d.svg);
    lemma_subtree_contains(d, d.svg, mk);
    reveal_strlit("marker");
    assert(crate::dom::local_name("marker"@) == "marker"@) by {
        reveal_with_fuel(crate::dom::local_name, 7);
    }
    assert(is_marker_el(d)(mk));
    lemma_kept_members(d.subtree(d.svg), is_marker_el(d));
    let k = choose|k: int| 0 <= k < d.subtree(d.svg).len() && d.subtree(d.svg)[k] == mk;
    assert(is_marker_el(d)(d.subtree(d.svg)[k]));
}

/// After a store, the markers carrying the template's name are exactly the new ones, and each
/// position reads back what was stored there.
proof fn lemma_stored_reads_back(
    d0: DocV,
    dd: DocV,
    df: DocV,
    name: Seq<char>,
    tv: Seq<Option<MarkerDataV>>,
    mks: Seq<NodeId>,
)
    requires
        d0.wf(),
        !is_marker_el(d0)(d0.svg),
        dd == all_detached(d0, named_markers(d0, name)),
        df.wf(),
        df.svg == d0.svg,
        dd.nodes.len() == d0.nodes.len(),
        dd.nodes.len() <= df.nodes.len(),
        forall|y: NodeId| dd.valid(y) ==> #[trigger] df.parent(y) == dd.parent(y),
        forall|y: NodeId| dd.valid(y) && y != dd.svg ==> #[trigger] df.kind(y) == dd.kind(y),
        df.is_element(df.svg) == dd.is_element(df.svg),
        df.qname(df.svg) == dd.qname(df.svg),
        new_nodes_ok(df, dd.nodes.len() as int, mks, tv, 3),
        tv.len() == 3,
        mks.len() == 3,
        plain_template(tv),
        forall|j: int| 0 <= j < 3 && (#[trigger] tv[j]) is Some ==> marker_ok(df, mks[j], name, j, tv[j]->0)
            && dd.nodes.len() <= mks[j],
        forall|j1: int, j2: int| 0 <= j1 < 3 && 0 <= j2 < 3 && j1 != j2 && tv[j1] is Some && tv[j2] is Some
            ==> mks[j1] != mks[j2],
    ensures
        template_from(df, markers_of(df), name) == tv,
{
    let ns = named_markers(d0, name);
    let ms = markers_of(df);
    lemma_subtree_valid(d0, d0.svg);
    lemma_kept_valid(d0, d0.subtree(d0.svg), is_marker_el(d0));
    lemma_kept_valid(d0, markers_of(d0), is_named(d0, name));
    lemma_kept_members(d0.subtree(d0.svg), is_marker_el(d0));
    lemma_kept_members(markers_of(d0), is_named(d0, name));
    lemma_all_detached(d0, ns, ns.len() as int);
    assert(ns.subrange(0, ns.len() as int) =~= ns);
    lemma_subtree_valid(df, df.svg);
    lemma_subtree_members(df, df.svg);
    lemma_kept_members(df.subtree(df.svg), is_marker_el(df));
    reveal_strlit("marker");
    reveal_strlit("path");
    reveal_strlit("start");
    reveal_strlit("mid");
    reveal_strlit("end");
    assert(crate::dom::local_name("marker"@) == "marker"@) by {
        reveal_with_fuel(crate::dom::local_name, 7);
    }
    assert(crate::dom::local_name("path"@) == "path"@) by {
        reveal_with_fuel(crate::dom::local_name, 5);
    }
    // every named marker read is one of the new ones
    assert forall|q: int| 0 <= q < ms.len() && df.attr(#[trigger] ms[q], TEMPLATE_ATTR@) == Some(name)
        implies exists|j: int| 0 <= j < 3 && tv[j] is Some && mks[j] == ms[q] by {
        let z = ms[q];
        assert(ms.contains(z));
        let sub = df.subtree(df.svg);
        let k = choose|k: int| 0 <= k < sub.len() && sub[k] == z;
        assert(df.valid(sub[k]) && df.anc_or_self(df.svg, sub[k]));
        assert(is_marker_el(df)(z));
        if z >= dd.nodes.len() {
            assert(df.qname(z) == df.qname(z));
            if !placed_at(mks, tv, 3, z) {
                assert(df.is_element(z) && df.qname(z) == "path"@);
                assert(df.tag(z) == "path"@);
                assert("path"@.len() != "marker"@.len());
            }
        } else {
            if z == df.svg {
                assert(dd.kind(d0.svg) == d0.kind(d0.svg));
                assert(is_marker_el(d0)(d0.svg));
            }
            assert(df.kind(z) == dd.kind(z));
            assert(dd.kind(z) == d0.kind(z));
            lemma_anc_back(dd, df, df.svg, z, df.dep(z));
            lemma_anc_f_sound(dd, dd.svg, z, df.dep(z));
            lemma_anc_back(d0, dd, d0.svg, z, dd.dep(z));
            lemma_anc_f_sound(d0, d0.svg, z, dd.dep(z));
            lemma_subtree_contains(d0, d0.svg, z);
            let js = choose|js: int| 0 <= js < d0.subtree(d0.svg).len() && d0.subtree(d0.svg)[js] == z;
            assert(is_marker_el(d0)(d0.subtree(d0.svg)[js]));
            assert(markers_of(d0).contains(z));
            let jm = choose|jm: int| 0 <= jm < markers_of(d0).len() && markers_of(d0)[jm] == z;
            assert(is_named(d0, name)(markers_of(d0)[jm]));
            assert(ns.contains(z));
            let jn = choose|jn: int| 0 <= jn < ns.len() && ns[jn] == z;
            assert(dd.parent(ns[jn]) is None);
            assert(df.parent(z) is None);
            assert(!df.anc_f(df.svg, z, df.dep(z)));
        }
    }
    // each new marker is read, at its own position, with what was stored
    assert forall|j: int| 0 <= j < 3 && (#[trigger] tv[j]) is Some implies position_index(df, mks[j]) == Some(j)
        && df.attr(mks[j], TEMPLATE_ATTR@) == Some(name) && tv[j] == Some(marker_data_of(df, mks[j])) by {
        let m = tv[j]->0;
        assert(marker_ok(df, mks[j], name, j, m));
        assert(POSITIONS[0]@ != POSITIONS[1]@) by {
            assert(POSITIONS[0]@.len() != POSITIONS[1]@.len());
        }
        assert(POSITIONS[0]@ != POSITIONS[2]@) by {
            assert(POSITIONS[0]@.len() != POSITIONS[2]@.len());
        }
        assert(POSITIONS[1]@ != POSITIONS[2]@) by {
            assert(POSITIONS[1]@[0] != POSITIONS[2]@[0]);
        }
        assert(plain_attrs(m.attrs, seq!["id", TEMPLATE_ATTR, POSITION_ATTR]) && plain_paths(m.paths));
    }
    assert forall|j: int| 0 <= j < 3 && (#[trigger] tv[j]) is Some implies ms.contains(mks[j]) by {
        lemma_in_markers(df, mks[j]);
    }
    lemma_template_prefix(df, ms, name, mks, tv, ms.len() as int);
    assert(ms.subrange(0, ms.len() as int) =~= ms);
    assert(template_from(df, ms, name) =~= tv);
}

/// Two tests that agree on `els` keep the same members.
proof fn lemma_kept_same(els: Seq<NodeId>, k1: spec_fn(NodeId) -> bool, k2: spec_fn(NodeId) -> bool)
    requires
        forall|i: int| 0 <= i < els.len() ==> k1(#[trigger] els[i]) == k2(els[i]),
    ensures
        kept_where(els, k1) == kept_where(els, k2),
    decreases els.len(),
{
    if els.len() > 0 {
        assert(k1(els[els.len() - 1]) == k2(els[els.len() - 1]));
        lemma_kept_same(els.drop_last(), k1, k2);
    }
}

// ---------------------------------------------------------------------------------------------
// Adding and removing templates

/// Elements that take markers.
pub const SHAPE_TAGS: [&'static str; 6] = ["path", "line", "polyline", "rect", "circle", "ellipse"];

pub open spec fn is_shape(d: DocV) -> spec_fn(NodeId) -> bool {
    |n: NodeId| d.is_element(n) && listed(SHAPE_TAGS@, d.tag(n))
}

proof fn lemma_ordered_selection_valid(d: DocV, ids: Seq<Seq<char>>)
    requires
        d.wf(),
    ensures
        all_valid(d, d.ordered_selection(ids)),
    decreases ids.len(),
{
    if ids.len() > 0 {
        lemma_ordered_selection_valid(d, ids.drop_last());
        let r = d.ordered_selection(ids.drop_last());
        let k = ids.last();
        if d.ids.contains_key(k) && !r.contains(d.ids[k]) {
            assert forall|j: int| 0 <= j < r.push(d.ids[k]).len() implies d.valid(#[trigger] r.push(d.ids[k])[j]) by {
                if j < r.len() {
                    assert(r.push(d.ids[k])[j] == r[j]);
                }
            }
        }
    }
}

/// The selected objects and the elements under them that take markers, in selection order,
/// each once.
pub fn shapes(doc: &Doc, ids: &[String]) -> (r: Vec<NodeId>)
    requires
        doc.wf(),
    ensures
        r@ == gathered(doc@, doc@.ordered_selection(strings_view(ids@)), is_shape(doc@)),
        all_valid(doc@, r@),
{
    let roots = doc.selection_ordered(ids);
    let ghost rs = roots@;
    proof {
        lemma_ordered_selection_valid(doc@, strings_view(ids@));
    }
    let mut out: Vec<NodeId> = Vec::new();
    let mut i: usize = 0;
    while i < roots.len()
        invariant
            doc.wf(),
            roots@ == rs,
            all_valid(doc@, rs),
            i <= roots@.len(),
            out@ == gathered(doc@, rs.subrange(0, i as int), is_shape(doc@)),
            all_valid(doc@, out@),
        decreases roots@.len() - i,
    {
        let root = roots[i];
        proof {
            assert(rs.subrange(0, i + 1).drop_last() =~= rs.subrange(0, i as int));
            assert(doc@.valid(rs[i as int]));
        }
        let ds = doc.descendants(root);
        let ghost acc = out@;
        proof {
            lemma_subtree_valid(doc@, root);
            assert(ds@.subrange(0, 0) =~= Seq::<NodeId>::empty());
        }
        let mut j: usize = 0;
        while j < ds.len()
            invariant
                doc.wf(),
                ds@ == doc@.subtree(root),
                forall|k: int| 0 <= k < ds@.len() ==> doc@.valid(#[trigger] ds@[k]),
                j <= ds@.len(),
                out@ == added_where(acc, ds@.subrange(0, j as int), is_shape(doc@)),
                all_valid(doc@, out@),
            decreases ds@.len() - j,
        {
            let n = ds[j];
            proof {
                assert(ds@.subrange(0, j + 1).drop_last() =~= ds@.subrange(0, j as int));
                assert(doc@.valid(ds@[j as int]));
            }
            if doc.is_element(n) && in_list(&SHAPE_TAGS, doc.tag(n)) && !vec_contains(&out, n) {
                out.push(n);
            }
            j = j + 1;
        }
        proof {
            assert(ds@.subrange(0, ds@.len() as int) =~= ds@);
        }
        i = i + 1;
    }
    proof {
        assert(rs.subrange(0, rs.len() as int) =~= rs);
    }
    out
}

/// The start, mid and end markers `n` is drawn with, as a template.
pub open spec fn marker_template(d: DocV, n: NodeId) -> Seq<Option<MarkerDataV>> {
    let st = specified_of(d, n);
    seq![
        marker_props_spec(d, style_get(st, "marker-start"@)),
        marker_props_spec(d, style_get(st, "marker-mid"@)),
        marker_props_spec(d, style_get(st, "marker-end"@)),
    ]
}

/// A shape's template holds its markers by position: entry 0 is the marker its specified
/// `marker-start` names, entry 1 the one `marker-mid` names, entry 2 the one `marker-end`
/// names, and there are no others.
pub proof fn law_template_by_position(d: DocV, n: NodeId)
    ensures
        marker_template(d, n).len() == 3,
        marker_template(d, n)[0] == marker_props_spec(d, style_get(specified_of(d, n), "marker-start"@)),
        marker_template(d, n)[1] == marker_props_spec(d, style_get(specified_of(d, n), "marker-mid"@)),
        marker_template(d, n)[2] == marker_props_spec(d, style_get(specified_of(d, n), "marker-end"@)),
{
}

pub fn marker_template_of(doc: &Doc, n: NodeId) -> (r: [Option<MarkerData>; 3])
    requires
        doc.wf(),
        doc@.valid(n),
    ensures
        template_view(r@) == marker_template(doc@, n),
{
    let st = doc.specified_style(n);
    let a = marker_props(doc, st.get("marker-start"));
    let b = marker_props(doc, st.get("marker-mid"));
    let c = marker_props(doc, st.get("marker-end"));
    let r = [a, b, c];
    proof {
        assert(template_view(r@) =~= marker_template(doc@, n));
    }
    r
}

proof fn lemma_kept_len(els: Seq<NodeId>, keep: spec_fn(NodeId) -> bool)
    ensures
        kept_where(els, keep).len() <= els.len(),
    decreases els.len(),
{
    if els.len() > 0 {
        lemma_kept_len(els.drop_last(), keep);
    }
}

/// A node has no more children than the document has nodes.
proof fn lemma_children_len(d: DocV, n: NodeId)
    requires
        d.wf(),
        d.valid(n),
    ensures
        d.children(n).len() <= d.nodes.len(),
{
    lemma_node_ok(d, n as NodeId);
    let cs = d.children(n);
    cs.unique_seq_to_set();
    let xs = cs.to_set();
    let f = |x: NodeId| x as int;
    let ys = xs.map(f);
    assert(vstd::relations::injective_on(f, xs));
    vstd::set_lib::lemma_map_size(xs, ys, f);
    let all = vstd::set_lib::set_int_range(0, d.nodes.len() as int);
    vstd::set_lib::lemma_int_range(0, d.nodes.len() as int);
    assert forall|y: int| ys.contains(y) implies all.contains(y) by {
        let x = choose|x: NodeId| xs.contains(x) && f(x) == y;
        let k = choose|k: int| 0 <= k < cs.len() && cs[k] == x;
        lemma_child(d, n, k);
    }
    vstd::set_lib::lemma_len_subset(ys, all);
}

proof fn lemma_first_element_in(d: DocV, cs: Seq<NodeId>, i: int)
    requires
        0 <= i,
    ensures
        first_element_child(d, cs, i) matches Some(x) ==> cs.contains(x),
    decreases cs.len() - i,
{
    if 0 <= i < cs.len() && !d.is_element(cs[i]) {
        lemma_first_element_in(d, cs, i + 1);
    }
}

proof fn lemma_marker_props_size(d: DocV, murl: Option<Seq<char>>)
    requires
        d.wf(),
    ensures
        marker_props_spec(d, murl) matches Some(m) ==> m.paths.len() <= d.nodes.len(),
{
    if let Some(u) = murl {
        if let Some(id) = url_id_of(trimmed(u)) {
            if d.ids.contains_key(id) {
                let mk = d.ids[id];
                lemma_first_element_in(d, d.children(mk), 0);
                if let Some(first) = first_element_child(d, d.children(mk), 0) {
                    let k = choose|k: int| 0 <= k < d.children(mk).len() && d.children(mk)[k] == first;
                    lemma_child(d, mk, k);
                    let parent = if d.tag(first) == "g"@ {
                        first
                    } else {
                        mk
                    };
                    lemma_children_len(d, parent);
                    lemma_kept_len(d.children(parent), is_path_el(d));
                }
            }
        }
    }
}

proof fn lemma_marker_template_size(d: DocV, n: NodeId)
    requires
        d.wf(),
    ensures
        template_size(marker_template(d, n), 3) <= 3 * d.nodes.len() + 3,
{
    let st = specified_of(d, n);
    lemma_marker_props_size(d, style_get(st, "marker-start"@));
    lemma_marker_props_size(d, style_get(st, "marker-mid"@));
    lemma_marker_props_size(d, style_get(st, "marker-end"@));
    let t = marker_template(d, n);
    assert(t.len() == 3);
    assert(t[0] == marker_props_spec(d, style_get(st, "marker-start"@)));
    assert(t[1] == marker_props_spec(d, style_get(st, "marker-mid"@)));
    assert(t[2] == marker_props_spec(d, style_get(st, "marker-end"@)));
    assert(template_size(t, 0) == 0);
    assert(template_size(t, 1) <= d.nodes.len() + 1);
    assert(template_size(t, 2) <= 2 * d.nodes.len() + 2);
}

pub open spec fn all_none(t: Seq<Option<MarkerDataV>>) -> bool {
    forall|i: int| 0 <= i < t.len() ==> t[i] is None
}

/// The store after the "add" box: the selection's first shape's markers stored under the trimmed
/// name, or the error that stops the run.
pub open spec fn after_add(d: DocV, s: DocV, ids: Seq<Seq<char>>, addt: bool, name: Seq<char>) -> Result<(DocV, bool), Seq<char>> {
    if !addt {
        Ok((s, false))
    } else {
        let n = trimmed(name);
        let sh = gathered(d, d.ordered_selection(ids), is_shape(d));
        if n.len() == 0 {
            Err("Give the new template a name."@)
        } else if sh.len() == 0 {
            Err("Select a path whose markers should become the template."@)
        } else if all_none(marker_template(d, sh[0])) {
            Err("The selected path has no markers to store."@)
        } else {
            Ok((template_stored(s, n, marker_template(d, sh[0])), true))
        }
    }
}

pub open spec fn not_stored_warning(name: Seq<char>) -> Seq<char> {
    "warning: template '"@ + name + "' is not stored; nothing removed"@
}

pub open spec fn list_message(s: DocV) -> Seq<char> {
    "favorite-markers: stored templates: "@ + joined_with(template_names(s, markers_of(s)), ", "@)
}

/// The "Add / remove" page: the store afterwards, whether it changed (and so is to be saved),
/// and the messages; or the error that stops the run, leaving the store as it was.
pub open spec fn add_remove_spec(d: DocV, s: DocV, ids: Seq<Seq<char>>, addt: bool, name: Seq<char>, remt: bool, rem: Seq<char>, list: bool) -> Result<(DocV, bool, Seq<Seq<char>>), Seq<char>> {
    match after_add(d, s, ids, addt, name) {
        Err(e) => Err(e),
        Ok((s1, c1)) => {
            let r = trimmed(rem);
            let gone = named_markers(s1, r);
            let (s2, c2, w) = if !remt {
                (s1, c1, Seq::<Seq<char>>::empty())
            } else if gone.len() > 0 {
                (all_detached(s1, gone), true, Seq::<Seq<char>>::empty())
            } else {
                (s1, c1, seq![not_stored_warning(r)])
            };
            let m1 = if c2 {
                w.push("Templates successfully updated!"@)
            } else {
                w
            };
            let m2 = if list {
                m1.push(list_message(s2))
            } else {
                m1
            };
            Ok((s2, c2, m2))
        },
    }
}

/// What the "Add / remove" page did: whether the store is to be saved, and the messages.
pub struct AddRemove {
    pub changed: bool,
    pub messages: Vec<String>,
}

/// The "Add / remove" page: store the markers of the first selected shape under `template_name`
/// when `addt`, remove the template `template_rem` when `remt`, list the templates when `list`.
pub fn add_remove(
    doc: &Doc,
    store: &mut Store,
    ids: &[String],
    addt: bool,
    template_name: &str,
    remt: bool,
    template_rem: &str,
    list: bool,
) -> (r: Result<AddRemove, String>)
    requires
        doc.wf(),
        old(store).well_formed(),
        old(store)@.nodes.len() + 3 * doc@.nodes.len() + 6 < u32::MAX,
    ensures
        final(store).well_formed(),
        match r {
            Ok(a) => add_remove_spec(doc@, old(store)@, strings_view(ids@), addt, template_name@, remt, template_rem@, list)
                == Ok::<(DocV, bool, Seq<Seq<char>>), Seq<char>>((final(store)@, a.changed, strings_view(a.messages@))),
            Err(e) => add_remove_spec(doc@, old(store)@, strings_view(ids@), addt, template_name@, remt, template_rem@, list)
                == Err::<(DocV, bool, Seq<Seq<char>>), Seq<char>>(e@) && final(store)@ == old(store)@,
        },
{
    let ghost s0 = store@;
    let mut changed = false;
    if addt {
        let n = trim(template_name);
        if n.as_str().is_empty() {
            return Err(String::from_str("Give the new template a name."));
        }
        let sh = shapes(doc, ids);
        if sh.len() == 0 {
            return Err(String::from_str("Select a path whose markers should become the template."));
        }
        let t = marker_template_of(doc, sh[0]);
        if t[0].is_none() && t[1].is_none() && t[2].is_none() {
            proof {
                assert(all_none(marker_template(doc@, sh@[0])));
            }
            return Err(String::from_str("The selected path has no markers to store."));
        }
        proof {
            lemma_marker_template_size(doc@, sh@[0]);
            assert(!all_none(marker_template(doc@, sh@[0])));
        }
        store.set(n.as_str(), &t);
        changed = true;
    }
    let ghost s1 = store@;
    let mut messages: Vec<String> = Vec::new();
    if remt {
        let r = trim(template_rem);
        if store.remove(r.as_str()) {
            changed = true;
        } else {
            let mut m = String::from_str("warning: template '");
            m.append(r.as_str());
            m.append("' is not stored; nothing removed");
            messages.push(m);
        }
    }
    if changed {
        messages.push(String::from_str("Templates successfully updated!"));
    }
    if list {
        let names = store.templates();
        let mut m = String::from_str("favorite-markers: stored templates: ");
        let j = join(&names, ", ");
        m.append(j.as_str());
        messages.push(m);
    }
    proof {
        assert(strings_view(messages@) =~= add_remove_spec(doc@, s0, strings_view(ids@), addt, template_name@, remt, template_rem@, list)->Ok_0.2);
    }
    Ok(AddRemove { changed, messages })
}

// ---------------------------------------------------------------------------------------------
// A shape's marker as template data

/// The first element child of `n`.
pub open spec fn first_element_child(d: DocV, cs: Seq<NodeId>, i: int) -> Option<NodeId>
    decreases cs.len() - i,
{
    if i < 0 || i >= cs.len() {
        None
    } else if d.is_element(cs[i]) {
        Some(cs[i])
    } else {
        first_element_child(d, cs, i + 1)
    }
}

/// The marker a `marker-*` value points at, as template data; `None` for `none`, an empty
/// value, a missing marker or a marker without element children. The paths are read from its
/// first child when that is a `<g>`.
pub open spec fn marker_props_spec(d: DocV, murl: Option<Seq<char>>) -> Option<MarkerDataV> {
    match murl {
        None => None,
        Some(u) => match url_id_of(trimmed(u)) {
            None => None,
            Some(id) => if !d.ids.contains_key(id) {
                None
            } else {
                let mk = d.ids[id];
                match first_element_child(d, d.children(mk), 0) {
                    None => None,
                    Some(first) => {
                        let parent = if d.tag(first) == "g"@ {
                            first
                        } else {
                            mk
                        };
                        Some(MarkerDataV { attrs: attrs_except(d.attrs(mk), seq!["id"]), paths: path_attrs(d, parent) })
                    },
                }
            },
        },
    }
}

pub fn marker_props(doc: &Doc, murl: Option<&str>) -> (r: Option<MarkerData>)
    requires
        doc.wf(),
    ensures
        opt_marker_view(r) == marker_props_spec(doc@, match murl {
            Some(u) => Some(u@),
            None => None,
        }),
{
    let u = match murl {
        Some(u) => u,
        None => {
            return None;
        },
    };
    let t = trim(u);
    let id = match url_id(t.as_str()) {
        Some(id) => id,
        None => {
            return None;
        },
    };
    let mk = match doc.by_id(id.as_str()) {
        Some(mk) => mk,
        None => {
            return None;
        },
    };
    let cs = doc.children(mk);
    proof {
        assert forall|k: int| 0 <= k < cs@.len() implies doc@.valid(#[trigger] cs@[k]) by {
            lemma_child(doc@, mk, k);
        }
    }
    let mut i: usize = 0;
    while i < cs.len() && !doc.is_element(cs[i])
        invariant
            doc.wf(),
            doc@.valid(mk),
            cs@ == doc@.children(mk),
            forall|k: int| 0 <= k < cs@.len() ==> doc@.valid(#[trigger] cs@[k]),
            i <= cs@.len(),
            first_element_child(doc@, cs@, i as int) == first_element_child(doc@, cs@, 0),
        decreases cs@.len() - i,
    {
        i = i + 1;
    }
    if i >= cs.len() {
        return None;
    }
    let first = cs[i];
    let parent = if str_eq(doc.tag(first), "g") {
        first
    } else {
        mk
    };
    let skip: [&'static str; 1] = ["id"];
    let attrs = attrs_of(doc, mk, &skip);
    let paths = path_attrs_exec(doc, parent);
    proof {
        assert(skip@ =~= seq!["id"]);
    }
    Some(MarkerData { attrs, paths })
}

} // verus!
