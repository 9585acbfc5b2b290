//! Arena DOM for Inkscape SVG documents.
//!
//! Every node lives in one vector and is named by its index (`NodeId`). A node knows its parent
//! and its ordered children; detached nodes stay in the arena. Namespace prefixes are kept as
//! written: `svg:path` and `path` compare equal by local name.
use vstd::prelude::*;
use crate::strs::{chars_of, last_index_of, str_eq, string_from, slice_prefix, slice_range, utf8_str, push_char, decimal, push_decimal, lemma_decimal_injective};
use crate::xml::{XmlEvent, XmlEventV, events_view, attrs_spec, parse_attributes, char_ref, xml_events, xml_events_of, xml_error_text, char_ref_of, escaped_text, escaped_attr, escape_text, escape_attr, trimmed, trim};
use vstd::string::StrSliceExecFns;

verus! {

pub type NodeId = u32;

/// One attribute as written: name, value (unescaped) and the whitespace that preceded it.
pub struct Attr {
    pub name: String,
    pub value: String,
    pub ws: String,
}

/// The mathematical content of an attribute.
pub struct AttrV {
    pub name: Seq<char>,
    pub value: Seq<char>,
    pub ws: Seq<char>,
}

impl View for Attr {
    type V = AttrV;

    open spec fn view(&self) -> AttrV {
        AttrV { name: self.name@, value: self.value@, ws: self.ws@ }
    }
}

/// Why a document was refused.
pub enum DomError {
    /// Not well-formed XML.
    Xml(String),
    /// Well-formed but outside what is handled (encoding, entities, prefixes, root).
    Unsupported(String),
}

/// The two kinds of `DomError`.
pub enum DomErrorKind {
    Xml,
    Unsupported,
}

impl DomError {
    pub open spec fn kind(&self) -> DomErrorKind {
        match self {
            DomError::Xml(_) => DomErrorKind::Xml,
            DomError::Unsupported(_) => DomErrorKind::Unsupported,
        }
    }

    /// The error as a sentence (what `Display` shows).
    pub fn message(&self) -> (r: String)
        ensures
            r@ == match self {
                DomError::Xml(m) => "invalid XML: "@ + m@,
                DomError::Unsupported(m) => "unsupported document: "@ + m@,
            },
    {
        match self {
            DomError::Xml(m) => {
                let mut s = "invalid XML: ".to_owned();
                s.append(m.as_str());
                s
            },
            DomError::Unsupported(m) => {
                let mut s = "unsupported document: ".to_owned();
                s.append(m.as_str());
                s
            },
        }
    }
}

/// What a node is.
pub enum Kind {
    Document,
    Element {
        name: String,
        attrs: Vec<Attr>,
        self_closing: bool,
        /// Whitespace between the last attribute and `>` / `/>`.
        close_ws: String,
    },
    Text(String),
    CData(String),
    Comment(String),
    /// Everything between `<?` and `?>`.
    PI(String),
    /// Everything between `<!DOCTYPE ` and `>`.
    DocType(String),
    /// Everything between `<?` and `?>` of the XML declaration.
    Decl(String),
}

pub enum KindV {
    Document,
    Element { name: Seq<char>, attrs: Seq<AttrV>, self_closing: bool, close_ws: Seq<char> },
    Text(Seq<char>),
    CData(Seq<char>),
    Comment(Seq<char>),
    PI(Seq<char>),
    DocType(Seq<char>),
    Decl(Seq<char>),
}

pub open spec fn attrs_view(attrs: Seq<Attr>) -> Seq<AttrV> {
    attrs.map_values(|a: Attr| a@)
}

impl View for Kind {
    type V = KindV;

    open spec fn view(&self) -> KindV {
        match self {
            Kind::Document => KindV::Document,
            Kind::Element { name, attrs, self_closing, close_ws } => KindV::Element {
                name: name@,
                attrs: attrs_view(attrs@),
                self_closing: *self_closing,
                close_ws: close_ws@,
            },
            Kind::Text(t) => KindV::Text(t@),
            Kind::CData(t) => KindV::CData(t@),
            Kind::Comment(t) => KindV::Comment(t@),
            Kind::PI(t) => KindV::PI(t@),
            Kind::DocType(t) => KindV::DocType(t@),
            Kind::Decl(t) => KindV::Decl(t@),
        }
    }
}

pub struct Node {
    parent: Option<NodeId>,
    children: Vec<NodeId>,
    kind: Kind,
}

pub struct NodeV {
    pub parent: Option<NodeId>,
    pub children: Seq<NodeId>,
    pub kind: KindV,
}

impl View for Node {
    type V = NodeV;

    closed spec fn view(&self) -> NodeV {
        NodeV { parent: self.parent, children: self.children@, kind: self.kind@ }
    }
}

/// The abstract document: the node table, the root element, the id index, the counters, and
/// each node's depth (0 for the document node and for detached subtree roots).
pub struct DocV {
    pub nodes: Seq<NodeV>,
    pub depth: Seq<nat>,
    pub svg: NodeId,
    pub ids: Map<Seq<char>, NodeId>,
    pub next_auto_id: u32,
    pub source_len: usize,
    pub generation: u64,
    pub sheet_generation: u64,
    pub style_generation: u64,
}

/// Local part of a qualified name: what follows the last `:`.
pub open spec fn local_name(q: Seq<char>) -> Seq<char>
    decreases q.len(),
{
    if q.len() == 0 {
        q
    } else if q.last() == ':' {
        seq![]
    } else {
        local_name(q.drop_last()).push(q.last())
    }
}

/// Index of `x` in `s` (any index holding it; the only one when `s` has no duplicates).
pub open spec fn pos_in(s: Seq<NodeId>, x: NodeId) -> int {
    choose|i: int| 0 <= i < s.len() && s[i] == x
}

pub proof fn lemma_index_of(s: Seq<NodeId>, i: int, x: NodeId)
    requires
        s.no_duplicates(),
        0 <= i < s.len(),
        s[i] == x,
    ensures
        pos_in(s, x) == i,
{
    let j = pos_in(s, x);
    assert(0 <= j < s.len() && s[j] == x);
}

pub proof fn lemma_local_name_after(q: Seq<char>, i: int)
    requires
        -1 <= i < q.len(),
        i >= 0 ==> q[i] == ':',
        forall|j: int| i < j < q.len() ==> q[j] != ':',
    ensures
        local_name(q) == q.subrange(i + 1, q.len() as int),
    decreases q.len(),
{
    if q.len() == 0 {
    } else if i == q.len() - 1 {
    } else {
        lemma_local_name_after(q.drop_last(), i);
        assert(q.drop_last().subrange(i + 1, q.len() - 1).push(q.last()) =~= q.subrange(i + 1, q.len() as int));
    }
}

/// Value of the first attribute named `name`.
pub open spec fn attr_in(attrs: Seq<AttrV>, name: Seq<char>) -> Option<Seq<char>>
    decreases attrs.len(),
{
    if attrs.len() == 0 {
        None
    } else if attrs[0].name == name {
        Some(attrs[0].value)
    } else {
        attr_in(attrs.drop_first(), name)
    }
}

impl DocV {
    pub open spec fn valid(self, n: NodeId) -> bool {
        (n as int) < self.nodes.len()
    }

    pub open spec fn parent(self, n: NodeId) -> Option<NodeId> {
        self.nodes[n as int].parent
    }

    pub open spec fn children(self, n: NodeId) -> Seq<NodeId> {
        self.nodes[n as int].children
    }

    pub open spec fn kind(self, n: NodeId) -> KindV {
        self.nodes[n as int].kind
    }

    pub open spec fn dep(self, n: NodeId) -> nat {
        self.depth[n as int]
    }

    pub open spec fn is_element(self, n: NodeId) -> bool {
        self.kind(n) is Element
    }

    pub open spec fn is_text(self, n: NodeId) -> bool {
        self.kind(n) is Text || self.kind(n) is CData
    }

    pub open spec fn is_comment(self, n: NodeId) -> bool {
        self.kind(n) is Comment
    }

    pub open spec fn qname(self, n: NodeId) -> Seq<char> {
        match self.kind(n) {
            KindV::Element { name, .. } => name,
            _ => seq![],
        }
    }

    pub open spec fn tag(self, n: NodeId) -> Seq<char> {
        local_name(self.qname(n))
    }

    pub open spec fn attrs(self, n: NodeId) -> Seq<AttrV> {
        match self.kind(n) {
            KindV::Element { attrs, .. } => attrs,
            _ => seq![],
        }
    }

    pub open spec fn attr(self, n: NodeId, name: Seq<char>) -> Option<Seq<char>> {
        attr_in(self.attrs(n), name)
    }

    pub open spec fn text(self, n: NodeId) -> Option<Seq<char>> {
        match self.kind(n) {
            KindV::Text(t) => Some(t),
            KindV::CData(t) => Some(t),
            _ => None,
        }
    }

    /// `c` is a well-linked child of `n`.
    pub open spec fn child_ok(self, n: NodeId, c: NodeId) -> bool {
        &&& self.valid(c)
        &&& self.nodes[c as int].parent == Some(n)
    }

    pub open spec fn node_ok(self, n: int) -> bool {
        &&& (self.nodes[n].parent matches Some(p) ==> {
            &&& self.valid(p)
            &&& self.nodes[p as int].children.contains(n as NodeId)
            &&& self.depth[n] == self.depth[p as int] + 1
        })
        &&& (self.nodes[n].parent is None ==> self.depth[n] == 0)
        &&& self.nodes[n].children.no_duplicates()
        &&& forall|i: int|
            0 <= i < self.nodes[n].children.len() ==> #[trigger] self.child_ok(
                n as NodeId,
                self.nodes[n].children[i],
            )
    }

    /// Structural well-formedness: node 0 is the document node, parent and child
    /// links agree, no node is listed twice, depth grows by one from parent to child, and the
    /// counter for generated ids starts at 1.
    pub open spec fn wf(self) -> bool {
        &&& 1 <= self.nodes.len() < u32::MAX
        &&& self.depth.len() == self.nodes.len()
        &&& self.nodes[0].kind is Document
        &&& self.valid(self.svg)
        &&& 1 <= self.next_auto_id
        &&& forall|n: int| 0 <= n < self.nodes.len() ==> #[trigger] self.node_ok(n)
        &&& forall|k: Seq<char>| #[trigger] self.ids.contains_key(k) ==> self.valid(self.ids[k])
    }

    /// `a` is `x` or one of its ancestors.
    pub open spec fn anc_f(self, a: NodeId, x: NodeId, fuel: nat) -> bool
        decreases fuel,
    {
        if x == a {
            true
        } else if fuel == 0 {
            false
        } else {
            match self.parent(x) {
                Some(p) => self.anc_f(a, p, (fuel - 1) as nat),
                None => false,
            }
        }
    }

    pub open spec fn anc_or_self(self, a: NodeId, x: NodeId) -> bool {
        self.anc_f(a, x, self.dep(x))
    }

    /// Parent chain of `x`, nearest first.
    pub open spec fn ancestors_f(self, x: NodeId, fuel: nat) -> Seq<NodeId>
        decreases fuel,
    {
        if fuel == 0 {
            seq![]
        } else {
            match self.parent(x) {
                Some(p) => seq![p] + self.ancestors_f(p, (fuel - 1) as nat),
                None => seq![],
            }
        }
    }

    pub open spec fn ancestors(self, x: NodeId) -> Seq<NodeId> {
        self.ancestors_f(x, self.dep(x))
    }

    /// Pre-order listing of `x` and its subtree.
    pub open spec fn pre_f(self, x: NodeId, fuel: nat) -> Seq<NodeId>
        decreases fuel, 0nat,
    {
        if fuel == 0 {
            seq![]
        } else {
            seq![x] + self.pre_list(self.children(x), (fuel - 1) as nat)
        }
    }

    pub open spec fn pre_list(self, cs: Seq<NodeId>, fuel: nat) -> Seq<NodeId>
        decreases fuel, cs.len(),
    {
        if cs.len() == 0 {
            seq![]
        } else {
            self.pre_f(cs[0], fuel) + self.pre_list(cs.drop_first(), fuel)
        }
    }

    /// `x` followed by its descendants in document order.
    pub open spec fn subtree(self, x: NodeId) -> Seq<NodeId> {
        self.pre_f(x, (self.nodes.len() - self.dep(x)) as nat)
    }

    /// Subtrees of a stack of nodes, top (last) first.
    pub open spec fn stack_pre(self, st: Seq<NodeId>) -> Seq<NodeId>
        decreases st.len(),
    {
        if st.len() == 0 {
            seq![]
        } else {
            self.subtree(st.last()) + self.stack_pre(st.drop_last())
        }
    }

    /// Position of `n` among its parent's children.
    pub open spec fn sib_index(self, n: NodeId) -> int {
        match self.parent(n) {
            Some(p) => pos_in(self.children(p), n),
            None => -1,
        }
    }

    pub open spec fn next_sibling(self, n: NodeId) -> Option<NodeId> {
        match self.parent(n) {
            Some(p) => if pos_in(self.children(p), n) + 1 < self.children(p).len() {
                Some(self.children(p)[pos_in(self.children(p), n) + 1])
            } else {
                None
            },
            None => None,
        }
    }

    pub open spec fn prev_sibling(self, n: NodeId) -> Option<NodeId> {
        match self.parent(n) {
            Some(p) => if pos_in(self.children(p), n) > 0 {
                Some(self.children(p)[pos_in(self.children(p), n) - 1])
            } else {
                None
            },
            None => None,
        }
    }

    /// `k`-th ancestor of `x` (itself for `k == 0`).
    pub open spec fn nth_anc(self, x: NodeId, k: nat) -> NodeId
        decreases k,
    {
        if k == 0 {
            x
        } else {
            match self.parent(x) {
                Some(p) => self.nth_anc(p, (k - 1) as nat),
                None => x,
            }
        }
    }
}

pub proof fn lemma_node_ok(d: DocV, n: NodeId)
    requires
        d.wf(),
        d.valid(n),
    ensures
        d.node_ok(n as int),
        d.parent(n) matches Some(p) ==> d.valid(p) && d.children(p).contains(n) && d.dep(n) == d.dep(
            p,
        ) + 1,
        d.parent(n) is None ==> d.dep(n) == 0,
        d.children(n).no_duplicates(),
        forall|i: int| 0 <= i < d.children(n).len() ==> #[trigger] d.child_ok(n, d.children(n)[i]),
{
    assert(d.node_ok(n as int));
}

/// Children of a valid node are valid, point back to it and sit one level deeper.
pub proof fn lemma_child(d: DocV, n: NodeId, i: int)
    requires
        d.wf(),
        d.valid(n),
        0 <= i < d.children(n).len(),
    ensures
        d.valid(d.children(n)[i]),
        d.parent(d.children(n)[i]) == Some(n),
        d.dep(d.children(n)[i]) == d.dep(n) + 1,
{
    lemma_node_ok(d, n);
    assert(d.child_ok(n, d.children(n)[i]));
    lemma_node_ok(d, d.children(n)[i]);
}

proof fn lemma_nth_anc(d: DocV, x: NodeId, k: nat)
    requires
        d.wf(),
        d.valid(x),
        k <= d.dep(x),
    ensures
        d.valid(d.nth_anc(x, k)),
        d.dep(d.nth_anc(x, k)) == d.dep(x) - k,
    decreases k,
{
    if k > 0 {
        lemma_node_ok(d, x);
        let p = d.parent(x).unwrap();
        lemma_nth_anc(d, p, (k - 1) as nat);
    }
}

/// Depths are bounded by the number of nodes: the ancestors of a node all have distinct depths.
pub proof fn lemma_depth_bound(d: DocV, x: NodeId)
    requires
        d.wf(),
        d.valid(x),
    ensures
        d.dep(x) < d.nodes.len(),
{
    let dx = d.dep(x) as int;
    let xs = vstd::set_lib::set_int_range(0, dx + 1);
    vstd::set_lib::lemma_int_range(0, dx + 1);
    let f = |k: int| d.nth_anc(x, k as nat) as int;
    assert forall|a: int, b: int| xs.contains(a) && xs.contains(b) && f(a) == f(b) implies a
        == b by {
        lemma_nth_anc(d, x, a as nat);
        lemma_nth_anc(d, x, b as nat);
    }
    assert(vstd::relations::injective_on(f, xs));
    let ys = xs.map(f);
    vstd::set_lib::lemma_map_size(xs, ys, f);
    let all = vstd::set_lib::set_int_range(0, d.nodes.len() as int);
    vstd::set_lib::lemma_int_range(0, d.nodes.len() as int);
    assert forall|y: int| ys.contains(y) implies all.contains(y) by {
        let k = choose|k: int| xs.contains(k) && f(k) == y;
        lemma_nth_anc(d, x, k as nat);
    }
    vstd::set_lib::lemma_len_subset(ys, all);
}


/// The id index as a map; a later entry wins.
pub open spec fn ids_map(s: Seq<(String, NodeId)>) -> Map<Seq<char>, NodeId>
    decreases s.len(),
{
    if s.len() == 0 {
        Map::empty()
    } else {
        ids_map(s.drop_last()).insert(s.last().0@, s.last().1)
    }
}

pub open spec fn ids_unique(s: Seq<(String, NodeId)>) -> bool {
    forall|i: int, j: int| 0 <= i < j < s.len() ==> s[i].0@ != s[j].0@
}

proof fn lemma_ids_map_get(s: Seq<(String, NodeId)>, i: int)
    requires
        ids_unique(s),
        0 <= i < s.len(),
    ensures
        ids_map(s).contains_key(s[i].0@),
        ids_map(s)[s[i].0@] == s[i].1,
    decreases s.len(),
{
    if i < s.len() - 1 {
        lemma_ids_map_get(s.drop_last(), i);
    }
}

proof fn lemma_ids_map_absent(s: Seq<(String, NodeId)>, k: Seq<char>)
    requires
        forall|i: int| 0 <= i < s.len() ==> s[i].0@ != k,
    ensures
        !ids_map(s).contains_key(k),
    decreases s.len(),
{
    if s.len() > 0 {
        lemma_ids_map_absent(s.drop_last(), k);
    }
}

proof fn lemma_ids_map_keys(s: Seq<(String, NodeId)>, k: Seq<char>)
    requires
        ids_map(s).contains_key(k),
    ensures
        exists|i: int| 0 <= i < s.len() && s[i].0@ == k && ids_map(s)[k] == s[i].1,
    decreases s.len(),
{
    if s.last().0@ != k {
        lemma_ids_map_keys(s.drop_last(), k);
        let i = choose|i: int| 0 <= i < s.drop_last().len() && s.drop_last()[i].0@ == k && ids_map(s.drop_last())[k] == s.drop_last()[i].1;
        assert(s[i] == s.drop_last()[i]);
    } else {
        assert(s[s.len() - 1].0@ == k);
    }
}

proof fn lemma_ids_map_remove(s: Seq<(String, NodeId)>, i: int)
    requires
        ids_unique(s),
        0 <= i < s.len(),
    ensures
        ids_map(s.remove(i)) =~= ids_map(s).remove(s[i].0@),
        ids_unique(s.remove(i)),
    decreases s.len(),
{
    if i == s.len() - 1 {
        assert(s.remove(i) =~= s.drop_last());
        lemma_ids_map_absent(s.drop_last(), s[i].0@);
    } else {
        lemma_ids_map_remove(s.drop_last(), i);
        assert(s.remove(i).drop_last() =~= s.drop_last().remove(i));
        assert(s.remove(i).last() == s.last());
    }
}

proof fn lemma_ids_map_update(s: Seq<(String, NodeId)>, i: int, e: (String, NodeId))
    requires
        ids_unique(s),
        0 <= i < s.len(),
        e.0@ == s[i].0@,
    ensures
        ids_map(s.update(i, e)) =~= ids_map(s).insert(e.0@, e.1),
        ids_unique(s.update(i, e)),
    decreases s.len(),
{
    if i == s.len() - 1 {
        assert(s.update(i, e).drop_last() =~= s.drop_last());
        lemma_ids_map_absent(s.drop_last(), s[i].0@);
    } else {
        lemma_ids_map_update(s.drop_last(), i, e);
        assert(s.update(i, e).drop_last() =~= s.drop_last().update(i, e));
    }
}

/// An SVG document held as an arena of nodes.
pub struct Doc {
    nodes: Vec<Node>,
    svg: NodeId,
    ids: Vec<(String, NodeId)>,
    next_auto_id: u32,
    /// Byte length of the parsed source (0 for built documents).
    source_len: usize,
    generation: u64,
    sheet_generation: u64,
    style_generation: u64,
    depth: Ghost<Seq<nat>>,
}

impl View for Doc {
    type V = DocV;

    closed spec fn view(&self) -> DocV {
        DocV {
            nodes: self.nodes@.map_values(|n: Node| n@),
            depth: self.depth@,
            svg: self.svg,
            ids: ids_map(self.ids@),
            next_auto_id: self.next_auto_id,
            source_len: self.source_len,
            generation: self.generation,
            sheet_generation: self.sheet_generation,
            style_generation: self.style_generation,
        }
    }
}

/// Text of every Text/CData node among `ns`, concatenated.
pub open spec fn text_concat(d: DocV, ns: Seq<NodeId>) -> Seq<char>
    decreases ns.len(),
{
    if ns.len() == 0 {
        seq![]
    } else {
        text_concat(d, ns.drop_last()) + match d.text(ns.last()) {
            Some(t) => t,
            None => seq![],
        }
    }
}

/// Number of elements among `ns`.
pub open spec fn count_elements(d: DocV, ns: Seq<NodeId>) -> nat
    decreases ns.len(),
{
    if ns.len() == 0 {
        0
    } else {
        count_elements(d, ns.drop_last()) + if d.is_element(ns.last()) {
            1nat
        } else {
            0nat
        }
    }
}


/// One step of the ancestor relation.
pub proof fn lemma_anc_unfold(d: DocV, a: NodeId, y: NodeId)
    requires
        d.wf(),
        d.valid(y),
    ensures
        d.anc_or_self(a, y) == (y == a || (d.parent(y) matches Some(q) && d.anc_or_self(a, q))),
{
    lemma_node_ok(d, y);
}

/// A proper descendant sits deeper than its ancestor.
pub proof fn lemma_anc_dep(d: DocV, a: NodeId, y: NodeId)
    requires
        d.wf(),
        d.valid(y),
        d.anc_or_self(a, y),
    ensures
        d.dep(y) >= d.dep(a),
        y != a ==> d.dep(y) > d.dep(a),
    decreases d.dep(y),
{
    lemma_anc_unfold(d, a, y);
    if y != a {
        lemma_node_ok(d, y);
        let q = d.parent(y).unwrap();
        lemma_anc_dep(d, a, q);
    }
}

/// A descendant of a child is a descendant of the parent.
pub proof fn lemma_anc_step(d: DocV, x: NodeId, c: NodeId, y: NodeId)
    requires
        d.wf(),
        d.valid(y),
        d.valid(c),
        d.parent(c) == Some(x),
        d.anc_or_self(c, y),
    ensures
        d.anc_or_self(x, y),
    decreases d.dep(y),
{
    lemma_anc_unfold(d, c, y);
    lemma_anc_unfold(d, x, y);
    if y != c {
        lemma_node_ok(d, y);
        let q = d.parent(y).unwrap();
        lemma_anc_step(d, x, c, q);
    }
}

proof fn lemma_pre_members(d: DocV, x: NodeId, f: nat)
    requires
        d.wf(),
        d.valid(x),
    ensures
        forall|i: int|
            0 <= i < d.pre_f(x, f).len() ==> d.valid(#[trigger] d.pre_f(x, f)[i]) && d.anc_or_self(
                x,
                d.pre_f(x, f)[i],
            ),
    decreases f, 0nat,
{
    if f > 0 {
        lemma_node_ok(d, x);
        assert forall|i: int| 0 <= i < d.children(x).len() implies d.valid(#[trigger] d.children(x)[i])
            && d.parent(d.children(x)[i]) == Some(x) by {
            lemma_child(d, x, i);
        }
        lemma_pre_list_members(d, d.children(x), (f - 1) as nat, x);
        let l = d.pre_list(d.children(x), (f - 1) as nat);
        let s = d.pre_f(x, f);
        assert(s == seq![x] + l);
        assert forall|i: int| 0 <= i < s.len() implies d.valid(#[trigger] s[i]) && d.anc_or_self(
            x,
            s[i],
        ) by {
            if i > 0 {
                assert(s[i] == l[i - 1]);
            } else {
                lemma_anc_unfold(d, x, x);
            }
        }
    }
}

proof fn lemma_pre_list_members(d: DocV, cs: Seq<NodeId>, f: nat, z: NodeId)
    requires
        d.wf(),
        forall|i: int| 0 <= i < cs.len() ==> d.valid(#[trigger] cs[i]) && d.parent(cs[i]) == Some(z),
    ensures
        forall|i: int|
            0 <= i < d.pre_list(cs, f).len() ==> d.valid(#[trigger] d.pre_list(cs, f)[i])
                && d.anc_or_self(z, d.pre_list(cs, f)[i]),
    decreases f, cs.len(),
{
    if cs.len() > 0 {
        assert(d.valid(cs[0]) && d.parent(cs[0]) == Some(z));
        lemma_pre_members(d, cs[0], f);
        assert forall|i: int| 0 <= i < cs.drop_first().len() implies d.valid(#[trigger] cs.drop_first()[i])
            && d.parent(cs.drop_first()[i]) == Some(z) by {
            assert(d.valid(cs[i + 1]) && d.parent(cs[i + 1]) == Some(z));
        }
        lemma_pre_list_members(d, cs.drop_first(), f, z);
        let a = d.pre_f(cs[0], f);
        let b = d.pre_list(cs.drop_first(), f);
        let s = d.pre_list(cs, f);
        assert(s == a + b);
        assert forall|i: int| 0 <= i < s.len() implies d.valid(#[trigger] s[i]) && d.anc_or_self(
            z,
            s[i],
        ) by {
            if i < a.len() {
                assert(s[i] == a[i]);
                lemma_anc_step(d, z, cs[0], a[i]);
            } else {
                assert(s[i] == b[i - a.len()]);
            }
        }
    }
}

/// Every member of `subtree(x)` is valid and has `x` as an ancestor (or is `x`).
pub proof fn lemma_subtree_members(d: DocV, x: NodeId)
    requires
        d.wf(),
        d.valid(x),
    ensures
        forall|i: int|
            0 <= i < d.subtree(x).len() ==> d.valid(#[trigger] d.subtree(x)[i]) && d.anc_or_self(
                x,
                d.subtree(x)[i],
            ),
{
    lemma_pre_members(d, x, (d.nodes.len() - d.dep(x)) as nat);
}

/// An ancestor (or self) of `y` is the one at its depth along `y`'s parent chain.
proof fn lemma_anc_is_nth(d: DocV, a: NodeId, y: NodeId)
    requires
        d.wf(),
        d.valid(y),
        d.anc_or_self(a, y),
    ensures
        d.dep(a) <= d.dep(y),
        a == d.nth_anc(y, (d.dep(y) - d.dep(a)) as nat),
    decreases d.dep(y),
{
    lemma_anc_unfold(d, a, y);
    lemma_anc_dep(d, a, y);
    if y != a {
        lemma_node_ok(d, y);
        let q = d.parent(y).unwrap();
        lemma_anc_is_nth(d, a, q);
        assert(d.dep(y) == d.dep(q) + 1);
    }
}

/// Preorder from `x` lists no node twice.
proof fn lemma_pre_nodup(d: DocV, x: NodeId, f: nat)
    requires
        d.wf(),
        d.valid(x),
    ensures
        d.pre_f(x, f).no_duplicates(),
    decreases f, 0nat,
{
    if f > 0 {
        let f1 = (f - 1) as nat;
        let cs = d.children(x);
        lemma_node_ok(d, x);
        assert forall|i: int| 0 <= i < cs.len() implies d.valid(#[trigger] cs[i]) && d.parent(cs[i]) == Some(x) by {
            lemma_child(d, x, i);
        }
        lemma_list_nodup(d, x, cs, f1);
        let l = d.pre_list(cs, f1);
        let s = d.pre_f(x, f);
        assert(s == seq![x] + l);
        assert forall|i: int| 0 <= i < l.len() implies l[i] != x by {
            let j = choose|j: int| 0 <= j < cs.len() && d.anc_or_self(cs[j], l[i]);
            lemma_child(d, x, j);
            lemma_anc_dep(d, cs[j], l[i]);
        }
        assert forall|i: int, j: int| 0 <= i < s.len() && 0 <= j < s.len() && i != j implies s[i] != s[j] by {
            if i == 0 {
                assert(s[j] == l[j - 1]);
            } else if j == 0 {
                assert(s[i] == l[i - 1]);
            } else {
                assert(s[i] == l[i - 1] && s[j] == l[j - 1]);
            }
        }
    }
}

/// Preorders from distinct children of `p` list no node twice, and each node they list lies
/// under one of those children.
proof fn lemma_list_nodup(d: DocV, p: NodeId, cs: Seq<NodeId>, f: nat)
    requires
        d.wf(),
        cs.no_duplicates(),
        forall|i: int| 0 <= i < cs.len() ==> d.valid(#[trigger] cs[i]) && d.parent(cs[i]) == Some(p),
    ensures
        d.pre_list(cs, f).no_duplicates(),
        forall|i: int| 0 <= i < d.pre_list(cs, f).len() ==> d.valid(#[trigger] d.pre_list(cs, f)[i])
            && exists|j: int| 0 <= j < cs.len() && d.anc_or_self(cs[j], d.pre_list(cs, f)[i]),
    decreases f, cs.len(),
{
    if cs.len() > 0 {
        let a = d.pre_f(cs[0], f);
        let rest = cs.drop_first();
        lemma_pre_nodup(d, cs[0], f);
        lemma_pre_members(d, cs[0], f);
        assert forall|i: int| 0 <= i < rest.len() implies d.valid(#[trigger] rest[i]) && d.parent(rest[i]) == Some(p) by {
            assert(rest[i] == cs[i + 1]);
        }
        lemma_list_nodup(d, p, rest, f);
        let b = d.pre_list(rest, f);
        let s = d.pre_list(cs, f);
        assert(s == a + b);
        lemma_node_ok(d, cs[0]);
        assert forall|i: int, j: int| 0 <= i < a.len() && 0 <= j < b.len() implies a[i] != b[j] by {
            let k = choose|k: int| 0 <= k < rest.len() && d.anc_or_self(rest[k], b[j]);
            if a[i] == b[j] {
                let y = a[i];
                lemma_node_ok(d, rest[k]);
                lemma_anc_is_nth(d, cs[0], y);
                lemma_anc_is_nth(d, rest[k], y);
                assert(rest[k] == cs[k + 1]);
                assert(d.dep(cs[0]) == d.dep(rest[k]));
                assert(false);
            }
        }
        assert forall|i: int, j: int| 0 <= i < s.len() && 0 <= j < s.len() && i != j implies s[i] != s[j] by {
            if i < a.len() && j < a.len() {
            } else if i >= a.len() && j >= a.len() {
                assert(s[i] == b[i - a.len()] && s[j] == b[j - a.len()]);
            } else if i < a.len() {
                assert(s[j] == b[j - a.len()]);
            } else {
                assert(s[i] == b[i - a.len()]);
            }
        }
        assert forall|i: int| 0 <= i < s.len() implies d.valid(#[trigger] s[i])
            && exists|j: int| 0 <= j < cs.len() && d.anc_or_self(cs[j], s[i]) by {
            if i < a.len() {
                assert(d.anc_or_self(cs[0], s[i]));
            } else {
                assert(s[i] == b[i - a.len()]);
                let k = choose|k: int| 0 <= k < rest.len() && d.anc_or_self(rest[k], b[i - a.len()]);
                assert(rest[k] == cs[k + 1]);
            }
        }
    }
}

/// A subtree lists each node once, so it has at most as many members as the document has nodes.
pub proof fn lemma_subtree_len(d: DocV, x: NodeId)
    requires
        d.wf(),
        d.valid(x),
    ensures
        d.subtree(x).no_duplicates(),
        d.subtree(x).len() <= d.nodes.len(),
{
    let s = d.subtree(x);
    lemma_pre_nodup(d, x, (d.nodes.len() - d.dep(x)) as nat);
    lemma_subtree_members(d, x);
    s.unique_seq_to_set();
    let xs = s.to_set();
    let f = |v: NodeId| v as int;
    assert(vstd::relations::injective_on(f, xs));
    let ys = xs.map(f);
    vstd::set_lib::lemma_map_size(xs, ys, f);
    let all = vstd::set_lib::set_int_range(0, d.nodes.len() as int);
    vstd::set_lib::lemma_int_range(0, d.nodes.len() as int);
    assert forall|y: int| ys.contains(y) implies all.contains(y) by {
        let v = choose|v: NodeId| xs.contains(v) && f(v) == y;
        let i = choose|i: int| 0 <= i < s.len() && s[i] == v;
        assert(d.valid(s[i]));
    }
    vstd::set_lib::lemma_len_subset(ys, all);
}

proof fn lemma_pre_fuel(d: DocV, x: NodeId, f: nat)
    requires
        d.wf(),
        d.valid(x),
        f >= d.nodes.len() - d.dep(x),
    ensures
        d.pre_f(x, f) == d.subtree(x),
    decreases f, 0nat,
{
    lemma_depth_bound(d, x);
    let g = (d.nodes.len() - d.dep(x)) as nat;
    lemma_node_ok(d, x);
    assert forall|i: int| 0 <= i < d.children(x).len() implies d.valid(#[trigger] d.children(x)[i])
        && d.nodes.len() - d.dep(d.children(x)[i]) == g - 1 by {
        lemma_child(d, x, i);
    }
    lemma_pre_list_fuel(d, d.children(x), (f - 1) as nat, (g - 1) as nat);
}

proof fn lemma_pre_list_fuel(d: DocV, cs: Seq<NodeId>, f: nat, h: nat)
    requires
        d.wf(),
        f >= h,
        forall|i: int|
            0 <= i < cs.len() ==> d.valid(#[trigger] cs[i]) && d.nodes.len() - d.dep(cs[i]) == h,
    ensures
        d.pre_list(cs, f) == d.pre_list(cs, h),
    decreases f, cs.len(),
{
    if cs.len() > 0 {
        assert(d.valid(cs[0]) && d.nodes.len() - d.dep(cs[0]) == h);
        lemma_pre_fuel(d, cs[0], f);
        lemma_pre_fuel(d, cs[0], h);
        assert forall|i: int| 0 <= i < cs.drop_first().len() implies d.valid(#[trigger] cs.drop_first()[i])
            && d.nodes.len() - d.dep(cs.drop_first()[i]) == h by {
            assert(d.valid(cs[i + 1]) && d.nodes.len() - d.dep(cs[i + 1]) == h);
        }
        lemma_pre_list_fuel(d, cs.drop_first(), f, h);
    }
}

/// `pre_f` only reads the children lists of the nodes it lists.
proof fn lemma_pre_frame(d1: DocV, d2: DocV, x: NodeId, f: nat)
    requires
        forall|y: NodeId| #[trigger] d1.pre_f(x, f).contains(y) ==> d1.children(y) == d2.children(y),
    ensures
        d1.pre_f(x, f) == d2.pre_f(x, f),
    decreases f, 0nat,
{
    if f > 0 {
        let l = d1.pre_list(d1.children(x), (f - 1) as nat);
        assert(d1.pre_f(x, f) == seq![x] + l);
        assert(d1.pre_f(x, f)[0] == x);
        assert(d1.pre_f(x, f).contains(x));
        assert forall|y: NodeId| #[trigger] l.contains(y) implies d1.children(y) == d2.children(y) by {
            let i = choose|i: int| 0 <= i < l.len() && l[i] == y;
            assert(d1.pre_f(x, f)[i + 1] == y);
            assert(d1.pre_f(x, f).contains(y));
        }
        lemma_pre_list_frame(d1, d2, d1.children(x), (f - 1) as nat);
    }
}

proof fn lemma_pre_list_frame(d1: DocV, d2: DocV, cs: Seq<NodeId>, f: nat)
    requires
        forall|y: NodeId| #[trigger] d1.pre_list(cs, f).contains(y) ==> d1.children(y) == d2.children(y),
    ensures
        d1.pre_list(cs, f) == d2.pre_list(cs, f),
    decreases f, cs.len(),
{
    if cs.len() > 0 {
        let a = d1.pre_f(cs[0], f);
        let b = d1.pre_list(cs.drop_first(), f);
        let s = d1.pre_list(cs, f);
        assert(s == a + b);
        assert forall|y: NodeId| #[trigger] a.contains(y) implies d1.children(y) == d2.children(y) by {
            let i = choose|i: int| 0 <= i < a.len() && a[i] == y;
            assert(s[i] == y);
            assert(s.contains(y));
        }
        assert forall|y: NodeId| #[trigger] b.contains(y) implies d1.children(y) == d2.children(y) by {
            let i = choose|i: int| 0 <= i < b.len() && b[i] == y;
            assert(s[i + a.len()] == y);
            assert(s.contains(y));
        }
        lemma_pre_frame(d1, d2, cs[0], f);
        lemma_pre_list_frame(d1, d2, cs.drop_first(), f);
    }
}


/// A counter after one more event (wrapping at the top).
pub open spec fn bump(g: u64) -> u64 {
    if g == u64::MAX {
        0
    } else {
        (g + 1) as u64
    }
}

impl DocV {
    pub open spec fn gen_bumped(self) -> DocV {
        DocV { generation: bump(self.generation), ..self }
    }

    pub open spec fn style_bumped(self) -> DocV {
        DocV { style_generation: bump(self.style_generation), ..self }
    }

    pub open spec fn sheet_bumped(self) -> DocV {
        DocV {
            sheet_generation: bump(self.sheet_generation),
            style_generation: bump(self.style_generation),
            ..self
        }
    }

    /// Some node among `ns` is a `<style>` element.
    pub open spec fn has_style_in(self, ns: Seq<NodeId>) -> bool {
        exists|i: int| 0 <= i < ns.len() && #[trigger] self.is_style(ns[i])
    }

    pub open spec fn is_style(self, n: NodeId) -> bool {
        self.is_element(n) && self.tag(n) == "style"@
    }

    /// `ids` after dropping, for each node of `ns` in order, its own `id` when that id points at it.
    pub open spec fn unindex(self, ids: Map<Seq<char>, NodeId>, ns: Seq<NodeId>) -> Map<
        Seq<char>,
        NodeId,
    >
        decreases ns.len(),
    {
        if ns.len() == 0 {
            ids
        } else {
            let m = self.unindex(ids, ns.drop_last());
            let d = ns.last();
            match self.attr(d, "id"@) {
                Some(v) => if m.contains_key(v) && m[v] == d {
                    m.remove(v)
                } else {
                    m
                },
                None => m,
            }
        }
    }

    /// `ids` after adding, for each node of `ns` in order, its `id` when that id is not yet taken.
    pub open spec fn index(self, ids: Map<Seq<char>, NodeId>, ns: Seq<NodeId>) -> Map<
        Seq<char>,
        NodeId,
    >
        decreases ns.len(),
    {
        if ns.len() == 0 {
            ids
        } else {
            let m = self.index(ids, ns.drop_last());
            let d = ns.last();
            match self.attr(d, "id"@) {
                Some(v) => if !m.contains_key(v) {
                    m.insert(v, d)
                } else {
                    m
                },
                None => m,
            }
        }
    }

    /// Node table and depths once `n` is unlinked from its parent `p`.
    pub open spec fn detach_struct(self, n: NodeId, p: NodeId) -> DocV {
        let pn = self.nodes[p as int];
        let nn = self.nodes[n as int];
        DocV {
            nodes: self.nodes.update(
                p as int,
                NodeV { children: pn.children.remove(pos_in(pn.children, n)), ..pn },
            ).update(n as int, NodeV { parent: None, ..nn }),
            depth: Seq::new(
                self.depth.len(),
                |x: int|
                    if self.anc_or_self(n, x as NodeId) {
                        (self.depth[x] - self.dep(n)) as nat
                    } else {
                        self.depth[x]
                    },
            ),
            ..self
        }
    }

    /// The document after `detach(n)`.
    pub open spec fn detached(self, n: NodeId) -> DocV {
        match self.parent(n) {
            None => self,
            Some(p) => {
                let s = self.subtree(n);
                let d1 = DocV { ids: self.unindex(self.ids, s), ..self.detach_struct(n, p) };
                let d2 = if self.has_style_in(s) {
                    d1.sheet_bumped()
                } else {
                    d1
                };
                d2.style_bumped().gen_bumped()
            },
        }
    }
}

proof fn lemma_seq_remove_contains(s: Seq<NodeId>, i: int, y: NodeId)
    requires
        0 <= i < s.len(),
        s.contains(y),
        s[i] != y,
    ensures
        s.remove(i).contains(y),
{
    let j = choose|j: int| 0 <= j < s.len() && s[j] == y;
    if j < i {
        assert(s.remove(i)[j] == y);
    } else {
        assert(s.remove(i)[j - 1] == y);
    }
}

proof fn lemma_seq_remove_member(s: Seq<NodeId>, i: int, k: int)
    requires
        0 <= i < s.len(),
        0 <= k < s.len() - 1,
    ensures
        s.remove(i)[k] == (if k < i { s[k] } else { s[k + 1] }),
        k < i ==> s.remove(i)[k] != s[i] || !s.no_duplicates() || k == i,
        k >= i ==> s.remove(i)[k] != s[i] || !s.no_duplicates(),
{
}

proof fn lemma_seq_remove_nodup(s: Seq<NodeId>, i: int)
    requires
        0 <= i < s.len(),
        s.no_duplicates(),
    ensures
        s.remove(i).no_duplicates(),
        !s.remove(i).contains(s[i]),
{
    let r = s.remove(i);
    assert forall|a: int, b: int| 0 <= a < r.len() && 0 <= b < r.len() && a != b implies r[a] != r[b] by {
        lemma_seq_remove_member(s, i, a);
        lemma_seq_remove_member(s, i, b);
    }
    if r.contains(s[i]) {
        let k = choose|k: int| 0 <= k < r.len() && r[k] == s[i];
        lemma_seq_remove_member(s, i, k);
    }
}

pub proof fn lemma_detach_struct_wf(d: DocV, n: NodeId)
    requires
        d.wf(),
        d.valid(n),
        d.parent(n) is Some,
    ensures
        d.detach_struct(n, d.parent(n).unwrap()).wf(),
        d.detach_struct(n, d.parent(n).unwrap()).subtree(n) == d.subtree(n),
        forall|y: NodeId| d.valid(y) ==> (d.detach_struct(n, d.parent(n).unwrap()).kind(y) == d.kind(y)),
{
    let p = d.parent(n).unwrap();
    let d1 = d.detach_struct(n, p);
    lemma_node_ok(d, n);
    lemma_node_ok(d, p);
    let i = pos_in(d.children(p), n);
    let ci = choose|j: int| 0 <= j < d.children(p).len() && d.children(p)[j] == n;
    lemma_index_of(d.children(p), ci, n);
    lemma_seq_remove_nodup(d.children(p), i);
    assert(d1.nodes.len() == d.nodes.len());
    assert forall|y: int| 0 <= y < d1.nodes.len() implies #[trigger] d1.node_ok(y) by {
        let yy = y as NodeId;
        lemma_node_ok(d, yy);
        lemma_anc_unfold(d, n, yy);
        if yy == n {
            assert forall|k: int| 0 <= k < d1.nodes[y].children.len() implies #[trigger] d1.child_ok(
                yy,
                d1.nodes[y].children[k],
            ) by {
                lemma_child(d, n, k);
                let c = d.children(n)[k];
                lemma_anc_unfold(d, n, c);
                assert(c != p);
            }
        } else {
            match d.parent(yy) {
                Some(q) => {
                    lemma_node_ok(d, q);
                    if d.anc_or_self(n, q) {
                        lemma_anc_dep(d, n, q);
                    }
                    if q == p {
                        lemma_seq_remove_contains(d.children(p), i, yy);
                    }
                },
                None => {},
            }
            assert forall|k: int| 0 <= k < d1.nodes[y].children.len() implies #[trigger] d1.child_ok(
                yy,
                d1.nodes[y].children[k],
            ) by {
                if yy == p {
                    let c = d1.nodes[y].children[k];
                    assert(d.children(p).remove(i)[k] == c);
                    lemma_seq_remove_member(d.children(p), i, k);
                    if k < i {
                        lemma_child(d, p, k);
                    } else {
                        lemma_child(d, p, k + 1);
                    }
                } else {
                    lemma_child(d, yy, k);
                }
            }
        }
    }
    // The subtree of n is untouched: p is not in it.
    lemma_depth_bound(d, n);
    lemma_pre_fuel(d, n, d.nodes.len());
    lemma_subtree_members(d, n);
    assert forall|y: NodeId| #[trigger] d.pre_f(n, d.nodes.len()).contains(y) implies d.children(y)
        == d1.children(y) by {
        let k = choose|k: int| 0 <= k < d.subtree(n).len() && d.subtree(n)[k] == y;
        assert(d.valid(d.subtree(n)[k]) && d.anc_or_self(n, d.subtree(n)[k]));
        lemma_anc_dep(d, n, y);
    }
    lemma_pre_frame(d, d1, n, d.nodes.len());
}


/// Well-formedness only depends on the links between nodes, the depths, the root element, the
/// ids and the id counter: the kinds of nodes other than the document node may change freely.
pub proof fn lemma_wf_same_nodes(d1: DocV, d2: DocV)
    requires
        d1.wf(),
        d2.nodes.len() == d1.nodes.len(),
        forall|n: int| 0 <= n < d1.nodes.len() ==> (#[trigger] d2.nodes[n]).parent == d1.nodes[n].parent
            && d2.nodes[n].children == d1.nodes[n].children,
        d2.nodes[0].kind is Document,
        d2.depth == d1.depth,
        d2.svg == d1.svg || d2.valid(d2.svg),
        d2.ids == d1.ids || forall|k: Seq<char>| #[trigger] d2.ids.contains_key(k) ==> d2.valid(d2.ids[k]),
        d2.next_auto_id == d1.next_auto_id || 1 <= d2.next_auto_id,
    ensures
        d2.wf(),
{
    if d2.ids == d1.ids {
        assert forall|k: Seq<char>| #[trigger] d2.ids.contains_key(k) implies d2.valid(d2.ids[k]) by {
            assert(d1.ids.contains_key(k));
        }
    }
    assert forall|n: int| 0 <= n < d2.nodes.len() implies #[trigger] d2.node_ok(n) by {
        assert(d1.node_ok(n));
        assert forall|i: int| 0 <= i < d2.nodes[n].children.len() implies #[trigger] d2.child_ok(
            n as NodeId,
            d2.nodes[n].children[i],
        ) by {
            assert(d1.child_ok(n as NodeId, d1.nodes[n].children[i]));
        }
    }
}

proof fn lemma_unindex_sub(d: DocV, ids: Map<Seq<char>, NodeId>, ns: Seq<NodeId>)
    ensures
        forall|k: Seq<char>| #[trigger] d.unindex(ids, ns).contains_key(k) ==> ids.contains_key(k)
            && d.unindex(ids, ns)[k] == ids[k],
    decreases ns.len(),
{
    if ns.len() > 0 {
        lemma_unindex_sub(d, ids, ns.drop_last());
        let m = d.unindex(ids, ns.drop_last());
        assert forall|k: Seq<char>| #[trigger] d.unindex(ids, ns).contains_key(k) implies ids.contains_key(k)
            && d.unindex(ids, ns)[k] == ids[k] by {
            assert(m.contains_key(k));
        }
    }
}

proof fn lemma_index_valid(d: DocV, ids: Map<Seq<char>, NodeId>, ns: Seq<NodeId>, k: Seq<char>)
    requires
        forall|key: Seq<char>| #[trigger] ids.contains_key(key) ==> d.valid(ids[key]),
        forall|i: int| 0 <= i < ns.len() ==> d.valid(#[trigger] ns[i]),
        d.index(ids, ns).contains_key(k),
    ensures
        d.valid(d.index(ids, ns)[k]),
    decreases ns.len(),
{
    if ns.len() > 0 {
        let m = d.index(ids, ns.drop_last());
        assert(d.valid(ns[ns.len() - 1]));
        if m.contains_key(k) {
            assert forall|i: int| 0 <= i < ns.drop_last().len() implies d.valid(#[trigger] ns.drop_last()[i]) by {
                assert(d.valid(ns[i]));
            }
            lemma_index_valid(d, ids, ns.drop_last(), k);
        }
    }
}

proof fn lemma_unindex_same(d1: DocV, d2: DocV, ids: Map<Seq<char>, NodeId>, ns: Seq<NodeId>)
    requires
        forall|i: int| 0 <= i < ns.len() ==> d1.kind(#[trigger] ns[i]) == d2.kind(ns[i]),
    ensures
        d1.unindex(ids, ns) == d2.unindex(ids, ns),
        d1.index(ids, ns) == d2.index(ids, ns),
    decreases ns.len(),
{
    if ns.len() > 0 {
        assert(d1.kind(ns[ns.len() - 1]) == d2.kind(ns[ns.len() - 1]));
        lemma_unindex_same(d1, d2, ids, ns.drop_last());
    }
}


impl DocV {
    /// Node table and depths once the detached `n` is linked as child `i` of `p`.
    pub open spec fn attach_struct(self, p: NodeId, i: int, n: NodeId) -> DocV {
        let pn = self.nodes[p as int];
        let nn = self.nodes[n as int];
        DocV {
            nodes: self.nodes.update(p as int, NodeV { children: pn.children.insert(i, n), ..pn }).update(
                n as int,
                NodeV { parent: Some(p), ..nn },
            ),
            depth: Seq::new(
                self.depth.len(),
                |x: int|
                    if self.anc_or_self(n, x as NodeId) {
                        self.depth[x] + self.dep(p) + 1
                    } else {
                        self.depth[x]
                    },
            ),
            ..self
        }
    }

    /// The document after linking the detached `n` as child `i` of `p`.
    pub open spec fn attached_at(self, p: NodeId, i: int, n: NodeId) -> DocV {
        let s = self.subtree(n);
        let d1 = DocV { ids: self.index(self.ids, s), ..self.attach_struct(p, i, n) };
        let d2 = if self.has_style_in(s) {
            d1.sheet_bumped()
        } else {
            d1
        };
        d2.style_bumped().gen_bumped()
    }

    /// What `append_child(parent, n)` leaves.
    pub open spec fn appended(self, parent: NodeId, n: NodeId) -> DocV {
        let d1 = self.detached(n);
        d1.attached_at(parent, d1.children(parent).len() as int, n)
    }

    /// What `insert_before(n, anchor)` leaves.
    pub open spec fn inserted_before(self, n: NodeId, anchor: NodeId) -> DocV {
        let d1 = self.detached(n);
        let p = d1.parent(anchor).unwrap();
        d1.attached_at(p, pos_in(d1.children(p), anchor), n)
    }

    /// `n` may be attached at `target`: it is neither `target` nor one of its ancestors.
    pub open spec fn can_attach(self, n: NodeId, target: NodeId) -> bool {
        !self.anc_or_self(n, target)
    }
}

proof fn lemma_attach_struct_wf(d: DocV, p: NodeId, i: int, n: NodeId)
    requires
        d.wf(),
        d.valid(p),
        d.valid(n),
        d.parent(n) is None,
        !d.anc_or_self(n, p),
        0 <= i <= d.children(p).len(),
    ensures
        d.attach_struct(p, i, n).wf(),
        d.attach_struct(p, i, n).subtree(n) == d.subtree(n),
        forall|y: NodeId| d.valid(y) ==> (d.attach_struct(p, i, n).kind(y) == d.kind(y)),
{
    let d1 = d.attach_struct(p, i, n);
    lemma_node_ok(d, n);
    lemma_node_ok(d, p);
    lemma_anc_unfold(d, n, n);
    assert(p != n);
    let ch = d.children(p);
    let ch1 = ch.insert(i, n);
    assert(!ch.contains(n)) by {
        if ch.contains(n) {
            let k = choose|k: int| 0 <= k < ch.len() && ch[k] == n;
            lemma_child(d, p, k);
        }
    }
    assert(ch1.no_duplicates()) by {
        assert forall|a: int, b: int| 0 <= a < ch1.len() && 0 <= b < ch1.len() && a != b implies ch1[a]
            != ch1[b] by {
            if a != i && b != i {
                let aa = if a < i { a } else { a - 1 };
                let bb = if b < i { b } else { b - 1 };
                assert(ch1[a] == ch[aa]);
                assert(ch1[b] == ch[bb]);
            } else if a == i {
                let bb = if b < i { b } else { b - 1 };
                assert(ch1[b] == ch[bb]);
            } else {
                let aa = if a < i { a } else { a - 1 };
                assert(ch1[a] == ch[aa]);
            }
        }
    }
    assert(ch1.contains(n)) by {
        assert(ch1[i] == n);
    }
    assert forall|y: int| 0 <= y < d1.nodes.len() implies #[trigger] d1.node_ok(y) by {
        let yy = y as NodeId;
        lemma_node_ok(d, yy);
        lemma_anc_unfold(d, n, yy);
        if yy != n {
            match d.parent(yy) {
                Some(q) => {
                    lemma_node_ok(d, q);
                    if q == p {
                        let k = choose|k: int| 0 <= k < ch.len() && ch[k] == yy;
                        if k < i {
                            assert(ch1[k] == yy);
                        } else {
                            assert(ch1[k + 1] == yy);
                        }
                    }
                },
                None => {},
            }
        }
        assert forall|k: int| 0 <= k < d1.nodes[y].children.len() implies #[trigger] d1.child_ok(
            yy,
            d1.nodes[y].children[k],
        ) by {
            if yy == p {
                if k != i {
                    let kk = if k < i { k } else { k - 1 };
                    assert(ch1[k] == ch[kk]);
                    lemma_child(d, p, kk);
                }
            } else {
                lemma_child(d, yy, k);
            }
        }
    }
    // The subtree of n is untouched: p is not in it.
    lemma_pre_fuel(d, n, d.nodes.len());
    lemma_subtree_members(d, n);
    assert forall|y: NodeId| #[trigger] d.pre_f(n, d.nodes.len()).contains(y) implies d.children(y)
        == d1.children(y) by {
        let k = choose|k: int| 0 <= k < d.subtree(n).len() && d.subtree(n)[k] == y;
        assert(d.valid(d.subtree(n)[k]) && d.anc_or_self(n, d.subtree(n)[k]));
    }
    lemma_pre_frame(d, d1, n, d.nodes.len());
    assert(d1.valid(n));
    lemma_pre_fuel(d1, n, d1.nodes.len());
}

proof fn lemma_anc_same(d1: DocV, d2: DocV, a: NodeId, x: NodeId, f: nat)
    requires
        d1.nodes == d2.nodes,
    ensures
        d1.anc_f(a, x, f) == d2.anc_f(a, x, f),
    decreases f,
{
    if f > 0 {
        if let Some(p) = d1.parent(x) {
            lemma_anc_same(d1, d2, a, p, (f - 1) as nat);
        }
    }
}

/// `ns` detached one after the other.
pub open spec fn all_detached(d: DocV, ns: Seq<NodeId>) -> DocV
    decreases ns.len(),
{
    if ns.len() == 0 {
        d
    } else {
        all_detached(d, ns.drop_last()).detached(ns.last())
    }
}

/// Detaching keeps the document well-formed, its size, root and kinds, and every parent link
/// but `n`'s, which it cuts.
pub proof fn lemma_detached_wf(d: DocV, n: NodeId)
    requires
        d.wf(),
        d.valid(n),
    ensures
        d.detached(n).wf(),
        d.detached(n).nodes.len() == d.nodes.len(),
        d.detached(n).svg == d.svg,
        forall|y: NodeId| d.valid(y) ==> #[trigger] d.detached(n).kind(y) == d.kind(y),
        forall|y: NodeId| d.valid(y) && y != n ==> #[trigger] d.detached(n).parent(y) == d.parent(y),
        d.detached(n).parent(n) is None,
{
    if let Some(p) = d.parent(n) {
        lemma_detach_struct_wf(d, n);
        lemma_node_ok(d, n);
        let d1 = d.detach_struct(n, p);
        let d2 = d.detached(n);
        lemma_unindex_sub(d, d.ids, d.subtree(n));
        assert forall|k: Seq<char>| #[trigger] d2.ids.contains_key(k) implies d2.valid(d2.ids[k]) by {
            assert(d.ids.contains_key(k));
        }
        lemma_wf_same_nodes(d1, d2);
        assert forall|y: NodeId| d.valid(y) && y != n implies #[trigger] d2.parent(y) == d.parent(y) by {
            if y == p {
            }
        }
    }
}

/// An ancestor chain that only follows links a second document also has is a chain there.
pub proof fn lemma_anc_back(d1: DocV, d2: DocV, a: NodeId, z: NodeId, f: nat)
    requires
        d1.wf(),
        d1.valid(z),
        forall|y: NodeId| d1.valid(y) && (#[trigger] d2.parent(y)) is Some ==> d2.parent(y) == d1.parent(y),
        d2.anc_f(a, z, f),
    ensures
        d1.anc_f(a, z, f),
    decreases f,
{
    if z != a && f > 0 {
        if let Some(q) = d2.parent(z) {
            lemma_node_ok(d1, z);
            lemma_anc_back(d1, d2, a, q, (f - 1) as nat);
        }
    }
}

/// In a well-formed document a chain found with any fuel is found with the node's depth.
pub proof fn lemma_anc_f_sound(d: DocV, a: NodeId, z: NodeId, f: nat)
    requires
        d.wf(),
        d.valid(z),
        d.anc_f(a, z, f),
    ensures
        d.anc_or_self(a, z),
    decreases f,
{
    lemma_anc_unfold(d, a, z);
    if z != a {
        lemma_node_ok(d, z);
        let q = d.parent(z).unwrap();
        lemma_anc_f_sound(d, a, q, (f - 1) as nat);
    }
}

/// A proper descendant of `x` lies under one of `x`'s children.
pub proof fn lemma_anc_child(d: DocV, x: NodeId, z: NodeId) -> (c: NodeId)
    requires
        d.wf(),
        d.valid(z),
        d.anc_or_self(x, z),
        z != x,
    ensures
        d.valid(c),
        d.parent(c) == Some(x),
        d.anc_or_self(c, z),
    decreases d.dep(z),
{
    lemma_anc_unfold(d, x, z);
    lemma_node_ok(d, z);
    let q = d.parent(z).unwrap();
    lemma_anc_unfold(d, z, z);
    if q == x {
        z
    } else {
        let c = lemma_anc_child(d, x, q);
        lemma_anc_unfold(d, c, z);
        c
    }
}

proof fn lemma_pre_list_contains(d: DocV, cs: Seq<NodeId>, f: nat, k: int, z: NodeId)
    requires
        0 <= k < cs.len(),
        d.pre_f(cs[k], f).contains(z),
    ensures
        d.pre_list(cs, f).contains(z),
    decreases cs.len(),
{
    let a = d.pre_f(cs[0], f);
    let b = d.pre_list(cs.drop_first(), f);
    assert(d.pre_list(cs, f) == a + b);
    if k == 0 {
        let i = choose|i: int| 0 <= i < a.len() && a[i] == z;
        assert((a + b)[i] == z);
    } else {
        assert(cs.drop_first()[k - 1] == cs[k]);
        lemma_pre_list_contains(d, cs.drop_first(), f, k - 1, z);
        let i = choose|i: int| 0 <= i < b.len() && b[i] == z;
        assert((a + b)[a.len() + i] == z);
    }
}

proof fn lemma_pre_contains(d: DocV, x: NodeId, z: NodeId, f: nat)
    requires
        d.wf(),
        d.valid(x),
        d.valid(z),
        d.anc_or_self(x, z),
        d.dep(z) < d.dep(x) + f,
    ensures
        d.pre_f(x, f).contains(z),
    decreases f,
{
    if z == x {
        assert(d.pre_f(x, f)[0] == x);
    } else {
        lemma_anc_dep(d, x, z);
        let c = lemma_anc_child(d, x, z);
        lemma_node_ok(d, c);
        lemma_node_ok(d, x);
        let cs = d.children(x);
        let k = choose|k: int| 0 <= k < cs.len() && cs[k] == c;
        lemma_pre_contains(d, c, z, (f - 1) as nat);
        lemma_pre_list_contains(d, cs, (f - 1) as nat, k, z);
        let l = d.pre_list(cs, (f - 1) as nat);
        let i = choose|i: int| 0 <= i < l.len() && l[i] == z;
        assert(d.pre_f(x, f) == seq![x] + l);
        assert(d.pre_f(x, f)[i + 1] == z);
    }
}

/// Every descendant of `x` is listed in its subtree.
pub proof fn lemma_subtree_contains(d: DocV, x: NodeId, z: NodeId)
    requires
        d.wf(),
        d.valid(x),
        d.valid(z),
        d.anc_or_self(x, z),
    ensures
        d.subtree(x).contains(z),
{
    lemma_depth_bound(d, z);
    lemma_pre_contains(d, x, z, (d.nodes.len() - d.dep(x)) as nat);
}

/// Detaching `n` cannot make it an ancestor of a node it was not an ancestor of.
pub proof fn lemma_detach_keeps_non_anc(d: DocV, n: NodeId, x: NodeId)
    requires
        d.wf(),
        d.valid(n),
        d.valid(x),
        d.parent(n) is Some,
        !d.anc_or_self(n, x),
    ensures
        !d.detached(n).anc_or_self(n, x),
    decreases d.dep(x),
{
    let p = d.parent(n).unwrap();
    let d1 = d.detach_struct(n, p);
    let d2 = d.detached(n);
    lemma_detach_struct_wf(d, n);
    assert(d2.nodes == d1.nodes && d2.depth == d1.depth);
    lemma_anc_unfold(d, n, x);
    lemma_anc_unfold(d1, n, x);
    lemma_node_ok(d, x);
    lemma_node_ok(d, n);
    assert(x != n);
    assert(d1.parent(x) == d.parent(x));
    if let Some(q) = d.parent(x) {
        lemma_detach_keeps_non_anc(d, n, q);
        lemma_anc_same(d1, d2, n, q, d1.dep(q));
        assert(!d1.anc_or_self(n, q));
    }
    assert(!d1.anc_or_self(n, x));
    lemma_anc_same(d1, d2, n, x, d1.dep(x));
}


/// Index of the first attribute named `name`, or -1.
pub open spec fn attr_pos(attrs: Seq<AttrV>, name: Seq<char>) -> int
    decreases attrs.len(),
{
    if attrs.len() == 0 {
        -1
    } else if attrs[0].name == name {
        0
    } else {
        let r = attr_pos(attrs.drop_first(), name);
        if r < 0 {
            -1
        } else {
            r + 1
        }
    }
}

/// `attrs` with `name` set to `value`: in place when present, appended (after one space) otherwise.
pub open spec fn attrs_set(attrs: Seq<AttrV>, name: Seq<char>, value: Seq<char>) -> Seq<AttrV> {
    let i = attr_pos(attrs, name);
    if i >= 0 {
        attrs.update(i, AttrV { value: value, ..attrs[i] })
    } else {
        attrs.push(AttrV { name: name, value: value, ws: seq![' '] })
    }
}

/// `attrs` without the first attribute named `name`.
pub open spec fn attrs_remove(attrs: Seq<AttrV>, name: Seq<char>) -> Seq<AttrV> {
    let i = attr_pos(attrs, name);
    if i >= 0 {
        attrs.remove(i)
    } else {
        attrs
    }
}

/// No two attributes share a name.
pub open spec fn attrs_distinct(attrs: Seq<AttrV>) -> bool {
    forall|i: int, j: int| 0 <= i < j < attrs.len() ==> attrs[i].name != attrs[j].name
}

pub proof fn lemma_attr_pos(attrs: Seq<AttrV>, name: Seq<char>)
    ensures
        -1 <= attr_pos(attrs, name) < attrs.len(),
        attr_pos(attrs, name) >= 0 ==> attrs[attr_pos(attrs, name)].name == name,
        forall|j: int| 0 <= j < attrs.len() && (attr_pos(attrs, name) < 0 || j < attr_pos(attrs, name))
            ==> #[trigger] attrs[j].name != name,
        attr_in(attrs, name) == (if attr_pos(attrs, name) >= 0 {
            Some(attrs[attr_pos(attrs, name)].value)
        } else {
            None
        }),
    decreases attrs.len(),
{
    if attrs.len() > 0 && attrs[0].name != name {
        lemma_attr_pos(attrs.drop_first(), name);
        assert forall|j: int| 0 <= j < attrs.len() && (attr_pos(attrs, name) < 0 || j < attr_pos(attrs, name))
            implies #[trigger] attrs[j].name != name by {
            if j > 0 {
                assert(attrs[j] == attrs.drop_first()[j - 1]);
            }
        }
    }
}

/// Reading back a written attribute gives the written value.
pub proof fn lemma_attrs_set_get(attrs: Seq<AttrV>, name: Seq<char>, value: Seq<char>, other: Seq<char>)
    ensures
        attr_in(attrs_set(attrs, name, value), name) == Some(value),
        other != name ==> attr_in(attrs_set(attrs, name, value), other) == attr_in(attrs, other),
{
    let s = attrs_set(attrs, name, value);
    lemma_attr_pos(attrs, name);
    lemma_attr_pos(attrs, other);
    lemma_attr_pos(s, name);
    lemma_attr_pos(s, other);
    let i = attr_pos(attrs, name);
    if i >= 0 {
        assert(s[i].name == name);
        if attr_pos(s, name) > i {
            assert(s[i].name != name);
        }
    } else {
        assert(s[attrs.len() as int].name == name);
    }
    if other != name {
        let j = attr_pos(attrs, other);
        let k = attr_pos(s, other);
        if j >= 0 {
            assert(s[j].name == other);
            if k >= 0 && k < j {
                assert(s[k] == attrs[k]);
            }
        } else if k >= 0 {
            if k < attrs.len() {
                assert(s[k].name == attrs[k].name);
            }
        }
    }
}

/// Removing an attribute leaves no attribute of that name when names are distinct.
pub proof fn lemma_attrs_remove_get(attrs: Seq<AttrV>, name: Seq<char>, other: Seq<char>)
    requires
        attrs_distinct(attrs),
    ensures
        attr_in(attrs_remove(attrs, name), name) is None,
        other != name ==> attr_in(attrs_remove(attrs, name), other) == attr_in(attrs, other),
{
    let s = attrs_remove(attrs, name);
    lemma_attr_pos(attrs, name);
    lemma_attr_pos(attrs, other);
    lemma_attr_pos(s, name);
    lemma_attr_pos(s, other);
    let i = attr_pos(attrs, name);
    if i >= 0 {
        let k = attr_pos(s, name);
        if k >= 0 {
            if k < i {
                assert(s[k] == attrs[k]);
            } else {
                assert(s[k] == attrs[k + 1]);
            }
        }
        if other != name {
            let j = attr_pos(attrs, other);
            let m = attr_pos(s, other);
            if j >= 0 {
                if j < i {
                    assert(s[j] == attrs[j]);
                } else {
                    assert(s[j - 1] == attrs[j]);
                }
            }
            if m >= 0 {
                if m < i {
                    assert(s[m] == attrs[m]);
                } else {
                    assert(s[m] == attrs[m + 1]);
                }
            }
        }
    }
}

/// Everything up to and including the last `:` of a qualified name.
pub open spec fn name_prefix(q: Seq<char>) -> Seq<char>
    decreases q.len(),
{
    if q.len() == 0 {
        q
    } else if q.last() == ':' {
        q
    } else {
        name_prefix(q.drop_last())
    }
}

impl DocV {
    pub open spec fn set_kind(self, n: NodeId, k: KindV) -> DocV {
        DocV { nodes: self.nodes.update(n as int, NodeV { kind: k, ..self.nodes[n as int] }), ..self }
    }

    /// `ids` once `n`'s current `id` no longer names it.
    pub open spec fn ids_without_own(self, n: NodeId) -> Map<Seq<char>, NodeId> {
        match self.attr(n, "id"@) {
            Some(o) => if self.ids.contains_key(o) && self.ids[o] == n {
                self.ids.remove(o)
            } else {
                self.ids
            },
            None => self.ids,
        }
    }

    /// The document after `set_attr(n, name, value)`.
    pub open spec fn attr_set(self, n: NodeId, name: Seq<char>, value: Seq<char>) -> DocV {
        let ids1 = if name == "id"@ {
            self.ids_without_own(n).insert(value, n)
        } else {
            self.ids
        };
        let d1 = match self.kind(n) {
            KindV::Element { name: q, attrs, self_closing, close_ws } => DocV {
                ids: ids1,
                ..self.set_kind(
                    n,
                    KindV::Element {
                        name: q,
                        attrs: attrs_set(attrs, name, value),
                        self_closing,
                        close_ws,
                    },
                )
            },
            _ => DocV { ids: ids1, ..self },
        };
        let d2 = if affects_style(name) {
            d1.style_bumped()
        } else {
            d1
        };
        d2.gen_bumped()
    }

    /// The document after `remove_attr(n, name)`.
    pub open spec fn attr_removed(self, n: NodeId, name: Seq<char>) -> DocV {
        let d1 = if name == "id"@ {
            DocV { ids: self.ids_without_own(n), ..self }
        } else {
            self
        };
        match self.kind(n) {
            KindV::Element { name: q, attrs, self_closing, close_ws } => if attr_pos(attrs, name)
                >= 0 {
                let d2 = d1.set_kind(
                    n,
                    KindV::Element { name: q, attrs: attrs.remove(attr_pos(attrs, name)), self_closing, close_ws },
                );
                let d3 = if affects_style(name) {
                    d2.style_bumped()
                } else {
                    d2
                };
                d3.gen_bumped()
            } else {
                d1
            },
            _ => d1,
        }
    }

    /// The document after `set_text(n, s)`.
    pub open spec fn text_set(self, n: NodeId, s: Seq<char>) -> DocV {
        let k = match self.kind(n) {
            KindV::Text(_) => Some(KindV::Text(s)),
            KindV::CData(_) => Some(KindV::CData(s)),
            _ => None,
        };
        match k {
            Some(k) => {
                let d1 = self.set_kind(n, k);
                let d2 = if self.parent(n) matches Some(p) && self.tag(p) == "style"@ {
                    d1.sheet_bumped()
                } else {
                    d1
                };
                d2.gen_bumped()
            },
            None => self,
        }
    }

    /// The document after `set_tag(n, local)`.
    pub open spec fn tag_set(self, n: NodeId, local: Seq<char>) -> DocV {
        match self.kind(n) {
            KindV::Element { name, attrs, self_closing, close_ws } => {
                let d1 = self.set_kind(
                    n,
                    KindV::Element { name: name_prefix(name) + local, attrs, self_closing, close_ws },
                );
                let d2 = if self.tag(n) == "style"@ || local == "style"@ {
                    d1.sheet_bumped()
                } else {
                    d1
                };
                d2.style_bumped().gen_bumped()
            },
            _ => self,
        }
    }

    /// The document after allocating a detached node of kind `k`.
    pub open spec fn allocated(self, k: KindV) -> DocV {
        DocV {
            nodes: self.nodes.push(NodeV { parent: None, children: seq![], kind: k }),
            depth: self.depth.push(0),
            ..self
        }
    }
}

/// Writing this attribute can change some node's cascade.
pub open spec fn affects_style(name: Seq<char>) -> bool {
    name == "style"@ || name == "class"@ || name == "id"@ || crate::style::is_presentation_attr(name)
}

proof fn lemma_prefix_at(q: Seq<char>, i: int)
    requires
        -1 <= i < q.len(),
        i >= 0 ==> q[i] == ':',
        forall|j: int| i < j < q.len() ==> q[j] != ':',
    ensures
        name_prefix(q) == q.subrange(0, i + 1),
    decreases q.len(),
{
    if q.len() > 0 && i < q.len() - 1 {
        lemma_prefix_at(q.drop_last(), i);
    }
    if q.len() > 0 && i == q.len() - 1 {
        assert(q.subrange(0, i + 1) =~= q);
    }
    if q.len() == 0 {
        assert(q.subrange(0, 0) =~= q);
    }
}

proof fn lemma_name_prefix(q: Seq<char>)
    ensures
        q == name_prefix(q) + local_name(q),
    decreases q.len(),
{
    if q.len() > 0 && q.last() != ':' {
        lemma_name_prefix(q.drop_last());
        let a = name_prefix(q.drop_last());
        let b = local_name(q.drop_last());
        assert(q =~= q.drop_last().push(q.last()));
        assert((a + b).push(q.last()) =~= a + b.push(q.last()));
    }
    if q.len() > 0 && q.last() == ':' {
        assert(q + seq![] =~= q);
    }
}

proof fn lemma_pre_valid(d: DocV, x: NodeId, f: nat)
    requires
        d.wf(),
        d.valid(x),
    ensures
        forall|i: int| 0 <= i < d.pre_f(x, f).len() ==> d.valid(#[trigger] d.pre_f(x, f)[i]),
    decreases f, 0nat,
{
    if f > 0 {
        lemma_node_ok(d, x);
        assert forall|i: int| 0 <= i < d.children(x).len() implies d.valid(#[trigger] d.children(x)[i]) by {
            lemma_child(d, x, i);
        }
        lemma_pre_list_valid(d, d.children(x), (f - 1) as nat);
        let l = d.pre_list(d.children(x), (f - 1) as nat);
        let s = d.pre_f(x, f);
        assert(s == seq![x] + l);
        assert forall|i: int| 0 <= i < s.len() implies d.valid(#[trigger] s[i]) by {
            if i > 0 {
                assert(s[i] == l[i - 1]);
            }
        }
    }
}

proof fn lemma_pre_list_valid(d: DocV, cs: Seq<NodeId>, f: nat)
    requires
        d.wf(),
        forall|i: int| 0 <= i < cs.len() ==> d.valid(#[trigger] cs[i]),
    ensures
        forall|i: int| 0 <= i < d.pre_list(cs, f).len() ==> d.valid(#[trigger] d.pre_list(cs, f)[i]),
    decreases f, cs.len(),
{
    if cs.len() > 0 {
        assert(d.valid(cs[0]));
        lemma_pre_valid(d, cs[0], f);
        assert forall|i: int| 0 <= i < cs.drop_first().len() implies d.valid(#[trigger] cs.drop_first()[i]) by {
            assert(d.valid(cs[i + 1]));
        }
        lemma_pre_list_valid(d, cs.drop_first(), f);
        let a = d.pre_f(cs[0], f);
        let b = d.pre_list(cs.drop_first(), f);
        let s = d.pre_list(cs, f);
        assert(s == a + b);
        assert forall|i: int| 0 <= i < s.len() implies d.valid(#[trigger] s[i]) by {
            if i < a.len() {
                assert(s[i] == a[i]);
            } else {
                assert(s[i] == b[i - a.len()]);
            }
        }
    }
}

/// Every node listed in a subtree is valid.
pub proof fn lemma_subtree_valid(d: DocV, x: NodeId)
    requires
        d.wf(),
        d.valid(x),
    ensures
        forall|i: int| 0 <= i < d.subtree(x).len() ==> d.valid(#[trigger] d.subtree(x)[i]),
{
    lemma_pre_valid(d, x, (d.nodes.len() - d.dep(x)) as nat);
}

proof fn lemma_subtree_unfold(d: DocV, x: NodeId)
    requires
        d.wf(),
        d.valid(x),
    ensures
        d.subtree(x) == seq![x] + d.pre_list(d.children(x), (d.nodes.len() - d.dep(x) - 1) as nat),
{
    lemma_depth_bound(d, x);
}

/// Subtree of a child, at the fuel its parent hands down.
proof fn lemma_subtree_child(d: DocV, x: NodeId, i: int)
    requires
        d.wf(),
        d.valid(x),
        0 <= i < d.children(x).len(),
    ensures
        d.subtree(d.children(x)[i]) == d.pre_f(
            d.children(x)[i],
            (d.nodes.len() - d.dep(x) - 1) as nat,
        ),
{
    lemma_child(d, x, i);
}

impl Doc {
    pub closed spec fn inv(&self) -> bool {
        &&& ids_unique(self.ids@)
        &&& self.depth@.len() == self.nodes@.len()
    }

    /// The document is well formed (see `DocV::wf`).
    pub open spec fn wf(&self) -> bool {
        &&& self@.wf()
        &&& self.inv()
    }

    proof fn lemma_view_node(&self, n: NodeId)
        requires
            (n as int) < self.nodes@.len(),
        ensures
            self@.nodes.len() == self.nodes@.len(),
            self@.nodes[n as int] == self.nodes@[n as int]@,
            self@.parent(n) == self.nodes@[n as int].parent,
            self@.children(n) == self.nodes@[n as int].children@,
            self@.kind(n) == self.nodes@[n as int].kind@,
    {
    }

    /// The Document node (always node 0).
    pub fn root(&self) -> (r: NodeId)
        ensures
            r == 0,
    {
        0
    }

    /// The root `<svg>` element.
    pub fn svg(&self) -> (r: NodeId)
        ensures
            r == self@.svg,
    {
        self.svg
    }

    /// Bumped by every mutation.
    pub fn generation(&self) -> (r: u64)
        ensures
            r == self@.generation,
    {
        self.generation
    }

    /// Bumped whenever a `<style>` element is attached, detached, or its text changes.
    pub fn sheet_generation(&self) -> (r: u64)
        ensures
            r == self@.sheet_generation,
    {
        self.sheet_generation
    }

    /// Bumped whenever a mutation could change some node's specified style.
    pub fn style_generation(&self) -> (r: u64)
        ensures
            r == self@.style_generation,
    {
        self.style_generation
    }

    /// Number of nodes in the arena (attached or not).
    pub fn node_count(&self) -> (r: usize)
        ensures
            r == self@.nodes.len(),
    {
        self.nodes.len()
    }

    pub fn kind(&self, n: NodeId) -> (r: &Kind)
        requires
            self@.valid(n),
        ensures
            r@ == self@.kind(n),
    {
        &self.nodes[n as usize].kind
    }

    pub fn is_element(&self, n: NodeId) -> (r: bool)
        requires
            self@.valid(n),
        ensures
            r == self@.is_element(n),
    {
        match &self.nodes[n as usize].kind {
            Kind::Element { .. } => true,
            _ => false,
        }
    }

    pub fn is_text(&self, n: NodeId) -> (r: bool)
        requires
            self@.valid(n),
        ensures
            r == self@.is_text(n),
    {
        match &self.nodes[n as usize].kind {
            Kind::Text(_) | Kind::CData(_) => true,
            _ => false,
        }
    }

    pub fn is_comment(&self, n: NodeId) -> (r: bool)
        requires
            self@.valid(n),
        ensures
            r == self@.is_comment(n),
    {
        match &self.nodes[n as usize].kind {
            Kind::Comment(_) => true,
            _ => false,
        }
    }

    /// Qualified name as written (`inkscape:page`), or `""` for non-elements.
    pub fn qname(&self, n: NodeId) -> (r: &str)
        requires
            self@.valid(n),
        ensures
            r@ == self@.qname(n),
    {
        match &self.nodes[n as usize].kind {
            Kind::Element { name, .. } => name.as_str(),
            _ => {
                proof {
                    reveal_strlit("");
                }
                ""
            },
        }
    }

    /// Local name (`page` for `inkscape:page`), or `""` for non-elements.
    pub fn tag(&self, n: NodeId) -> (r: &str)
        requires
            self@.valid(n),
        ensures
            r@ == self@.tag(n),
    {
        let q = self.qname(n);
        let cs = chars_of(q);
        match last_index_of(cs.as_slice(), ':') {
            Some(i) => {
                let len = cs.len();
                assert(i < len);
                proof {
                    lemma_local_name_after(q@, i as int);
                }
                q.substring_char(i + 1, len)
            },
            None => {
                proof {
                    lemma_local_name_after(q@, -1);
                }
                q
            },
        }
    }

    /// Attributes in source order (`[]` for non-elements).
    pub fn attrs(&self, n: NodeId) -> (r: &[Attr])
        requires
            self@.valid(n),
        ensures
            attrs_view(r@) == self@.attrs(n),
    {
        match &self.nodes[n as usize].kind {
            Kind::Element { attrs, .. } => attrs.as_slice(),
            _ => {
                let e: &[Attr] = &[];
                assert(attrs_view(e@) =~= seq![]);
                e
            },
        }
    }

    /// Value of the attribute named `name`.
    pub fn attr(&self, n: NodeId, name: &str) -> (r: Option<&str>)
        requires
            self@.valid(n),
        ensures
            r matches Some(v) ==> self@.attr(n, name@) == Some(v@),
            r is None ==> self@.attr(n, name@) is None,
    {
        let attrs = self.attrs(n);
        let mut i: usize = 0;
        assert(attrs_view(attrs@).subrange(0, attrs@.len() as int) =~= attrs_view(attrs@));
        while i < attrs.len()
            invariant
                i <= attrs@.len(),
                attrs_view(attrs@) == self@.attrs(n),
                attr_in(attrs_view(attrs@), name@) == attr_in(
                    attrs_view(attrs@).subrange(i as int, attrs@.len() as int),
                    name@,
                ),
            decreases attrs@.len() - i,
        {
            let ghost rest = attrs_view(attrs@).subrange(i as int, attrs@.len() as int);
            assert(rest.drop_first() =~= attrs_view(attrs@).subrange(i + 1, attrs@.len() as int));
            if str_eq(attrs[i].name.as_str(), name) {
                return Some(attrs[i].value.as_str());
            }
            i = i + 1;
        }
        None
    }

    /// Node with this `id`, if indexed.
    pub fn by_id(&self, id: &str) -> (r: Option<NodeId>)
        requires
            self.wf(),
        ensures
            r matches Some(n) ==> self@.ids.contains_key(id@) && self@.ids[id@] == n && self@.valid(n),
            r is None ==> !self@.ids.contains_key(id@),
    {
        match self.find_id(id) {
            Some(i) => {
                proof {
                    lemma_ids_map_get(self.ids@, i as int);
                    assert(self@.ids == ids_map(self.ids@));
                    assert(self@.ids.contains_key(id@));
                }
                Some(self.ids[i].1)
            },
            None => {
                proof {
                    lemma_ids_map_absent(self.ids@, id@);
                }
                None
            },
        }
    }

    fn find_id(&self, id: &str) -> (r: Option<usize>)
        ensures
            r matches Some(i) ==> i < self.ids@.len() && self.ids@[i as int].0@ == id@,
            r is None ==> forall|i: int| 0 <= i < self.ids@.len() ==> self.ids@[i].0@ != id@,
    {
        let mut i: usize = 0;
        while i < self.ids.len()
            invariant
                i <= self.ids@.len(),
                forall|j: int| 0 <= j < i ==> self.ids@[j].0@ != id@,
            decreases self.ids@.len() - i,
        {
            if str_eq(self.ids[i].0.as_str(), id) {
                return Some(i);
            }
            i = i + 1;
        }
        None
    }

    pub fn parent(&self, n: NodeId) -> (r: Option<NodeId>)
        requires
            self@.valid(n),
        ensures
            r == self@.parent(n),
    {
        self.nodes[n as usize].parent
    }

    /// The children of `n` in order.
    pub fn children(&self, n: NodeId) -> (r: Vec<NodeId>)
        requires
            self@.valid(n),
        ensures
            r@ == self@.children(n),
    {
        let ch = &self.nodes[n as usize].children;
        let mut out: Vec<NodeId> = Vec::new();
        let mut i: usize = 0;
        while i < ch.len()
            invariant
                i <= ch@.len(),
                ch@ == self@.children(n),
                out@ == ch@.subrange(0, i as int),
            decreases ch@.len() - i,
        {
            out.push(ch[i]);
            i = i + 1;
        }
        out
    }

    pub fn child_count(&self, n: NodeId) -> (r: usize)
        requires
            self@.valid(n),
        ensures
            r == self@.children(n).len(),
    {
        self.nodes[n as usize].children.len()
    }

    pub fn first_child(&self, n: NodeId) -> (r: Option<NodeId>)
        requires
            self@.valid(n),
        ensures
            r == (if self@.children(n).len() == 0 {
                None
            } else {
                Some(self@.children(n)[0])
            }),
    {
        let ch = &self.nodes[n as usize].children;
        if ch.len() == 0 {
            None
        } else {
            Some(ch[0])
        }
    }

    pub fn last_child(&self, n: NodeId) -> (r: Option<NodeId>)
        requires
            self@.valid(n),
        ensures
            r == (if self@.children(n).len() == 0 {
                None
            } else {
                Some(self@.children(n).last())
            }),
    {
        let ch = &self.nodes[n as usize].children;
        if ch.len() == 0 {
            None
        } else {
            Some(ch[ch.len() - 1])
        }
    }

    /// Position of `n` among its parent's children.
    fn index_in_parent(&self, n: NodeId) -> (r: Option<usize>)
        requires
            self.wf(),
            self@.valid(n),
        ensures
            self@.parent(n) is None ==> r is None,
            self@.parent(n) matches Some(p) ==> r matches Some(i) && i < self@.children(p).len()
                && self@.children(p)[i as int] == n,
    {
        proof {
            self.lemma_view_node(n);
        }
        match self.nodes[n as usize].parent {
            None => None,
            Some(p) => {
                proof {
                    lemma_node_ok(self@, n);
                    self.lemma_view_node(p);
                }
                let ch = &self.nodes[p as usize].children;
                let mut i: usize = 0;
                while i < ch.len()
                    invariant
                        i <= ch@.len(),
                        ch@ == self@.children(p),
                        self@.parent(n) == Some(p),
                        ch@.contains(n),
                        forall|j: int| 0 <= j < i ==> ch@[j] != n,
                    decreases ch@.len() - i,
                {
                    if ch[i] == n {
                        return Some(i);
                    }
                    i = i + 1;
                }
                None
            },
        }
    }

    pub fn next_sibling(&self, n: NodeId) -> (r: Option<NodeId>)
        requires
            self.wf(),
            self@.valid(n),
        ensures
            r == self@.next_sibling(n),
    {
        match self.index_in_parent(n) {
            None => None,
            Some(i) => {
                let p = self.nodes[n as usize].parent.unwrap();
                proof {
                    self.lemma_view_node(n);
                    lemma_node_ok(self@, n);
                    self.lemma_view_node(p);
                    lemma_node_ok(self@, p);
                    lemma_index_of(self@.children(p), i as int, n);
                }
                let ch = &self.nodes[p as usize].children;
                if i < ch.len() - 1 {
                    Some(ch[i + 1])
                } else {
                    None
                }
            },
        }
    }

    pub fn prev_sibling(&self, n: NodeId) -> (r: Option<NodeId>)
        requires
            self.wf(),
            self@.valid(n),
        ensures
            r == self@.prev_sibling(n),
    {
        match self.index_in_parent(n) {
            None => None,
            Some(i) => {
                let p = self.nodes[n as usize].parent.unwrap();
                proof {
                    self.lemma_view_node(n);
                    lemma_node_ok(self@, n);
                    self.lemma_view_node(p);
                    lemma_node_ok(self@, p);
                    lemma_index_of(self@.children(p), i as int, n);
                }
                let ch = &self.nodes[p as usize].children;
                if i > 0 {
                    Some(ch[i - 1])
                } else {
                    None
                }
            },
        }
    }

    /// Parent chain, nearest first, ending with the Document node for attached nodes.
    pub fn ancestors(&self, n: NodeId) -> (r: Vec<NodeId>)
        requires
            self.wf(),
            self@.valid(n),
        ensures
            r@ == self@.ancestors(n),
    {
        let mut out: Vec<NodeId> = Vec::new();
        let mut cur = n;
        loop
            invariant
                self.wf(),
                self@.valid(cur),
                out@ + self@.ancestors(cur) == self@.ancestors(n),
            decreases self@.dep(cur),
        {
            proof {
                lemma_node_ok(self@, cur);
            }
            match self.nodes[cur as usize].parent {
                None => {
                    assert(out@ =~= self@.ancestors(n));
                    return out;
                },
                Some(p) => {
                    assert(self@.ancestors(cur) == seq![p] + self@.ancestors(p));
                    out.push(p);
                    assert(out@ + self@.ancestors(p) =~= self@.ancestors(n));
                    cur = p;
                },
            }
        }
    }

    /// Pre-order traversal including `n` itself.
    pub fn descendants(&self, n: NodeId) -> (r: Vec<NodeId>)
        requires
            self.wf(),
            self@.valid(n),
        ensures
            r@ == self@.subtree(n),
    {
        let mut out: Vec<NodeId> = Vec::new();
        let mut stack: Vec<NodeId> = Vec::new();
        stack.push(n);
        assert(self@.stack_pre(stack@) =~= self@.subtree(n)) by {
            assert(stack@.drop_last() =~= seq![]);
            assert(self@.stack_pre(stack@) == self@.subtree(n) + self@.stack_pre(stack@.drop_last()));
        }
        while stack.len() > 0
            invariant
                self.wf(),
                forall|i: int| 0 <= i < stack@.len() ==> self@.valid(#[trigger] stack@[i]),
                self@.subtree(n) == out@ + self@.stack_pre(stack@),
            decreases self@.stack_pre(stack@).len(),
        {
            let ghost st0 = stack@;
            let cur = stack.pop().unwrap();
            let ghost rest = stack@;
            assert(st0.drop_last() =~= rest);
            proof {
                lemma_subtree_unfold(self@, cur);
                lemma_node_ok(self@, cur);
            }
            let ghost f = (self@.nodes.len() - self@.dep(cur) - 1) as nat;
            out.push(cur);
            let ch = &self.nodes[cur as usize].children;
            let mut i = ch.len();
            assert(ch@.subrange(i as int, ch@.len() as int) =~= seq![]);
            while i > 0
                invariant
                    self.wf(),
                    self@.valid(cur),
                    ch@ == self@.children(cur),
                    i <= ch@.len(),
                    f == (self@.nodes.len() - self@.dep(cur) - 1) as nat,
                    forall|j: int| 0 <= j < stack@.len() ==> self@.valid(#[trigger] stack@[j]),
                    self@.stack_pre(stack@) == self@.pre_list(
                        ch@.subrange(i as int, ch@.len() as int),
                        f,
                    ) + self@.stack_pre(rest),
                decreases i,
            {
                let c = ch[i - 1];
                proof {
                    lemma_child(self@, cur, i - 1);
                    lemma_subtree_child(self@, cur, i - 1);
                    let s1 = ch@.subrange(i - 1, ch@.len() as int);
                    assert(s1.drop_first() =~= ch@.subrange(i as int, ch@.len() as int));
                    assert(stack@.push(c).drop_last() =~= stack@);
                }
                stack.push(c);
                proof {
                    assert(self@.stack_pre(stack@) == self@.pre_list(
                        ch@.subrange(i - 1, ch@.len() as int),
                        f,
                    ) + self@.stack_pre(rest));
                }
                i = i - 1;
            }
            assert(ch@.subrange(0, ch@.len() as int) =~= ch@);
            assert(self@.subtree(n) =~= out@ + self@.stack_pre(stack@));
        }
        assert(out@ =~= self@.subtree(n));
        out
    }


    fn bump(&mut self)
        ensures
            final(self)@ == old(self)@.gen_bumped(),
            final(self).inv() == old(self).inv(),
            old(self)@.wf() ==> final(self)@.wf(),
    {
        let ghost d0 = self@;
        self.generation = if self.generation == u64::MAX {
            0
        } else {
            self.generation + 1
        };
        proof {
            if d0.wf() {
                lemma_wf_same_nodes(d0, self@);
            }
        }
    }

    fn bump_style(&mut self)
        ensures
            final(self)@ == old(self)@.style_bumped(),
            final(self).inv() == old(self).inv(),
            old(self)@.wf() ==> final(self)@.wf(),
    {
        let ghost d0 = self@;
        self.style_generation = if self.style_generation == u64::MAX {
            0
        } else {
            self.style_generation + 1
        };
        proof {
            if d0.wf() {
                lemma_wf_same_nodes(d0, self@);
            }
        }
    }

    fn bump_sheet(&mut self)
        ensures
            final(self)@ == old(self)@.sheet_bumped(),
            final(self).inv() == old(self).inv(),
            old(self)@.wf() ==> final(self)@.wf(),
    {
        let ghost d0 = self@;
        self.sheet_generation = if self.sheet_generation == u64::MAX {
            0
        } else {
            self.sheet_generation + 1
        };
        proof {
            if d0.wf() {
                lemma_wf_same_nodes(d0, self@);
            }
        }
        self.bump_style();
    }

    /// Whether some node of `ns` is a `<style>` element.
    fn any_style(&self, ns: &Vec<NodeId>) -> (r: bool)
        requires
            forall|i: int| 0 <= i < ns@.len() ==> self@.valid(#[trigger] ns@[i]),
        ensures
            r == self@.has_style_in(ns@),
    {
        let mut i: usize = 0;
        while i < ns.len()
            invariant
                i <= ns@.len(),
                forall|j: int| 0 <= j < ns@.len() ==> self@.valid(#[trigger] ns@[j]),
                forall|j: int| 0 <= j < i ==> !self@.is_style(#[trigger] ns@[j]),
            decreases ns@.len() - i,
        {
            if self.is_element(ns[i]) && str_eq(self.tag(ns[i]), "style") {
                proof {
                    reveal_strlit("style");
                    assert(self@.is_style(ns@[i as int]));
                }
                return true;
            }
            proof {
                reveal_strlit("style");
            }
            i = i + 1;
        }
        false
    }

    /// Drops the index entries that the nodes of `ns` own.
    fn unindex_nodes(&mut self, ns: &Vec<NodeId>)
        requires
            old(self).wf(),
            forall|i: int| 0 <= i < ns@.len() ==> old(self)@.valid(#[trigger] ns@[i]),
        ensures
            final(self).wf(),
            final(self)@ == (DocV { ids: old(self)@.unindex(old(self)@.ids, ns@), ..old(self)@ }),
    {
        let ghost d0 = self@;
        let mut i: usize = 0;
        while i < ns.len()
            invariant
                self.wf(),
                d0.wf(),
                i <= ns@.len(),
                forall|j: int| 0 <= j < ns@.len() ==> d0.valid(#[trigger] ns@[j]),
                self@ == (DocV { ids: d0.unindex(d0.ids, ns@.subrange(0, i as int)), ..d0 }),
            decreases ns@.len() - i,
        {
            let d = ns[i];
            proof {
                reveal_strlit("id");
                assert(ns@.subrange(0, i + 1).drop_last() =~= ns@.subrange(0, i as int));
            }
            let k = match self.attr(d, "id") {
                Some(v) => self.find_id(v),
                None => None,
            };
            match k {
                Some(k) => {
                    if self.ids[k].1 == d {
                        proof {
                            lemma_ids_map_get(self.ids@, k as int);
                            lemma_ids_map_remove(self.ids@, k as int);
                        }
                        self.ids.remove(k);
                    } else {
                        proof {
                            lemma_ids_map_get(self.ids@, k as int);
                        }
                    }
                },
                None => {
                    proof {
                        if let Some(v) = d0.attr(d, "id"@) {
                            lemma_ids_map_absent(self.ids@, v);
                        }
                    }
                },
            }
            i = i + 1;
            proof {
                lemma_unindex_sub(d0, d0.ids, ns@.subrange(0, i as int));
                assert(self@.ids == d0.unindex(d0.ids, ns@.subrange(0, i as int)));
                assert forall|key: Seq<char>| #[trigger] self@.ids.contains_key(key) implies self@.valid(
                    self@.ids[key],
                ) by {
                    assert(d0.ids.contains_key(key));
                }
                lemma_wf_same_nodes(d0, self@);
            }
        }
        assert(ns@.subrange(0, ns@.len() as int) =~= ns@);
    }

    /// Unlinks `n` from its parent (keeping its subtree). No-op if detached.
    pub fn detach(&mut self, n: NodeId)
        requires
            old(self).wf(),
            old(self)@.valid(n),
        ensures
            final(self).wf(),
            final(self)@ == old(self)@.detached(n),
    {
        let p = match self.nodes[n as usize].parent {
            None => {
                return ;
            },
            Some(p) => p,
        };
        let ghost d0 = self@;
        proof {
            self.lemma_view_node(n);
            lemma_node_ok(d0, n);
            lemma_detach_struct_wf(d0, n);
        }
        let i = self.index_in_parent(n).unwrap();
        proof {
            lemma_node_ok(d0, p);
            lemma_index_of(d0.children(p), i as int, n);
        }
        self.nodes[p as usize].children.remove(i);
        self.nodes[n as usize].parent = None;
        self.depth = Ghost(d0.detach_struct(n, p).depth);
        assert(self@.nodes =~= d0.detach_struct(n, p).nodes);
        assert(self@ == (DocV { ids: d0.ids, ..d0.detach_struct(n, p) }));
        let ds = self.descendants(n);
        proof {
            lemma_subtree_valid(self@, n);
            lemma_subtree_valid(d0, n);
        }
        let has_style = self.any_style(&ds);
        proof {
            lemma_unindex_same(self@, d0, d0.ids, ds@);
            assert forall|j: int| 0 <= j < ds@.len() implies self@.is_style(#[trigger] ds@[j]) == d0.is_style(ds@[j]) by {
            }
        }
        self.unindex_nodes(&ds);
        if has_style {
            self.bump_sheet();
        }
        self.bump_style();
        self.bump();
        proof {
            let d1 = self@;
            lemma_wf_same_nodes(d0.detach_struct(n, p), d1);
        }
    }


    /// Adds index entries for the ids the nodes of `ns` carry, where not yet taken.
    fn index_nodes(&mut self, ns: &Vec<NodeId>)
        requires
            old(self).wf(),
            forall|i: int| 0 <= i < ns@.len() ==> old(self)@.valid(#[trigger] ns@[i]),
        ensures
            final(self).wf(),
            final(self)@ == (DocV { ids: old(self)@.index(old(self)@.ids, ns@), ..old(self)@ }),
    {
        let ghost d0 = self@;
        let mut i: usize = 0;
        while i < ns.len()
            invariant
                self.wf(),
                d0.wf(),
                i <= ns@.len(),
                forall|j: int| 0 <= j < ns@.len() ==> d0.valid(#[trigger] ns@[j]),
                self@ == (DocV { ids: d0.index(d0.ids, ns@.subrange(0, i as int)), ..d0 }),
            decreases ns@.len() - i,
        {
            let d = ns[i];
            proof {
                reveal_strlit("id");
                assert(ns@.subrange(0, i + 1).drop_last() =~= ns@.subrange(0, i as int));
            }
            let v: Option<String> = match self.attr(d, "id") {
                Some(v) => Some(v.to_owned()),
                None => None,
            };
            if let Some(v) = v {
                match self.find_id(v.as_str()) {
                    Some(k) => {
                        proof {
                            lemma_ids_map_get(self.ids@, k as int);
                        }
                    },
                    None => {
                        proof {
                            lemma_ids_map_absent(self.ids@, v@);
                        }
                        let ghost old_ids = self.ids@;
                        self.ids.push((v, d));
                        proof {
                            assert(self.ids@.drop_last() =~= old_ids);
                        }
                    },
                }
            }
            i = i + 1;
            proof {
                assert(self@.ids == d0.index(d0.ids, ns@.subrange(0, i as int)));
                assert forall|key: Seq<char>| #[trigger] self@.ids.contains_key(key) implies self@.valid(
                    self@.ids[key],
                ) by {
                    lemma_index_valid(d0, d0.ids, ns@.subrange(0, i as int), key);
                }
                lemma_wf_same_nodes(d0, self@);
            }
        }
        assert(ns@.subrange(0, ns@.len() as int) =~= ns@);
    }

    /// Links the detached `n` as child `i` of `p`, then indexes its subtree.
    fn link(&mut self, p: NodeId, i: usize, n: NodeId)
        requires
            old(self).wf(),
            old(self)@.valid(p),
            old(self)@.valid(n),
            old(self)@.parent(n) is None,
            !old(self)@.anc_or_self(n, p),
            i <= old(self)@.children(p).len(),
        ensures
            final(self).wf(),
            final(self)@ == old(self)@.attached_at(p, i as int, n),
    {
        let ghost d0 = self@;
        proof {
            lemma_attach_struct_wf(d0, p, i as int, n);
            self.lemma_view_node(p);
            self.lemma_view_node(n);
        }
        self.nodes[p as usize].children.insert(i, n);
        self.nodes[n as usize].parent = Some(p);
        self.depth = Ghost(d0.attach_struct(p, i as int, n).depth);
        assert(self@.nodes =~= d0.attach_struct(p, i as int, n).nodes);
        assert(self@ == (DocV { ids: d0.ids, ..d0.attach_struct(p, i as int, n) }));
        let ds = self.descendants(n);
        proof {
            lemma_subtree_valid(self@, n);
            lemma_unindex_same(self@, d0, d0.ids, ds@);
            assert forall|j: int| 0 <= j < ds@.len() implies self@.is_style(#[trigger] ds@[j])
                == d0.is_style(ds@[j]) by {}
        }
        let has_style = self.any_style(&ds);
        self.index_nodes(&ds);
        if has_style {
            self.bump_sheet();
        }
        self.bump_style();
        self.bump();
        proof {
            lemma_wf_same_nodes(d0.attach_struct(p, i as int, n), self@);
        }
    }

    /// Whether `n` may be attached at `target`: `n` is neither `target` nor an ancestor of it.
    pub fn can_attach(&self, n: NodeId, target: NodeId) -> (r: bool)
        requires
            self.wf(),
            self@.valid(target),
        ensures
            r == self@.can_attach(n, target),
    {
        let mut cur = target;
        loop
            invariant
                self.wf(),
                self@.valid(cur),
                self@.anc_or_self(n, target) == self@.anc_or_self(n, cur),
            decreases self@.dep(cur),
        {
            proof {
                lemma_anc_unfold(self@, n, cur);
                lemma_node_ok(self@, cur);
                self.lemma_view_node(cur);
            }
            if cur == n {
                return false;
            }
            match self.nodes[cur as usize].parent {
                None => {
                    return true;
                },
                Some(p) => {
                    cur = p;
                },
            }
        }
    }

    /// Moves `n` (with its subtree) to the end of `parent`'s children.
    pub fn append_child(&mut self, parent: NodeId, n: NodeId)
        requires
            old(self).wf(),
            old(self)@.valid(parent),
            old(self)@.valid(n),
            old(self)@.can_attach(n, parent),
        ensures
            final(self).wf(),
            final(self)@ == old(self)@.appended(parent, n),
    {
        let ghost d0 = self@;
        proof {
            lemma_node_ok(d0, n);
            if d0.parent(n) is Some {
                lemma_detach_keeps_non_anc(d0, n, parent);
            }
        }
        self.detach(n);
        proof {
            lemma_node_ok(self@, n);
        }
        let len = self.nodes[parent as usize].children.len();
        proof {
            self.lemma_view_node(parent);
        }
        self.link(parent, len, n);
    }

    /// Moves `n` right before `anchor`, which must be attached.
    pub fn insert_before(&mut self, n: NodeId, anchor: NodeId)
        requires
            old(self).wf(),
            old(self)@.valid(n),
            old(self)@.valid(anchor),
            old(self)@.parent(anchor) is Some,
            old(self)@.can_attach(n, anchor),
        ensures
            final(self).wf(),
            final(self)@ == old(self)@.inserted_before(n, anchor),
    {
        let ghost d0 = self@;
        let ghost p0 = d0.parent(anchor).unwrap();
        proof {
            lemma_node_ok(d0, n);
            lemma_node_ok(d0, anchor);
            lemma_anc_unfold(d0, n, anchor);
            if d0.parent(n) is Some {
                lemma_detach_keeps_non_anc(d0, n, p0);
                lemma_detach_struct_wf(d0, n);
                assert(d0.detached(n).nodes == d0.detach_struct(n, d0.parent(n).unwrap()).nodes);
            }
        }
        self.detach(n);
        let p = self.nodes[anchor as usize].parent.unwrap();
        proof {
            self.lemma_view_node(anchor);
            assert(p == p0);
            lemma_node_ok(self@, anchor);
            lemma_node_ok(self@, n);
        }
        let i = self.index_in_parent(anchor).unwrap();
        proof {
            lemma_node_ok(self@, p);
            lemma_index_of(self@.children(p), i as int, anchor);
        }
        self.link(p, i, n);
    }

    /// Moves `n` to the front of `parent`'s children.
    pub fn prepend_child(&mut self, parent: NodeId, n: NodeId)
        requires
            old(self).wf(),
            old(self)@.valid(parent),
            old(self)@.valid(n),
            old(self)@.can_attach(n, parent),
        ensures
            final(self).wf(),
            old(self)@.children(parent).len() == 0 ==> final(self)@ == old(self)@.appended(parent, n),
            old(self)@.children(parent).len() > 0 && old(self)@.children(parent)[0] == n
                ==> final(self)@ == old(self)@,
            old(self)@.children(parent).len() > 0 && old(self)@.children(parent)[0] != n
                ==> final(self)@ == old(self)@.inserted_before(n, old(self)@.children(parent)[0]),
    {
        match self.first_child(parent) {
            Some(f) => {
                if f != n {
                    proof {
                        lemma_child(self@, parent, 0);
                        lemma_anc_unfold(self@, n, f);
                    }
                    self.insert_before(n, f);
                }
            },
            None => {
                self.append_child(parent, n);
            },
        }
    }

    /// Moves `n` right after `anchor`, which must be attached.
    pub fn insert_after(&mut self, n: NodeId, anchor: NodeId)
        requires
            old(self).wf(),
            old(self)@.valid(n),
            old(self)@.valid(anchor),
            old(self)@.parent(anchor) is Some,
            old(self)@.can_attach(n, anchor),
        ensures
            final(self).wf(),
            old(self)@.next_sibling(anchor) is None ==> final(self)@ == old(self)@.appended(
                old(self)@.parent(anchor).unwrap(),
                n,
            ),
            old(self)@.next_sibling(anchor) == Some(n) ==> final(self)@ == old(self)@,
            old(self)@.next_sibling(anchor) matches Some(nx) ==> (nx != n ==> final(self)@
                == old(self)@.inserted_before(n, nx)),
    {
        let ghost d0 = self@;
        proof {
            lemma_node_ok(d0, anchor);
            lemma_anc_unfold(d0, n, anchor);
        }
        match self.next_sibling(anchor) {
            Some(nx) => {
                if nx != n {
                    proof {
                        let p = d0.parent(anchor).unwrap();
                        lemma_node_ok(d0, p);
                        let k = pos_in(d0.children(p), anchor);
                        let k0 = choose|j: int| 0 <= j < d0.children(p).len() && d0.children(p)[j] == anchor;
                        lemma_index_of(d0.children(p), k0, anchor);
                        lemma_child(d0, p, k + 1);
                        lemma_anc_unfold(d0, n, nx);
                    }
                    self.insert_before(n, nx);
                }
            },
            None => {
                let p = self.nodes[anchor as usize].parent.unwrap();
                proof {
                    self.lemma_view_node(anchor);
                }
                self.append_child(p, n);
            },
        }
    }

    /// Puts `new` where `cur` is and detaches `cur`.
    pub fn replace(&mut self, cur: NodeId, new: NodeId)
        requires
            old(self).wf(),
            old(self)@.valid(cur),
            old(self)@.valid(new),
            old(self)@.parent(cur) is Some,
            old(self)@.can_attach(new, cur),
        ensures
            final(self).wf(),
            final(self)@ == old(self)@.inserted_before(new, cur).detached(cur),
    {
        self.insert_before(new, cur);
        self.detach(cur);
    }


    /// Index of the first attribute named `name`.
    fn find_attr(attrs: &Vec<Attr>, name: &str) -> (r: Option<usize>)
        ensures
            r matches Some(i) ==> i < attrs@.len() && i as int == attr_pos(attrs_view(attrs@), name@),
            r is None ==> attr_pos(attrs_view(attrs@), name@) == -1,
    {
        let ghost av = attrs_view(attrs@);
        let mut i: usize = 0;
        while i < attrs.len()
            invariant
                i <= attrs@.len(),
                av == attrs_view(attrs@),
                forall|j: int| 0 <= j < i ==> av[j].name != name@,
            decreases attrs@.len() - i,
        {
            proof {
                assert(av[i as int] == attrs@[i as int]@);
            }
            if str_eq(attrs[i].name.as_str(), name) {
                proof {
                    lemma_attr_pos(av, name@);
                    let p = attr_pos(av, name@);
                    if p >= 0 && p < i {
                        assert(av[p].name != name@);
                    }
                    if p < 0 || p > i {
                        assert(av[i as int].name != name@);
                    }
                }
                return Some(i);
            }
            i = i + 1;
        }
        proof {
            lemma_attr_pos(av, name@);
            let p = attr_pos(av, name@);
            if p >= 0 {
                assert(av[p].name != name@);
            }
        }
        None
    }

    /// Sets `name` to `value` in an attribute list (see `attrs_set`).
    fn attrs_put(attrs: &mut Vec<Attr>, name: &str, value: &str)
        ensures
            attrs_view(final(attrs)@) == attrs_set(attrs_view(old(attrs)@), name@, value@),
    {
        let ghost av = attrs_view(attrs@);
        match Self::find_attr(attrs, name) {
            Some(i) => {
                let old_ws = attrs[i].ws.clone();
                let old_name = attrs[i].name.clone();
                attrs.set(i, Attr { name: old_name, value: value.to_owned(), ws: old_ws });
                proof {
                    assert(av[i as int] == old(attrs)@[i as int]@);
                    let na = attrs_view(attrs@);
                    let ex = attrs_set(av, name@, value@);
                    assert(ex == av.update(i as int, AttrV { value: value@, ..av[i as int] }));
                    assert(na.len() == ex.len());
                    assert forall|j: int| 0 <= j < na.len() implies na[j] == ex[j] by {
                        if j == i {
                            assert(na[j] == attrs@[j]@);
                        } else {
                            assert(na[j] == attrs@[j]@);
                            assert(attrs@[j] == old(attrs)@[j]);
                            assert(av[j] == old(attrs)@[j]@);
                        }
                    }
                    assert(na =~= ex);
                }
            },
            None => {
                proof {
                    reveal_strlit(" ");
                }
                attrs.push(Attr { name: name.to_owned(), value: value.to_owned(), ws: " ".to_owned() });
                proof {
                    let na = attrs_view(attrs@);
                    let ex = attrs_set(av, name@, value@);
                    assert(" "@ =~= seq![' ']);
                    assert(na.len() == ex.len());
                    assert forall|j: int| 0 <= j < na.len() implies na[j] == ex[j] by {
                        assert(na[j] == attrs@[j]@);
                        if j < av.len() {
                            assert(attrs@[j] == old(attrs)@[j]);
                            assert(av[j] == old(attrs)@[j]@);
                        }
                    }
                    assert(na =~= ex);
                }
            },
        }
    }

    /// Removes the first attribute named `name` from a list and returns its value.
    fn attrs_take(attrs: &mut Vec<Attr>, name: &str) -> (r: Option<String>)
        ensures
            attrs_view(final(attrs)@) == attrs_remove(attrs_view(old(attrs)@), name@),
            r matches Some(v) ==> attr_in(attrs_view(old(attrs)@), name@) == Some(v@),
            r is None ==> attr_in(attrs_view(old(attrs)@), name@) is None,
    {
        let ghost av = attrs_view(attrs@);
        proof {
            lemma_attr_pos(av, name@);
        }
        match Self::find_attr(attrs, name) {
            Some(i) => {
                let a = attrs.remove(i);
                proof {
                    assert(av[i as int] == old(attrs)@[i as int]@);
                    assert(attrs_view(attrs@) =~= attrs_remove(av, name@));
                }
                Some(a.value)
            },
            None => {
                None
            },
        }
    }

    /// Index in the id table of the entry that names `n` by its own current `id`.
    fn own_id_entry(&self, n: NodeId) -> (r: Option<usize>)
        requires
            self.wf(),
            self@.valid(n),
        ensures
            r matches Some(k) ==> k < self.ids@.len() && self@.attr(n, "id"@) == Some(self.ids@[k as int].0@)
                && self.ids@[k as int].1 == n,
            r is None ==> self@.ids_without_own(n) == self@.ids,
    {
        proof {
            reveal_strlit("id");
        }
        let k = match self.attr(n, "id") {
            Some(v) => self.find_id(v),
            None => None,
        };
        match k {
            Some(k) => {
                proof {
                    lemma_ids_map_get(self.ids@, k as int);
                }
                if self.ids[k].1 == n {
                    Some(k)
                } else {
                    None
                }
            },
            None => {
                proof {
                    if let Some(v) = self@.attr(n, "id"@) {
                        lemma_ids_map_absent(self.ids@, v);
                    }
                }
                None
            },
        }
    }

    /// Points `key` at `n` in the id table.
    fn ids_insert(&mut self, key: String, n: NodeId)
        requires
            old(self).wf(),
            old(self)@.valid(n),
        ensures
            final(self).wf(),
            final(self)@ == (DocV { ids: old(self)@.ids.insert(key@, n), ..old(self)@ }),
    {
        let ghost d0 = self@;
        match self.find_id(key.as_str()) {
            Some(k) => {
                proof {
                    lemma_ids_map_update(self.ids@, k as int, (key, n));
                }
                self.ids.set(k, (key, n));
            },
            None => {
                proof {
                    lemma_ids_map_absent(self.ids@, key@);
                }
                let ghost old_ids = self.ids@;
                self.ids.push((key, n));
                proof {
                    assert(self.ids@.drop_last() =~= old_ids);
                    assert forall|i: int, j: int| 0 <= i < j < self.ids@.len() implies self.ids@[i].0@ != self.ids@[j].0@ by {
                        if j == self.ids@.len() - 1 {
                            assert(old_ids[i] == self.ids@[i]);
                        }
                    }
                }
            },
        }
        proof {
            lemma_wf_same_nodes(d0, self@);
        }
    }

    /// Drops the entry naming `n` by its own `id`.
    fn ids_drop_own(&mut self, n: NodeId)
        requires
            old(self).wf(),
            old(self)@.valid(n),
        ensures
            final(self).wf(),
            final(self)@ == (DocV { ids: old(self)@.ids_without_own(n), ..old(self)@ }),
    {
        let ghost d0 = self@;
        match self.own_id_entry(n) {
            Some(k) => {
                proof {
                    lemma_ids_map_get(self.ids@, k as int);
                    lemma_ids_map_remove(self.ids@, k as int);
                }
                self.ids.remove(k);
                proof {
                    assert forall|key: Seq<char>| #[trigger] self@.ids.contains_key(key) implies self@.valid(
                        self@.ids[key],
                    ) by {
                        assert(d0.ids.contains_key(key));
                    }
                }
            },
            None => {},
        }
        proof {
            lemma_wf_same_nodes(d0, self@);
        }
    }

    /// Sets (in place) or appends the attribute; `id` also updates the id index.
    pub fn set_attr(&mut self, n: NodeId, name: &str, value: &str)
        requires
            old(self).wf(),
            old(self)@.valid(n),
        ensures
            final(self).wf(),
            final(self)@ == old(self)@.attr_set(n, name@, value@),
    {
        let ghost d0 = self@;
        proof {
            reveal_strlit("id");
        }
        if str_eq(name, "id") {
            self.ids_drop_own(n);
            self.ids_insert(value.to_owned(), n);
        }
        let ghost d1 = self@;
        proof {
            self.lemma_view_node(n);
        }
        match &mut self.nodes[n as usize].kind {
            Kind::Element { attrs, .. } => {
                Self::attrs_put(attrs, name, value);
            },
            _ => {},
        }
        proof {
            match d0.kind(n) {
                KindV::Element { name: q, attrs, self_closing, close_ws } => {
                    assert(self@.nodes =~= d1.set_kind(n, KindV::Element { name: q, attrs: attrs_set(attrs, name@, value@), self_closing, close_ws }).nodes);
                },
                _ => {
                    assert(self@.nodes =~= d1.nodes);
                },
            }
            lemma_wf_same_nodes(d1, self@);
        }
        if Self::affects_style(name) {
            self.bump_style();
        }
        self.bump();
    }

    /// Whether writing `name` can change some node's cascade.
    pub fn affects_style(name: &str) -> (r: bool)
        ensures
            r == affects_style(name@),
    {
        proof {
            reveal_strlit("style");
            reveal_strlit("class");
            reveal_strlit("id");
        }
        str_eq(name, "style") || str_eq(name, "class") || str_eq(name, "id")
            || crate::style::presentation_attr(name)
    }

    /// Removes the attribute and returns its value; `id` also updates the id index.
    pub fn remove_attr(&mut self, n: NodeId, name: &str) -> (r: Option<String>)
        requires
            old(self).wf(),
            old(self)@.valid(n),
        ensures
            final(self).wf(),
            final(self)@ == old(self)@.attr_removed(n, name@),
            r matches Some(v) ==> old(self)@.attr(n, name@) == Some(v@),
            r is None ==> old(self)@.attr(n, name@) is None,
    {
        let ghost d0 = self@;
        proof {
            reveal_strlit("id");
            lemma_attr_pos(d0.attrs(n), name@);
        }
        if str_eq(name, "id") {
            self.ids_drop_own(n);
        }
        let ghost d1 = self@;
        proof {
            self.lemma_view_node(n);
        }
        let removed = match &mut self.nodes[n as usize].kind {
            Kind::Element { attrs, .. } => Self::attrs_take(attrs, name),
            _ => None,
        };
        match removed {
            None => {
                proof {
                    assert(self@.nodes =~= d1.nodes);
                }
                None
            },
            Some(v) => {
                proof {
                    match d0.kind(n) {
                        KindV::Element { name: q, attrs, self_closing, close_ws } => {
                            assert(self@.nodes =~= d1.set_kind(n, KindV::Element { name: q, attrs: attrs.remove(attr_pos(attrs, name@)), self_closing, close_ws }).nodes);
                        },
                        _ => {},
                    }
                    lemma_wf_same_nodes(d1, self@);
                }
                if Self::affects_style(name) {
                    self.bump_style();
                }
                self.bump();
                Some(v)
            },
        }
    }

    /// Replaces the content of a Text/CData node (other nodes are left alone).
    pub fn set_text(&mut self, n: NodeId, s: &str)
        requires
            old(self).wf(),
            old(self)@.valid(n),
        ensures
            final(self).wf(),
            final(self)@ == old(self)@.text_set(n, s@),
    {
        let ghost d0 = self@;
        proof {
            self.lemma_view_node(n);
        }
        let changed = match &mut self.nodes[n as usize].kind {
            Kind::Text(t) => {
                *t = s.to_owned();
                true
            },
            Kind::CData(t) => {
                *t = s.to_owned();
                true
            },
            _ => false,
        };
        if !changed {
            proof {
                assert(self@.nodes =~= d0.nodes);
            }
            return ;
        }
        proof {
            let k = match d0.kind(n) {
                KindV::Text(_) => KindV::Text(s@),
                _ => KindV::CData(s@),
            };
            assert(self@.nodes =~= d0.set_kind(n, k).nodes);
            lemma_wf_same_nodes(d0, self@);
            lemma_node_ok(d0, n);
            reveal_strlit("style");
        }
        let in_style = match self.nodes[n as usize].parent {
            Some(p) => str_eq(self.tag(p), "style"),
            None => false,
        };
        if in_style {
            self.bump_sheet();
        }
        self.bump();
    }

    /// Renames an element, keeping its namespace prefix (`svg:line` becomes `svg:path`).
    pub fn set_tag(&mut self, n: NodeId, local: &str)
        requires
            old(self).wf(),
            old(self)@.valid(n),
        ensures
            final(self).wf(),
            final(self)@ == old(self)@.tag_set(n, local@),
    {
        let ghost d0 = self@;
        proof {
            reveal_strlit("style");
            self.lemma_view_node(n);
        }
        let was_style = str_eq(self.tag(n), "style");
        let new_name = {
            let q = self.qname(n);
            let cs = chars_of(q);
            let len = cs.len();
            let mut out = match last_index_of(cs.as_slice(), ':') {
                Some(i) => {
                    proof {
                        assert(i < len);
                        lemma_prefix_at(q@, i as int);
                    }
                    string_from(slice_prefix(cs.as_slice(), i + 1))
                },
                None => {
                    proof {
                        lemma_prefix_at(q@, -1);
                    }
                    String::new()
                },
            };
            out.append(local);
            out
        };
        let changed = match &mut self.nodes[n as usize].kind {
            Kind::Element { name, .. } => {
                *name = new_name;
                true
            },
            _ => false,
        };
        if !changed {
            proof {
                assert(self@.nodes =~= d0.nodes);
            }
            return ;
        }
        proof {
            match d0.kind(n) {
                KindV::Element { name, attrs, self_closing, close_ws } => {
                    assert(self@.nodes =~= d0.set_kind(n, KindV::Element { name: name_prefix(name) + local@, attrs, self_closing, close_ws }).nodes);
                },
                _ => {},
            }
            lemma_wf_same_nodes(d0, self@);
        }
        if was_style || str_eq(local, "style") {
            self.bump_sheet();
        }
        self.bump_style();
        self.bump();
    }

    /// Adds a detached node.
    fn push_node(&mut self, kind: Kind) -> (r: NodeId)
        requires
            old(self).wf(),
            old(self)@.nodes.len() + 1 < u32::MAX,
        ensures
            final(self).wf(),
            final(self)@ == old(self)@.allocated(kind@),
            r as int == old(self)@.nodes.len(),
    {
        let ghost d0 = self@;
        let id = self.nodes.len() as NodeId;
        self.nodes.push(Node { parent: None, children: Vec::new(), kind });
        self.depth = Ghost(self.depth@.push(0));
        proof {
            let d1 = self@;
            assert(d1.nodes =~= d0.allocated(kind@).nodes);
            assert forall|y: int| 0 <= y < d1.nodes.len() implies #[trigger] d1.node_ok(y) by {
                if y < d0.nodes.len() {
                    assert(d0.node_ok(y));
                    assert forall|i: int| 0 <= i < d1.nodes[y].children.len() implies #[trigger] d1.child_ok(
                        y as NodeId,
                        d1.nodes[y].children[i],
                    ) by {
                        assert(d0.child_ok(y as NodeId, d0.nodes[y].children[i]));
                    }
                }
            }
            assert forall|k: Seq<char>| #[trigger] d1.ids.contains_key(k) implies d1.valid(d1.ids[k]) by {
                assert(d0.ids.contains_key(k));
            }
        }
        id
    }

    /// New detached element, written as `<name/>` until children are added.
    pub fn new_element(&mut self, name: &str) -> (r: NodeId)
        requires
            old(self).wf(),
            old(self)@.nodes.len() + 1 < u32::MAX,
        ensures
            final(self).wf(),
            final(self)@ == old(self)@.allocated(
                KindV::Element { name: name@, attrs: seq![], self_closing: true, close_ws: seq![] },
            ),
            r as int == old(self)@.nodes.len(),
    {
        let k = Kind::Element { name: name.to_owned(), attrs: Vec::new(), self_closing: true, close_ws: String::new() };
        proof {
            assert(attrs_view(Seq::<Attr>::empty()) =~= seq![]);
        }
        self.push_node(k)
    }

    /// New detached Text node.
    pub fn new_text(&mut self, s: &str) -> (r: NodeId)
        requires
            old(self).wf(),
            old(self)@.nodes.len() + 1 < u32::MAX,
        ensures
            final(self).wf(),
            final(self)@ == old(self)@.allocated(KindV::Text(s@)),
            r as int == old(self)@.nodes.len(),
    {
        self.push_node(Kind::Text(s.to_owned()))
    }

    /// New detached Comment node.
    pub fn new_comment(&mut self, s: &str) -> (r: NodeId)
        requires
            old(self).wf(),
            old(self)@.nodes.len() + 1 < u32::MAX,
        ensures
            final(self).wf(),
            final(self)@ == old(self)@.allocated(KindV::Comment(s@)),
            r as int == old(self)@.nodes.len(),
    {
        self.push_node(Kind::Comment(s.to_owned()))
    }

    /// Content of a Text/CData node.
    pub fn text(&self, n: NodeId) -> (r: Option<&str>)
        requires
            self@.valid(n),
        ensures
            r matches Some(t) ==> self@.text(n) == Some(t@),
            r is None ==> self@.text(n) is None,
    {
        match &self.nodes[n as usize].kind {
            Kind::Text(t) | Kind::CData(t) => Some(t.as_str()),
            _ => None,
        }
    }

    /// Content of a Comment node.
    pub fn comment(&self, n: NodeId) -> (r: Option<&str>)
        requires
            self@.valid(n),
        ensures
            r matches Some(t) ==> self@.kind(n) == KindV::Comment(t@),
            r is None ==> !(self@.kind(n) is Comment),
    {
        match &self.nodes[n as usize].kind {
            Kind::Comment(t) => Some(t.as_str()),
            _ => None,
        }
    }

    /// Concatenated text of all Text/CData nodes in the subtree of `n`.
    pub fn text_content(&self, n: NodeId) -> (r: String)
        requires
            self.wf(),
            self@.valid(n),
        ensures
            r@ == text_concat(self@, self@.subtree(n)),
    {
        let ds = self.descendants(n);
        let mut s = String::new();
        let mut i: usize = 0;
        proof {
            lemma_subtree_valid(self@, n);
        }
        while i < ds.len()
            invariant
                self.wf(),
                i <= ds@.len(),
                ds@ == self@.subtree(n),
                forall|j: int| 0 <= j < ds@.len() ==> self@.valid(#[trigger] ds@[j]),
                s@ == text_concat(self@, ds@.subrange(0, i as int)),
            decreases ds@.len() - i,
        {
            assert(ds@.subrange(0, i + 1).drop_last() =~= ds@.subrange(0, i as int));
            match self.text(ds[i]) {
                Some(t) => {
                    s.append(t);
                },
                None => {
                    assert(s@ =~= s@ + seq![]);
                },
            }
            i = i + 1;
        }
        assert(ds@.subrange(0, ds@.len() as int) =~= ds@);
        s
    }

    /// Number of elements below the root `<svg>` (excluding it).
    pub fn element_count(&self) -> (r: usize)
        requires
            self.wf(),
        ensures
            r == count_elements(self@, self@.subtree(self@.svg).drop_first()),
    {
        let ds = self.descendants(self.svg);
        proof {
            lemma_subtree_valid(self@, self.svg);
            lemma_subtree_unfold(self@, self.svg);
        }
        let mut c: usize = 0;
        let mut i: usize = 1;
        assert(ds@.subrange(1, 1) =~= seq![]);
        while i < ds.len()
            invariant
                self.wf(),
                1 <= i <= ds@.len(),
                ds@ == self@.subtree(self@.svg),
                forall|j: int| 0 <= j < ds@.len() ==> self@.valid(#[trigger] ds@[j]),
                c == count_elements(self@, ds@.subrange(1, i as int)),
                c <= i,
            decreases ds@.len() - i,
        {
            assert(ds@.subrange(1, i + 1).drop_last() =~= ds@.subrange(1, i as int));
            if self.is_element(ds[i]) {
                c = c + 1;
            }
            i = i + 1;
        }
        assert(ds@.subrange(1, ds@.len() as int) =~= ds@.drop_first());
        c
    }
}


// ---------------------------------------------------------------------------------------------
// Building a document from reader events

/// Namespaces whose prefix is relied on being the conventional one.
pub const KNOWN_NS: [(&'static str, &'static str); 7] = [
    ("http://www.w3.org/2000/svg", "svg"),
    ("http://www.inkscape.org/namespaces/inkscape", "inkscape"),
    ("http://sodipodi.sourceforge.net/DTD/sodipodi-0.dtd", "sodipodi"),
    ("http://www.w3.org/1999/xlink", "xlink"),
    ("http://www.w3.org/1999/02/22-rdf-syntax-ns#", "rdf"),
    ("http://creativecommons.org/ns#", "cc"),
    ("http://purl.org/dc/elements/1.1/", "dc"),
];

/// The conventional prefix of a known namespace URI, looking from entry `i` on.
pub open spec fn known_prefix_from(uri: Seq<char>, i: int) -> Option<Seq<char>>
    decreases 7 - i,
{
    if i < 0 || i >= 7 {
        None
    } else if KNOWN_NS[i].0@ == uri {
        Some(KNOWN_NS[i].1@)
    } else {
        known_prefix_from(uri, i + 1)
    }
}

pub open spec fn known_prefix(uri: Seq<char>) -> Option<Seq<char>> {
    known_prefix_from(uri, 0)
}

/// The URI conventionally bound to `prefix`, looking from entry `i` on.
pub open spec fn known_uri_from(prefix: Seq<char>, i: int) -> Option<Seq<char>>
    decreases 7 - i,
{
    if i < 0 || i >= 7 {
        None
    } else if KNOWN_NS[i].1@ == prefix {
        Some(KNOWN_NS[i].0@)
    } else {
        known_uri_from(prefix, i + 1)
    }
}

pub open spec fn known_uri(prefix: Seq<char>) -> Option<Seq<char>> {
    known_uri_from(prefix, 0)
}

/// An `xmlns:p` declaration does not bind a known namespace to another prefix than its own.
pub open spec fn decl_ok(a: AttrV) -> bool {
    (a.name.len() >= 6 && a.name.subrange(0, 6) == "xmlns:"@) ==> match known_prefix(a.value) {
        Some(p) => a.name.subrange(6, a.name.len() as int) == p,
        None => true,
    }
}

/// No element of the document binds a known namespace to an unconventional prefix.
pub open spec fn namespaces_ok(d: DocV) -> bool {
    forall|k: int, j: int|
        0 <= k < d.subtree(0).len() && 0 <= j < d.attrs(d.subtree(0)[k]).len() ==> decl_ok(
            #[trigger] d.attrs(d.subtree(0)[k])[j],
        )
}

/// Parser state: the document so far, the open elements (innermost last), the text not yet
/// turned into a node, and whether `Eof` was seen.
pub struct BuildV {
    pub doc: DocV,
    pub stack: Seq<NodeId>,
    pub buf: Seq<char>,
    pub pending: bool,
    pub done: bool,
}

impl DocV {
    /// A fresh leaf of kind `k` linked as the last child of `p` (no index or counter change).
    pub open spec fn leaf_added(self, p: NodeId, k: KindV) -> DocV {
        let d1 = self.allocated(k);
        d1.attach_struct(p, d1.children(p).len() as int, self.nodes.len() as NodeId)
    }

    /// A fresh element as the last child of `p`; its `id`, if not yet taken, names it.
    pub open spec fn element_added(self, p: NodeId, k: KindV) -> DocV {
        let id = self.nodes.len() as NodeId;
        let d1 = self.leaf_added(p, k);
        match k {
            KindV::Element { attrs, .. } => match attr_in(attrs, "id"@) {
                Some(v) => if self.ids.contains_key(v) {
                    d1
                } else {
                    DocV { ids: self.ids.insert(v, id), ..d1 }
                },
                None => d1,
            },
            _ => d1,
        }
    }
}

/// The pending text, if any, as a Text node under the innermost open element.
pub open spec fn flushed(b: BuildV) -> BuildV {
    if b.pending {
        BuildV { doc: b.doc.leaf_added(b.stack.last(), KindV::Text(b.buf)), buf: seq![], pending: false, ..b }
    } else {
        b
    }
}

/// The character a general reference stands for.
pub open spec fn ref_char(name: Seq<char>) -> Result<char, DomErrorKind> {
    if name == "lt"@ {
        Ok('<')
    } else if name == "gt"@ {
        Ok('>')
    } else if name == "amp"@ {
        Ok('&')
    } else if name == "quot"@ {
        Ok('"')
    } else if name == "apos"@ {
        Ok('\'')
    } else {
        match char_ref_of(name) {
            None => Err(DomErrorKind::Xml),
            Some(None) => Err(DomErrorKind::Unsupported),
            Some(Some(c)) => Ok(c),
        }
    }
}

/// One reader event applied to the parser state.
pub open spec fn fed(b: BuildV, ev: XmlEventV) -> Result<BuildV, DomErrorKind> {
    if b.done {
        Ok(b)
    } else {
        let b1 = match ev {
            XmlEventV::Text(_) => b,
            XmlEventV::Ref(_) => b,
            _ => flushed(b),
        };
        let p = b1.stack.last();
        let leaf = |k: KindV| Ok::<BuildV, DomErrorKind>(BuildV { doc: b1.doc.leaf_added(p, k), ..b1 });
        match ev {
            XmlEventV::Text(t) => Ok(BuildV { buf: b1.buf + t, pending: true, ..b1 }),
            XmlEventV::Ref(name) => match ref_char(name) {
                Ok(c) => Ok(BuildV { buf: b1.buf.push(c), pending: true, ..b1 }),
                Err(k) => Err(k),
            },
            XmlEventV::Start { name, attrs } => match attrs_spec(attrs) {
                Ok((a, cw)) => Ok(
                    BuildV {
                        doc: b1.doc.element_added(
                            p,
                            KindV::Element { name: name, attrs: a, self_closing: false, close_ws: cw },
                        ),
                        stack: b1.stack.push(b1.doc.nodes.len() as NodeId),
                        ..b1
                    },
                ),
                Err(k) => Err(k),
            },
            XmlEventV::Empty { name, attrs } => match attrs_spec(attrs) {
                Ok((a, cw)) => Ok(
                    BuildV {
                        doc: b1.doc.element_added(
                            p,
                            KindV::Element { name: name, attrs: a, self_closing: true, close_ws: cw },
                        ),
                        ..b1
                    },
                ),
                Err(k) => Err(k),
            },
            XmlEventV::End => Ok(
                if b1.stack.len() > 1 {
                    BuildV { stack: b1.stack.drop_last(), ..b1 }
                } else {
                    b1
                },
            ),
            XmlEventV::CData(t) => leaf(KindV::CData(t)),
            XmlEventV::Comment(t) => leaf(KindV::Comment(t)),
            XmlEventV::PI(t) => leaf(KindV::PI(t)),
            XmlEventV::Decl(t) => leaf(KindV::Decl(t)),
            XmlEventV::DocType(t) => leaf(KindV::DocType(t)),
            XmlEventV::Eof => Ok(BuildV { done: true, ..b1 }),
        }
    }
}

/// The events applied in order; the first error stops.
pub open spec fn fed_all(b: BuildV, evs: Seq<XmlEventV>) -> Result<BuildV, DomErrorKind>
    decreases evs.len(),
{
    if evs.len() == 0 {
        Ok(b)
    } else {
        match fed_all(b, evs.drop_last()) {
            Ok(b1) => fed(b1, evs.last()),
            Err(k) => Err(k),
        }
    }
}

/// The state before the first event: a lone document node.
pub open spec fn build_start(source_len: usize) -> BuildV {
    BuildV {
        doc: DocV {
            nodes: seq![NodeV { parent: None, children: seq![], kind: KindV::Document }],
            depth: seq![0],
            svg: 0,
            ids: Map::empty(),
            next_auto_id: 1,
            source_len: source_len,
            generation: 0,
            sheet_generation: 0,
            style_generation: 0,
        },
        stack: seq![0],
        buf: seq![],
        pending: false,
        done: false,
    }
}

/// First element among `cs`.
pub open spec fn first_element(d: DocV, cs: Seq<NodeId>) -> Option<NodeId>
    decreases cs.len(),
{
    if cs.len() == 0 {
        None
    } else if d.is_element(cs[0]) {
        Some(cs[0])
    } else {
        first_element(d, cs.drop_first())
    }
}

/// The document once the events are over: its root must be an `svg` element and no known
/// namespace may be bound to an unconventional prefix.
pub open spec fn finished(b: BuildV) -> Result<DocV, DomErrorKind> {
    let d = flushed(b).doc;
    match first_element(d, d.children(0)) {
        None => Err(DomErrorKind::Unsupported),
        Some(svg) => if d.tag(svg) != "svg"@ {
            Err(DomErrorKind::Unsupported)
        } else if namespaces_ok(d) {
            Ok(DocV { svg: svg, ..d })
        } else {
            Err(DomErrorKind::Unsupported)
        },
    }
}

/// The document the events describe.
pub open spec fn built(evs: Seq<XmlEventV>, source_len: usize) -> Result<DocV, DomErrorKind> {
    match fed_all(build_start(source_len), evs) {
        Ok(b) => finished(b),
        Err(k) => Err(k),
    }
}


/// A fresh node is no ancestor of an older one.
pub proof fn lemma_fresh_not_anc(d0: DocV, k: KindV, x: NodeId, f: nat)
    requires
        d0.wf(),
        d0.valid(x),
    ensures
        !d0.allocated(k).anc_f(d0.nodes.len() as NodeId, x, f),
    decreases f,
{
    let d = d0.allocated(k);
    if f > 0 {
        lemma_node_ok(d0, x);
        assert(d.nodes[x as int] == d0.nodes[x as int]);
        match d0.parent(x) {
            Some(p) => {
                lemma_fresh_not_anc(d0, k, p, (f - 1) as nat);
            },
            None => {},
        }
    }
}

impl Doc {
    /// Links the fresh, childless `n` as the last child of `p`, as the parser does (no index or
    /// counter change).
    fn link_leaf(&mut self, p: NodeId, n: NodeId)
        requires
            old(self).wf(),
            old(self)@.valid(p),
            old(self)@.valid(n),
            n != 0,
            old(self)@.parent(n) is None,
            !old(self)@.anc_or_self(n, p),
        ensures
            final(self).wf(),
            final(self)@ == old(self)@.attach_struct(p, old(self)@.children(p).len() as int, n),
    {
        let ghost d0 = self@;
        proof {
            self.lemma_view_node(p);
            self.lemma_view_node(n);
        }
        let len = self.nodes[p as usize].children.len();
        proof {
            lemma_attach_struct_wf(d0, p, len as int, n);
        }
        self.nodes[p as usize].children.insert(len, n);
        self.nodes[n as usize].parent = Some(p);
        self.depth = Ghost(d0.attach_struct(p, len as int, n).depth);
        assert(self@.nodes =~= d0.attach_struct(p, len as int, n).nodes);
        assert(self@ == d0.attach_struct(p, len as int, n));
    }

    /// The first element among `cs`.
    fn first_element_of(&self, cs: &Vec<NodeId>) -> (r: Option<NodeId>)
        requires
            forall|i: int| 0 <= i < cs@.len() ==> self@.valid(#[trigger] cs@[i]),
        ensures
            r == first_element(self@, cs@),
            r matches Some(x) ==> self@.valid(x),
    {
        let mut i: usize = 0;
        assert(cs@.subrange(0, cs@.len() as int) =~= cs@);
        while i < cs.len()
            invariant
                i <= cs@.len(),
                forall|j: int| 0 <= j < cs@.len() ==> self@.valid(#[trigger] cs@[j]),
                first_element(self@, cs@) == first_element(self@, cs@.subrange(i as int, cs@.len() as int)),
            decreases cs@.len() - i,
        {
            let ghost rest = cs@.subrange(i as int, cs@.len() as int);
            assert(rest.drop_first() =~= cs@.subrange(i + 1, cs@.len() as int));
            if self.is_element(cs[i]) {
                return Some(cs[i]);
            }
            i = i + 1;
        }
        None
    }

    /// The conventional prefix of a known namespace URI.
    fn known_prefix(uri: &str) -> (r: Option<&'static str>)
        ensures
            r matches Some(p) ==> known_prefix(uri@) == Some(p@),
            r is None ==> known_prefix(uri@) is None,
    {
        let mut i: usize = 0;
        while i < 7
            invariant
                i <= 7,
                known_prefix(uri@) == known_prefix_from(uri@, i as int),
            decreases 7 - i,
        {
            if str_eq(KNOWN_NS[i].0, uri) {
                return Some(KNOWN_NS[i].1);
            }
            i = i + 1;
        }
        None
    }

    /// The conventional URI of a known prefix.
    fn known_uri(prefix: &str) -> (r: Option<&'static str>)
        ensures
            r matches Some(u) ==> known_uri(prefix@) == Some(u@),
            r is None ==> known_uri(prefix@) is None,
    {
        let mut i: usize = 0;
        while i < 7
            invariant
                i <= 7,
                known_uri(prefix@) == known_uri_from(prefix@, i as int),
            decreases 7 - i,
        {
            if str_eq(KNOWN_NS[i].1, prefix) {
                return Some(KNOWN_NS[i].0);
            }
            i = i + 1;
        }
        None
    }

    /// A message when `a` binds a known namespace to an unconventional prefix.
    fn decl_conflict(a: &Attr) -> (r: Option<String>)
        ensures
            r is None <==> decl_ok(a@),
    {
        let cs = chars_of(a.name.as_str());
        if cs.len() < 6 {
            return None;
        }
        let head = string_from(slice_prefix(cs.as_slice(), 6));
        proof {
            reveal_strlit("xmlns:");
        }
        if !str_eq(head.as_str(), "xmlns:") {
            return None;
        }
        let prefix = string_from(slice_range(cs.as_slice(), 6, cs.len()));
        match Self::known_prefix(a.value.as_str()) {
            Some(p) => {
                if str_eq(prefix.as_str(), p) {
                    None
                } else {
                    let mut m = "namespace ".to_owned();
                    m.append(a.value.as_str());
                    m.append(" is bound to prefix '");
                    m.append(prefix.as_str());
                    m.append("' (expected '");
                    m.append(p);
                    m.append("')");
                    Some(m)
                }
            },
            None => None,
        }
    }

    /// Checks every attached element for a known namespace bound to an unconventional prefix.
    fn check_namespaces(&self) -> (r: Result<(), DomError>)
        requires
            self.wf(),
        ensures
            r is Ok <==> namespaces_ok(self@),
            r matches Err(e) ==> e.kind() == DomErrorKind::Unsupported,
    {
        let ds = self.descendants(0);
        proof {
            lemma_subtree_valid(self@, 0);
        }
        let mut k: usize = 0;
        while k < ds.len()
            invariant
                self.wf(),
                ds@ == self@.subtree(0),
                k <= ds@.len(),
                forall|i: int| 0 <= i < ds@.len() ==> self@.valid(#[trigger] ds@[i]),
                forall|k2: int, j: int|
                    0 <= k2 < k && 0 <= j < self@.attrs(ds@[k2]).len() ==> decl_ok(
                        #[trigger] self@.attrs(ds@[k2])[j],
                    ),
            decreases ds@.len() - k,
        {
            let attrs = self.attrs(ds[k]);
            let mut j: usize = 0;
            while j < attrs.len()
                invariant
                    self.wf(),
                    ds@ == self@.subtree(0),
                    k < ds@.len(),
                    j <= attrs@.len(),
                    attrs_view(attrs@) == self@.attrs(ds@[k as int]),
                    forall|j2: int| 0 <= j2 < j ==> decl_ok(#[trigger] self@.attrs(ds@[k as int])[j2]),
                decreases attrs@.len() - j,
            {
                proof {
                    assert(attrs_view(attrs@)[j as int] == attrs@[j as int]@);
                }
                match Self::decl_conflict(&attrs[j]) {
                    Some(m) => {
                        proof {
                            assert(!decl_ok(self@.attrs(self@.subtree(0)[k as int])[j as int]));
                        }
                        return Err(DomError::Unsupported(m));
                    },
                    None => {},
                }
                j = j + 1;
            }
            proof {
                assert forall|k2: int, j2: int|
                    0 <= k2 < k + 1 && 0 <= j2 < self@.attrs(ds@[k2]).len() implies decl_ok(
                        #[trigger] self@.attrs(ds@[k2])[j2],
                    ) by {
                    if k2 == k {
                        assert(decl_ok(self@.attrs(ds@[k as int])[j2]));
                    }
                }
            }
            k = k + 1;
        }
        Ok(())
    }
}

/// Parser state (see `BuildV`).
struct Builder {
    doc: Doc,
    stack: Vec<NodeId>,
    buf: String,
    pending: bool,
    done: bool,
}

impl Builder {
    closed spec fn bv(&self) -> BuildV {
        BuildV { doc: self.doc@, stack: self.stack@, buf: self.buf@, pending: self.pending, done: self.done }
    }

    closed spec fn inv(&self) -> bool {
        &&& self.doc.wf()
        &&& self.stack@.len() >= 1
        &&& forall|i: int| 0 <= i < self.stack@.len() ==> self.doc@.valid(#[trigger] self.stack@[i])
    }

    fn new(source_len: usize) -> (r: Builder)
        ensures
            r.inv(),
            r.bv() == build_start(source_len),
    {
        let mut nodes: Vec<Node> = Vec::new();
        nodes.push(Node { parent: None, children: Vec::new(), kind: Kind::Document });
        let ghost d0: Seq<nat> = seq![0nat];
        let doc = Doc {
            nodes,
            svg: 0,
            ids: Vec::new(),
            next_auto_id: 1,
            source_len,
            generation: 0,
            sheet_generation: 0,
            style_generation: 0,
            depth: Ghost(d0),
        };
        let mut stack: Vec<NodeId> = Vec::new();
        stack.push(0);
        let b = Builder { doc, stack, buf: String::new(), pending: false, done: false };
        proof {
            let d = b.doc@;
            assert(d.nodes =~= build_start(source_len).doc.nodes);
            assert(d.ids =~= Map::<Seq<char>, NodeId>::empty());
            assert(d.node_ok(0));
        }
        b
    }

    /// Adds a fresh leaf under the innermost open element.
    fn add_leaf(&mut self, kind: Kind) -> (r: NodeId)
        requires
            old(self).inv(),
            old(self).doc@.nodes.len() + 1 < u32::MAX,
        ensures
            final(self).inv(),
            r as int == old(self).doc@.nodes.len(),
            final(self).bv() == (BuildV {
                doc: old(self).doc@.leaf_added(old(self).stack@.last(), kind@),
                ..old(self).bv()
            }),
    {
        let p = self.stack[self.stack.len() - 1];
        let ghost d0 = self.doc@;
        let ghost k = kind@;
        let n = self.doc.push_node(kind);
        proof {
            lemma_fresh_not_anc(d0, k, p, d0.dep(p));
            assert(self.doc@.dep(p) == d0.dep(p));
            lemma_node_ok(d0, p);
        }
        self.doc.link_leaf(p, n);
        n
    }

    /// Turns the pending text into a Text node.
    fn flush(&mut self)
        requires
            old(self).inv(),
            old(self).doc@.nodes.len() + 1 < u32::MAX,
        ensures
            final(self).inv(),
            final(self).bv() == flushed(old(self).bv()),
            final(self).doc@.nodes.len() <= old(self).doc@.nodes.len() + 1,
    {
        if self.pending {
            let t = self.buf.clone();
            self.buf = String::new();
            self.add_leaf(Kind::Text(t));
            self.pending = false;
        }
    }

    /// The character a general reference stands for.
    fn entity_char(name: &str) -> (r: Result<char, DomError>)
        ensures
            match (r, ref_char(name@)) {
                (Ok(c), Ok(c2)) => c == c2,
                (Err(e), Err(k)) => e.kind() == k,
                _ => false,
            },
    {
        proof {
            reveal_strlit("lt");
            reveal_strlit("gt");
            reveal_strlit("amp");
            reveal_strlit("quot");
            reveal_strlit("apos");
        }
        if str_eq(name, "lt") {
            Ok('<')
        } else if str_eq(name, "gt") {
            Ok('>')
        } else if str_eq(name, "amp") {
            Ok('&')
        } else if str_eq(name, "quot") {
            Ok('"')
        } else if str_eq(name, "apos") {
            Ok('\'')
        } else {
            match char_ref(name) {
                Ok(Some(c)) => Ok(c),
                Ok(None) => {
                    let mut m = "undefined entity &".to_owned();
                    m.append(name);
                    m.append(";");
                    Err(DomError::Unsupported(m))
                },
                Err(e) => Err(DomError::Xml(xml_error_text(&e))),
            }
        }
    }

    /// Adds an element under the innermost open element.
    fn add_element(&mut self, name: &String, raw: &String, self_closing: bool) -> (r: Result<NodeId, DomError>)
        requires
            old(self).inv(),
            old(self).doc@.nodes.len() + 1 < u32::MAX,
        ensures
            final(self).inv(),
            final(self).doc@.nodes.len() <= old(self).doc@.nodes.len() + 1,
            match (r, attrs_spec(raw@)) {
                (Ok(id), Ok((a, cw))) => id as int == old(self).doc@.nodes.len() && final(self).bv() == (BuildV {
                    doc: old(self).doc@.element_added(
                        old(self).stack@.last(),
                        KindV::Element { name: name@, attrs: a, self_closing: self_closing, close_ws: cw },
                    ),
                    ..old(self).bv()
                }),
                (Err(e), Err(k)) => e.kind() == k,
                _ => false,
            },
    {
        let (attrs, close_ws) = match parse_attributes(raw.as_str()) {
            Ok(x) => x,
            Err(e) => return Err(e),
        };
        proof {
            reveal_strlit("id");
            lemma_attr_pos(attrs_view(attrs@), "id"@);
        }
        let id_value: Option<String> = match Doc::find_attr(&attrs, "id") {
            Some(i) => {
                proof {
                    assert(attrs_view(attrs@)[i as int] == attrs@[i as int]@);
                }
                Some(attrs[i].value.clone())
            },
            None => None,
        };
        let ghost av = attrs_view(attrs@);
        let ghost d0 = self.doc@;
        let ghost b0 = self.bv();
        let id = self.add_leaf(Kind::Element { name: name.clone(), attrs, self_closing, close_ws });
        match id_value {
            Some(v) => {
                if self.doc.by_id(v.as_str()).is_none() {
                    proof {
                        lemma_node_ok(self.doc@, id);
                    }
                    self.doc.ids_insert(v, id);
                }
            },
            None => {},
        }
        proof {
            assert(self.stack@ == b0.stack);
        }
        Ok(id)
    }

    /// Applies one reader event.
    fn feed(&mut self, ev: &XmlEvent) -> (r: Result<(), DomError>)
        requires
            old(self).inv(),
            old(self).doc@.nodes.len() + 2 < u32::MAX,
        ensures
            final(self).inv(),
            final(self).doc@.nodes.len() <= old(self).doc@.nodes.len() + 2,
            match (r, fed(old(self).bv(), ev@)) {
                (Ok(_), Ok(b)) => final(self).bv() == b,
                (Err(e), Err(k)) => e.kind() == k,
                _ => false,
            },
    {
        if self.done {
            return Ok(());
        }
        let is_text = match ev {
            XmlEvent::Text(_) => true,
            XmlEvent::Ref(_) => true,
            _ => false,
        };
        if !is_text {
            self.flush();
        }
        match ev {
            XmlEvent::Text(t) => {
                self.buf.append(t.as_str());
                self.pending = true;
                Ok(())
            },
            XmlEvent::Ref(name) => {
                let c = match Self::entity_char(name.as_str()) {
                    Ok(c) => c,
                    Err(e) => return Err(e),
                };
                push_char(&mut self.buf, c);
                self.pending = true;
                Ok(())
            },
            XmlEvent::Start { name, attrs } => {
                let id = match self.add_element(name, attrs, false) {
                    Ok(id) => id,
                    Err(e) => return Err(e),
                };
                self.stack.push(id);
                Ok(())
            },
            XmlEvent::Empty { name, attrs } => {
                match self.add_element(name, attrs, true) {
                    Ok(_) => Ok(()),
                    Err(e) => Err(e),
                }
            },
            XmlEvent::End => {
                if self.stack.len() > 1 {
                    self.stack.pop();
                }
                Ok(())
            },
            XmlEvent::CData(t) => {
                self.add_leaf(Kind::CData(t.clone()));
                Ok(())
            },
            XmlEvent::Comment(t) => {
                self.add_leaf(Kind::Comment(t.clone()));
                Ok(())
            },
            XmlEvent::PI(t) => {
                self.add_leaf(Kind::PI(t.clone()));
                Ok(())
            },
            XmlEvent::Decl(t) => {
                self.add_leaf(Kind::Decl(t.clone()));
                Ok(())
            },
            XmlEvent::DocType(t) => {
                self.add_leaf(Kind::DocType(t.clone()));
                Ok(())
            },
            XmlEvent::Eof => {
                self.done = true;
                Ok(())
            },
        }
    }

    /// Ends the input: the root must be an `svg` element and the namespaces conventional.
    fn finish(self) -> (r: Result<Doc, DomError>)
        requires
            self.inv(),
            self.doc@.nodes.len() + 1 < u32::MAX,
        ensures
            match (r, finished(self.bv())) {
                (Ok(d), Ok(dv)) => d.wf() && d@ == dv,
                (Err(e), Err(k)) => e.kind() == k,
                _ => false,
            },
    {
        let mut b = self;
        b.flush();
        let cs = b.doc.children(0);
        proof {
            lemma_node_ok(b.doc@, 0);
            assert forall|i: int| 0 <= i < cs@.len() implies b.doc@.valid(#[trigger] cs@[i]) by {
                assert(b.doc@.child_ok(0, cs@[i]));
            }
        }
        let svg = match b.doc.first_element_of(&cs) {
            Some(s) => s,
            None => return Err(DomError::Unsupported("document has no root element".to_owned())),
        };
        proof {
            reveal_strlit("svg");
        }
        if !str_eq(b.doc.tag(svg), "svg") {
            let mut m = "root element is <".to_owned();
            m.append(b.doc.qname(svg));
            m.append(">, not <svg>");
            return Err(DomError::Unsupported(m));
        }
        match b.doc.check_namespaces() {
            Err(e) => Err(e),
            Ok(()) => {
                let ghost d0 = b.doc@;
                let mut doc = b.doc;
                doc.svg = svg;
                proof {
                    lemma_wf_same_nodes(d0, doc@);
                }
                Ok(doc)
            },
        }
    }
}

/// The bound on events that keeps every node id within `u32`.
pub const MAX_EVENTS: usize = 0x7fff_0000;

impl Doc {
    /// The document that a sequence of reader events describes (see `built`). Text and
    /// references between two other events become one Text node; an `Eof` event ends the input.
    pub fn from_events(events: &Vec<XmlEvent>, source_len: usize) -> (r: Result<Doc, DomError>)
        requires
            events@.len() < MAX_EVENTS,
        ensures
            match (r, built(events_view(events@), source_len)) {
                (Ok(d), Ok(dv)) => d.wf() && d@ == dv,
                (Err(e), Err(k)) => e.kind() == k,
                _ => false,
            },
    {
        let mut b = Builder::new(source_len);
        let ghost evs = events_view(events@);
        let mut i: usize = 0;
        while i < events.len()
            invariant
                i <= events@.len(),
                events@.len() < MAX_EVENTS,
                evs == events_view(events@),
                b.inv(),
                b.doc@.nodes.len() <= 1 + 2 * i,
                fed_all(build_start(source_len), evs.subrange(0, i as int)) == Ok::<BuildV, DomErrorKind>(b.bv()),
            decreases events@.len() - i,
        {
            let ghost b0 = b.bv();
            proof {
                assert(evs.subrange(0, i + 1).drop_last() =~= evs.subrange(0, i as int));
                assert(evs[i as int] == events@[i as int]@);
            }
            match b.feed(&events[i]) {
                Ok(()) => {},
                Err(e) => {
                    proof {
                        assert(fed_all(build_start(source_len), evs.subrange(0, i + 1)) == fed(b0, evs[i as int]));
                        lemma_fed_all_err(build_start(source_len), evs, i + 1);
                    }
                    return Err(e);
                },
            }
            i = i + 1;
        }
        proof {
            assert(evs.subrange(0, events@.len() as int) =~= evs);
        }
        b.finish()
    }

    /// The document that a reading of the XML reader describes: `events` in order, then, when
    /// `failure` holds the reader's error message, that error. Too many events are refused as
    /// unsupported; an event that cannot be placed fails before a later reader error, and the
    /// root checks of `finished` come last.
    pub fn from_reading(events: &Vec<XmlEvent>, failure: Option<String>, source_len: usize) -> (r: Result<Doc, DomError>)
        ensures
            match (r, read_result(events_view(events@), failure is Some, source_len)) {
                (Ok(d), Ok(dv)) => d.wf() && d@ == dv,
                (Err(e), Err(k)) => e.kind() == k,
                _ => false,
            },
    {
        if events.len() >= MAX_EVENTS {
            return Err(DomError::Unsupported("document too large".to_owned()));
        }
        let mut b = Builder::new(source_len);
        let ghost evs = events_view(events@);
        let mut i: usize = 0;
        while i < events.len()
            invariant
                i <= events@.len(),
                events@.len() < MAX_EVENTS,
                evs == events_view(events@),
                b.inv(),
                b.doc@.nodes.len() <= 1 + 2 * i,
                fed_all(build_start(source_len), evs.subrange(0, i as int)) == Ok::<BuildV, DomErrorKind>(b.bv()),
            decreases events@.len() - i,
        {
            let ghost b0 = b.bv();
            proof {
                assert(evs.subrange(0, i + 1).drop_last() =~= evs.subrange(0, i as int));
                assert(evs[i as int] == events@[i as int]@);
            }
            match b.feed(&events[i]) {
                Ok(()) => {},
                Err(e) => {
                    proof {
                        assert(fed_all(build_start(source_len), evs.subrange(0, i + 1)) == fed(b0, evs[i as int]));
                        lemma_fed_all_err(build_start(source_len), evs, i + 1);
                    }
                    return Err(e);
                },
            }
            i = i + 1;
        }
        proof {
            assert(evs.subrange(0, events@.len() as int) =~= evs);
        }
        match failure {
            Some(m) => return Err(DomError::Xml(m)),
            None => {},
        }
        b.finish()
    }

    /// Parses an SVG document: bytes (a UTF-8 byte order mark is skipped) read by the XML reader,
    /// every piece of text kept as written, `<a/>` kept self-closing and end tags checked against
    /// their start tags; bytes that are not UTF-8 are refused as unsupported.
    pub fn parse(bytes: &[u8]) -> (r: Result<Doc, DomError>)
        ensures
            match (r, parse_result(bytes@)) {
                (Ok(d), Ok(dv)) => d.wf() && d@ == dv,
                (Err(e), Err(k)) => e.kind() == k,
                _ => false,
            },
    {
        let body = if bytes.len() >= 3 && bytes[0] == 0xEF && bytes[1] == 0xBB && bytes[2] == 0xBF {
            slice_range(bytes, 3, bytes.len())
        } else {
            bytes
        };
        assert(body@ == without_bom(bytes@));
        let text = match utf8_str(body) {
            Some(t) => t,
            None => return Err(DomError::Unsupported("input is not valid UTF-8".to_owned())),
        };
        let (events, failure) = xml_events(text, false, false, true);
        let message = match failure {
            Some(e) => Some(xml_error_text(&e)),
            None => None,
        };
        Doc::from_reading(&events, message, body.len())
    }
}

/// What `Doc::from_reading` gives for events `evs`, a reader error after them when `failed`,
/// and a source of `source_len` bytes.
pub open spec fn read_result(evs: Seq<XmlEventV>, failed: bool, source_len: usize) -> Result<DocV, DomErrorKind> {
    if evs.len() >= MAX_EVENTS {
        Err(DomErrorKind::Unsupported)
    } else {
        match fed_all(build_start(source_len), evs) {
            Err(k) => Err(k),
            Ok(b) => if failed {
                Err(DomErrorKind::Xml)
            } else {
                finished(b)
            },
        }
    }
}

/// What `Doc::parse` gives for `bytes`: refused as unsupported unless UTF-8 (after a byte order
/// mark), else the document the reader's events describe.
pub open spec fn parse_result(bytes: Seq<u8>) -> Result<DocV, DomErrorKind> {
    let body = without_bom(bytes);
    if !vstd::utf8::valid_utf8(body) {
        Err(DomErrorKind::Unsupported)
    } else {
        let read = xml_events_of(vstd::utf8::decode_utf8(body), false, false, true);
        read_result(read.0, read.1, body.len() as usize)
    }
}

/// Bytes without a leading UTF-8 byte order mark.
pub open spec fn without_bom(b: Seq<u8>) -> Seq<u8> {
    if b.len() >= 3 && b[0] == 0xEF && b[1] == 0xBB && b[2] == 0xBF {
        b.subrange(3, b.len() as int)
    } else {
        b
    }
}

/// Once an event fails, every longer run of events fails the same way.
proof fn lemma_fed_all_err(b: BuildV, evs: Seq<XmlEventV>, i: int)
    requires
        0 <= i <= evs.len(),
        fed_all(b, evs.subrange(0, i)) is Err,
    ensures
        fed_all(b, evs) == fed_all(b, evs.subrange(0, i)),
    decreases evs.len() - i,
{
    if i < evs.len() {
        assert(evs.subrange(0, i + 1).drop_last() =~= evs.subrange(0, i));
        lemma_fed_all_err(b, evs, i + 1);
    } else {
        assert(evs.subrange(0, i) =~= evs);
    }
}


// ---------------------------------------------------------------------------------------------
// Writing

/// The attributes as written after a tag name: each with its whitespace, `name="value"`.
pub open spec fn attrs_written(attrs: Seq<AttrV>) -> Seq<char>
    decreases attrs.len(),
{
    if attrs.len() == 0 {
        seq![]
    } else {
        let a = attrs.last();
        attrs_written(attrs.drop_last()) + a.ws + a.name + "=\""@ + escaped_attr(a.value) + "\""@
    }
}

impl DocV {
    /// How `n` and its subtree are written (given enough fuel).
    pub open spec fn written_f(self, n: NodeId, fuel: nat) -> Seq<char>
        decreases fuel, 0nat,
    {
        if fuel == 0 {
            seq![]
        } else {
            match self.kind(n) {
                KindV::Document => seq![],
                KindV::Element { name, attrs, self_closing, close_ws } => {
                    let head = "<"@ + name + attrs_written(attrs) + close_ws;
                    if self.children(n).len() == 0 && self_closing {
                        head + "/>"@
                    } else {
                        head + ">"@ + self.written_list(self.children(n), (fuel - 1) as nat) + "</"@ + name + ">"@
                    }
                },
                KindV::Text(t) => escaped_text(t),
                KindV::CData(t) => "<![CDATA["@ + t + "]]>"@,
                KindV::Comment(t) => "<!--"@ + t + "-->"@,
                KindV::PI(t) => "<?"@ + t + "?>"@,
                KindV::Decl(t) => "<?"@ + t + "?>"@,
                KindV::DocType(t) => "<!DOCTYPE "@ + t + ">"@,
            }
        }
    }

    /// The nodes of `cs` written one after the other.
    pub open spec fn written_list(self, cs: Seq<NodeId>, fuel: nat) -> Seq<char>
        decreases fuel, cs.len(),
    {
        if cs.len() == 0 {
            seq![]
        } else {
            self.written_list(cs.drop_last(), fuel) + self.written_f(cs.last(), fuel)
        }
    }

    /// How `n` and its subtree are written.
    pub open spec fn written(self, n: NodeId) -> Seq<char> {
        self.written_f(n, (self.nodes.len() - self.dep(n)) as nat)
    }

    /// The whole document as text: the document node's children in order.
    pub open spec fn serialized(self) -> Seq<char> {
        self.written_list(self.children(0), (self.nodes.len() - 1 - self.dep(0)) as nat)
    }
}

impl Doc {
    fn write_attrs(attrs: &Vec<Attr>, out: &mut String)
        ensures
            final(out)@ == old(out)@ + attrs_written(attrs_view(attrs@)),
    {
        let ghost start = out@;
        let mut i: usize = 0;
        while i < attrs.len()
            invariant
                i <= attrs@.len(),
                out@ == start + attrs_written(attrs_view(attrs@).subrange(0, i as int)),
            decreases attrs@.len() - i,
        {
            let a = &attrs[i];
            out.append(a.ws.as_str());
            out.append(a.name.as_str());
            out.append("=\"");
            escape_attr(a.value.as_str(), out);
            out.append("\"");
            proof {
                let av = attrs_view(attrs@);
                assert(av.subrange(0, i + 1).drop_last() =~= av.subrange(0, i as int));
                assert(av.subrange(0, i + 1).last() == attrs@[i as int]@);
            }
            i = i + 1;
        }
        proof {
            assert(attrs_view(attrs@).subrange(0, attrs@.len() as int) =~= attrs_view(attrs@));
        }
    }

    /// Writes `n` and its subtree.
    #[verifier::spinoff_prover]
    #[verifier::rlimit(40)]
    fn write_node(&self, n: NodeId, out: &mut String, Ghost(fuel): Ghost<nat>)
        requires
            self.wf(),
            self@.valid(n),
            fuel == self@.nodes.len() - self@.dep(n),
        ensures
            final(out)@ == old(out)@ + self@.written_f(n, fuel),
        decreases fuel,
    {
        proof {
            lemma_depth_bound(self@, n);
            self.lemma_view_node(n);
        }
        let ghost start = out@;
        match &self.nodes[n as usize].kind {
            Kind::Document => {},
            Kind::Element { name, attrs, self_closing, close_ws } => {
                out.append("<");
                out.append(name.as_str());
                Self::write_attrs(attrs, out);
                out.append(close_ws.as_str());
                let cs = &self.nodes[n as usize].children;
                if cs.len() == 0 && *self_closing {
                    out.append("/>");
                } else {
                    out.append(">");
                    let ghost mid = out@;
                    let mut i: usize = 0;
                    while i < cs.len()
                        invariant
                            self.wf(),
                            self@.valid(n),
                            cs@ == self@.children(n),
                            fuel == self@.nodes.len() - self@.dep(n),
                            fuel >= 1,
                            i <= cs@.len(),
                            out@ == mid + self@.written_list(cs@.subrange(0, i as int), (fuel - 1) as nat),
                        decreases cs@.len() - i,
                    {
                        proof {
                            lemma_child(self@, n, i as int);
                            assert(cs@.subrange(0, i + 1).drop_last() =~= cs@.subrange(0, i as int));
                        }
                        self.write_node(cs[i], out, Ghost((fuel - 1) as nat));
                        i = i + 1;
                    }
                    proof {
                        assert(cs@.subrange(0, cs@.len() as int) =~= cs@);
                    }
                    out.append("</");
                    out.append(name.as_str());
                    out.append(">");
                }
            },
            Kind::Text(t) => {
                escape_text(t.as_str(), out);
            },
            Kind::CData(t) => {
                out.append("<![CDATA[");
                out.append(t.as_str());
                out.append("]]>");
            },
            Kind::Comment(t) => {
                out.append("<!--");
                out.append(t.as_str());
                out.append("-->");
            },
            Kind::PI(t) => {
                out.append("<?");
                out.append(t.as_str());
                out.append("?>");
            },
            Kind::Decl(t) => {
                out.append("<?");
                out.append(t.as_str());
                out.append("?>");
            },
            Kind::DocType(t) => {
                out.append("<!DOCTYPE ");
                out.append(t.as_str());
                out.append(">");
            },
        }
    }

    /// The document as text (see `DocV::serialized`).
    fn write_text(&self) -> (r: String)
        requires
            self.wf(),
        ensures
            r@ == self@.serialized(),
    {
        let mut out = String::new();
        let cs = &self.nodes[0].children;
        proof {
            self.lemma_view_node(0);
        }
        let mut i: usize = 0;
        while i < cs.len()
            invariant
                self.wf(),
                cs@ == self@.children(0),
                i <= cs@.len(),
                out@ == self@.written_list(cs@.subrange(0, i as int), (self@.nodes.len() - 1 - self@.dep(0)) as nat),
            decreases cs@.len() - i,
        {
            proof {
                lemma_child(self@, 0, i as int);
                lemma_node_ok(self@, 0);
                lemma_depth_bound(self@, cs@[i as int]);
                assert(cs@.subrange(0, i + 1).drop_last() =~= cs@.subrange(0, i as int));
            }
            self.write_node(cs[i], &mut out, Ghost((self@.nodes.len() - 1 - self@.dep(0)) as nat));
            i = i + 1;
        }
        proof {
            assert(cs@.subrange(0, cs@.len() as int) =~= cs@);
        }
        out
    }

    /// Serializes the document into `out` as UTF-8; never pretty-prints, never reorders
    /// anything.
    pub fn write(&self, out: &mut Vec<u8>)
        requires
            self.wf(),
        ensures
            final(out)@ == old(out)@ + vstd::utf8::encode_utf8(self@.serialized()),
    {
        let s = self.write_text();
        let b = s.as_str().as_bytes();
        let ghost o = out@;
        out.extend_from_slice(b);
        proof {
            assert(out@ =~= o + b@);
        }
    }
}


// ---------------------------------------------------------------------------------------------
// References, ids and selections

impl DocV {
    /// `xlink:href`, or else SVG 2 `href`.
    pub open spec fn href(self, n: NodeId) -> Option<Seq<char>> {
        match self.attr(n, "xlink:href"@) {
            Some(v) => Some(v),
            None => self.attr(n, "href"@),
        }
    }

    /// The Text node right after `n`.
    pub open spec fn tail(self, n: NodeId) -> Option<NodeId> {
        match self.next_sibling(n) {
            Some(x) => if self.kind(x) is Text {
                Some(x)
            } else {
                None
            },
            None => None,
        }
    }

    /// The nearest `xml:space` value on `n` or an ancestor.
    pub open spec fn space_value_f(self, n: NodeId, fuel: nat) -> Option<Seq<char>>
        decreases fuel,
    {
        match self.attr(n, "xml:space"@) {
            Some(v) => Some(v),
            None => if fuel == 0 {
                None
            } else {
                match self.parent(n) {
                    Some(p) => self.space_value_f(p, (fuel - 1) as nat),
                    None => None,
                }
            },
        }
    }

    pub open spec fn xml_space_preserve(self, n: NodeId) -> bool {
        match self.space_value_f(n, self.dep(n)) {
            Some(v) => trimmed(v) == "preserve"@,
            None => false,
        }
    }

    /// The node an `href` of the form `#id` names.
    pub open spec fn resolve_href(self, n: NodeId) -> Option<NodeId> {
        match self.href(n) {
            Some(h) => {
                let t = trimmed(h);
                if t.len() > 0 && t[0] == '#' && self.ids.contains_key(t.drop_first()) {
                    Some(self.ids[t.drop_first()])
                } else {
                    None
                }
            },
            None => None,
        }
    }

    /// The `j`-th candidate `prefix` + `j` is the first one free from `from` on.
    pub open spec fn first_free(self, prefix: Seq<char>, from: nat, j: nat) -> bool {
        &&& from <= j
        &&& !self.ids.contains_key(prefix + decimal(j))
        &&& forall|k: nat| from <= k < j ==> self.ids.contains_key(#[trigger] (prefix + decimal(k)))
    }

    /// The node the id `k` names, when it names one.
    pub open spec fn selected(self, ids: Seq<Seq<char>>, x: NodeId) -> bool {
        exists|k: int| 0 <= k < ids.len() && self.ids.contains_key(#[trigger] ids[k]) && self.ids[ids[k]] == x
    }

    /// The nodes of `ns` that some id of `ids` names, in the order of `ns`.
    pub open spec fn keep_selected(self, ids: Seq<Seq<char>>, ns: Seq<NodeId>) -> Seq<NodeId>
        decreases ns.len(),
    {
        if ns.len() == 0 {
            seq![]
        } else {
            let r = self.keep_selected(ids, ns.drop_last());
            if self.selected(ids, ns.last()) {
                r.push(ns.last())
            } else {
                r
            }
        }
    }

    /// The nodes `ids` name, in the order given, each once.
    pub open spec fn ordered_selection(self, ids: Seq<Seq<char>>) -> Seq<NodeId>
        decreases ids.len(),
    {
        if ids.len() == 0 {
            seq![]
        } else {
            let r = self.ordered_selection(ids.drop_last());
            let k = ids.last();
            if self.ids.contains_key(k) && !r.contains(self.ids[k]) {
                r.push(self.ids[k])
            } else {
                r
            }
        }
    }

    /// First element among `cs` whose tag is `defs`.
    /// What `Doc::defs` leaves when the root has no `<defs>` child: a new, empty `<defs>` as
    /// the root's first child.
    pub open spec fn defs_made(self) -> DocV {
        let r = self.nodes.len() as NodeId;
        let d1 = self.allocated(KindV::Element { name: "defs"@, attrs: seq![], self_closing: true, close_ws: seq![] });
        if d1.children(self.svg).len() == 0 {
            d1.appended(self.svg, r)
        } else {
            d1.inserted_before(r, d1.children(self.svg)[0])
        }
    }

    pub open spec fn first_defs(self, cs: Seq<NodeId>) -> Option<NodeId>
        decreases cs.len(),
    {
        if cs.len() == 0 {
            None
        } else if self.is_element(cs[0]) && self.tag(cs[0]) == "defs"@ {
            Some(cs[0])
        } else {
            self.first_defs(cs.drop_first())
        }
    }
}

pub open spec fn strings_view(v: Seq<String>) -> Seq<Seq<char>> {
    v.map_values(|s: String| s@)
}

proof fn lemma_ids_map_len(s: Seq<(String, NodeId)>)
    ensures
        ids_map(s).dom().finite(),
        ids_map(s).dom().len() <= s.len(),
    decreases s.len(),
{
    if s.len() > 0 {
        lemma_ids_map_len(s.drop_last());
    }
}

/// `prefix + decimal(j)` names each `j` once.
proof fn lemma_candidate_injective(prefix: Seq<char>, a: nat, b: nat)
    requires
        prefix + decimal(a) == prefix + decimal(b),
    ensures
        a == b,
{
    assert((prefix + decimal(a)).subrange(prefix.len() as int, (prefix + decimal(a)).len() as int) =~= decimal(a));
    assert((prefix + decimal(b)).subrange(prefix.len() as int, (prefix + decimal(b)).len() as int) =~= decimal(b));
    lemma_decimal_injective(a, b);
}

impl Doc {
    /// `xlink:href` or SVG 2 `href`.
    pub fn href(&self, n: NodeId) -> (r: Option<&str>)
        requires
            self@.valid(n),
        ensures
            r matches Some(v) ==> self@.href(n) == Some(v@),
            r is None ==> self@.href(n) is None,
    {
        match self.attr(n, "xlink:href") {
            Some(v) => Some(v),
            None => self.attr(n, "href"),
        }
    }

    /// The Text node directly following `n`, if any.
    pub fn tail(&self, n: NodeId) -> (r: Option<NodeId>)
        requires
            self.wf(),
            self@.valid(n),
        ensures
            r == self@.tail(n),
    {
        match self.next_sibling(n) {
            Some(x) => {
                proof {
                    let p = self@.parent(n).unwrap();
                    lemma_node_ok(self@, n);
                    lemma_node_ok(self@, p);
                    let i = pos_in(self@.children(p), n);
                    assert(0 <= i < self@.children(p).len() && self@.children(p)[i] == n);
                    assert(self@.child_ok(p, self@.children(p)[i + 1]));
                }
                match &self.nodes[x as usize].kind {
                    Kind::Text(_) => Some(x),
                    _ => None,
                }
            },
            None => None,
        }
    }

    /// `true` when the nearest `xml:space` on the element or an ancestor is `preserve`.
    pub fn xml_space_preserve(&self, n: NodeId) -> (r: bool)
        requires
            self.wf(),
            self@.valid(n),
        ensures
            r == self@.xml_space_preserve(n),
    {
        let mut cur = n;
        loop
            invariant
                self.wf(),
                self@.valid(cur),
                self@.space_value_f(n, self@.dep(n)) == self@.space_value_f(cur, self@.dep(cur)),
            decreases self@.dep(cur),
        {
            proof {
                lemma_node_ok(self@, cur);
                self.lemma_view_node(cur);
            }
            match self.attr(cur, "xml:space") {
                Some(v) => {
                    let t = trim(v);
                    proof {
                        reveal_strlit("preserve");
                    }
                    return str_eq(t.as_str(), "preserve");
                },
                None => {},
            }
            match self.nodes[cur as usize].parent {
                None => {
                    return false;
                },
                Some(p) => {
                    cur = p;
                },
            }
        }
    }

    /// Target of an `href`/`xlink:href` of the form `#id`.
    pub fn resolve_href(&self, n: NodeId) -> (r: Option<NodeId>)
        requires
            self.wf(),
            self@.valid(n),
        ensures
            r == self@.resolve_href(n),
    {
        let h = match self.href(n) {
            Some(h) => h,
            None => {
                return None;
            },
        };
        let t = trim(h);
        let cs = chars_of(t.as_str());
        if cs.len() == 0 || cs[0] != '#' {
            return None;
        }
        let id = string_from(slice_range(cs.as_slice(), 1, cs.len()));
        proof {
            assert(id@ =~= t@.drop_first());
        }
        self.by_id(id.as_str())
    }

    /// Makes `prefix` usable on this document: `true` when the root `<svg>` already declares
    /// `xmlns:<prefix>`, when it is `xml`, or when the prefix is a standard one (`KNOWN_NS`),
    /// whose declaration is then added to the root; `false` for an unknown prefix.
    pub fn ensure_prefix(&mut self, prefix: &str) -> (r: bool)
        requires
            old(self).wf(),
        ensures
            final(self).wf(),
            prefix@ == "xml"@ ==> r && final(self)@ == old(self)@,
            prefix@ != "xml"@ && old(self)@.attr(old(self)@.svg, "xmlns:"@ + prefix@) is Some ==> r
                && final(self)@ == old(self)@,
            prefix@ != "xml"@ && old(self)@.attr(old(self)@.svg, "xmlns:"@ + prefix@) is None ==> match known_uri(prefix@) {
                Some(u) => r && final(self)@ == old(self)@.attr_set(old(self)@.svg, "xmlns:"@ + prefix@, u),
                None => !r && final(self)@ == old(self)@,
            },
    {
        proof {
            reveal_strlit("xml");
            reveal_strlit("xmlns:");
        }
        if str_eq(prefix, "xml") {
            return true;
        }
        let mut decl = "xmlns:".to_owned();
        decl.append(prefix);
        let svg = self.svg;
        if self.attr(svg, decl.as_str()).is_some() {
            return true;
        }
        match Self::known_uri(prefix) {
            Some(uri) => {
                self.set_attr(svg, decl.as_str(), uri);
                true
            },
            None => false,
        }
    }

    /// `prefix` + the smallest positive integer giving an unused id (nothing is reserved).
    pub fn new_id(&mut self, prefix: &str) -> (r: String)
        requires
            old(self).wf(),
        ensures
            final(self).wf(),
            final(self)@ == old(self)@,
            exists|j: nat| #[trigger] old(self)@.first_free(prefix@, 1, j) && r@ == prefix@ + decimal(j),
    {
        proof {
            lemma_ids_map_len(self.ids@);
        }
        let mut i: u128 = 1;
        let ghost mut seen: Set<Seq<char>> = Set::empty();
        loop
            invariant
                self.wf(),
                self@.ids.dom().finite(),
                self@.ids.dom().len() <= self.ids@.len(),
                1 <= i,
                seen.finite(),
                seen.len() == i - 1,
                seen.subset_of(self@.ids.dom()),
                forall|x: Seq<char>| #[trigger] seen.contains(x) ==> exists|k: nat| 1 <= k < i && x == prefix@ + decimal(k),
                forall|k: nat| 1 <= k < i ==> self@.ids.contains_key(#[trigger] (prefix@ + decimal(k))),
            decreases self.ids@.len() + 1 - i,
        {
            let mut cand = prefix.to_owned();
            push_decimal(i, &mut cand);
            match self.by_id(cand.as_str()) {
                None => {
                    proof {
                        assert(self@.first_free(prefix@, 1, i as nat));
                    }
                    return cand;
                },
                Some(_) => {
                    let l = self.ids.len();
                    proof {
                        assert(!seen.contains(cand@)) by {
                            if seen.contains(cand@) {
                                let k = choose|k: nat| 1 <= k < i && cand@ == prefix@ + decimal(k);
                                lemma_candidate_injective(prefix@, k, i as nat);
                            }
                        }
                        let s2 = seen.insert(cand@);
                        assert(s2.len() == i);
                        vstd::set_lib::lemma_len_subset(s2, self@.ids.dom());
                        assert(i <= l);
                        assert forall|x: Seq<char>| #[trigger] s2.contains(x) implies exists|k: nat| 1 <= k < i + 1 && x == prefix@ + decimal(k) by {
                            if x == cand@ {
                                assert(1 <= i as nat && x == prefix@ + decimal(i as nat));
                            }
                        }
                        seen = s2;
                    }
                    i = i + 1;
                },
            }
        }
    }

    /// Returns the element's id, assigning `sciink-N` (the next free N from the document's
    /// counter on) if it has none.
    pub fn ensure_id(&mut self, n: NodeId) -> (r: String)
        requires
            old(self).wf(),
            old(self)@.valid(n),
            old(self)@.next_auto_id + old(self)@.ids.dom().len() + 1 < u32::MAX,
        ensures
            final(self).wf(),
            old(self)@.attr(n, "id"@) matches Some(v) ==> r@ == v && final(self)@ == old(self)@,
            old(self)@.attr(n, "id"@) is None ==> exists|j: nat| #[trigger] old(self)@.first_free(
                "sciink-"@,
                old(self)@.next_auto_id as nat,
                j,
            ) && 1 <= j && r@ == "sciink-"@ + decimal(j) && final(self)@ == (DocV {
                next_auto_id: (j + 1) as u32,
                ..old(self)@
            }).attr_set(n, "id"@, r@),
    {
        proof {
            reveal_strlit("id");
        }
        match self.attr(n, "id") {
            Some(v) => {
                return v.to_owned();
            },
            None => {},
        }
        proof {
            lemma_ids_map_len(self.ids@);
        }
        let ghost d0 = self@;
        let ghost from = self.next_auto_id as nat;
        let ghost mut seen: Set<Seq<char>> = Set::empty();
        loop
            invariant
                self.wf(),
                self@.valid(n),
                self@ == (DocV { next_auto_id: self.next_auto_id, ..d0 }),
                self@.ids.dom().finite(),
                from <= self.next_auto_id,
                self.next_auto_id + d0.ids.dom().len() + 1 < u32::MAX + (self.next_auto_id - from),
                seen.finite(),
                seen.len() == self.next_auto_id - from,
                seen.subset_of(d0.ids.dom()),
                forall|x: Seq<char>| #[trigger] seen.contains(x) ==> exists|k: nat| from <= k < self.next_auto_id && x == "sciink-"@ + decimal(k),
                forall|k: nat| from <= k < self.next_auto_id ==> d0.ids.contains_key(#[trigger] ("sciink-"@ + decimal(k))),
                d0.next_auto_id + d0.ids.dom().len() + 1 < u32::MAX,
                from == d0.next_auto_id,
                d0.wf(),
                d0.attr(n, "id"@) is None,
                d0 == old(self)@,
            decreases d0.ids.dom().len() + from - self.next_auto_id,
        {
            let j = self.next_auto_id;
            let mut cand = "sciink-".to_owned();
            push_decimal(j as u128, &mut cand);
            proof {
                vstd::set_lib::lemma_len_subset(seen, d0.ids.dom());
            }
            self.next_auto_id = j + 1;
            proof {
                lemma_wf_same_nodes(d0, self@);
            }
            match self.by_id(cand.as_str()) {
                None => {
                    proof {
                        assert(d0.first_free("sciink-"@, from, j as nat));
                    }
                    self.set_attr(n, "id", cand.as_str());
                    return cand;
                },
                Some(_) => {
                    proof {
                        assert(!seen.contains(cand@)) by {
                            if seen.contains(cand@) {
                                let k = choose|k: nat| from <= k < j && cand@ == "sciink-"@ + decimal(k);
                                lemma_candidate_injective("sciink-"@, k, j as nat);
                            }
                        }
                        let s2 = seen.insert(cand@);
                        vstd::set_lib::lemma_len_subset(s2, d0.ids.dom());
                        assert forall|x: Seq<char>| #[trigger] s2.contains(x) implies exists|k: nat| from <= k < j + 1 && x == "sciink-"@ + decimal(k) by {
                            if x == cand@ {
                                assert(from <= j as nat && x == "sciink-"@ + decimal(j as nat));
                            }
                        }
                        seen = s2;
                    }
                },
            }
        }
    }

    /// Nodes for the given ids in document order; unknown ids are dropped.
    pub fn selection(&self, ids: &[String]) -> (r: Vec<NodeId>)
        requires
            self.wf(),
        ensures
            r@ == self@.keep_selected(strings_view(ids@), self@.subtree(self@.svg)),
    {
        let ghost idv = strings_view(ids@);
        let mut wanted: Vec<NodeId> = Vec::new();
        let mut k: usize = 0;
        while k < ids.len()
            invariant
                self.wf(),
                idv == strings_view(ids@),
                k <= ids@.len(),
                forall|x: NodeId| wanted@.contains(x) <==> exists|k2: int| 0 <= k2 < k && self@.ids.contains_key(#[trigger] idv[k2]) && self@.ids[idv[k2]] == x,
            decreases ids@.len() - k,
        {
            proof {
                assert(idv[k as int] == ids@[k as int]@);
            }
            let ghost w0 = wanted@;
            match self.by_id(ids[k].as_str()) {
                Some(x) => {
                    wanted.push(x);
                    proof {
                        assert forall|y: NodeId| wanted@.contains(y) <==> exists|k2: int| 0 <= k2 < k + 1 && self@.ids.contains_key(#[trigger] idv[k2]) && self@.ids[idv[k2]] == y by {
                            assert(wanted@ == w0.push(x));
                            if y == x {
                                assert(wanted@[w0.len() as int] == y);
                                assert(self@.ids.contains_key(idv[k as int]) && self@.ids[idv[k as int]] == y);
                            } else {
                                if wanted@.contains(y) {
                                    let i = choose|i: int| 0 <= i < wanted@.len() && wanted@[i] == y;
                                    assert(i < w0.len());
                                    assert(w0[i] == y);
                                    assert(w0.contains(y));
                                }
                                if exists|k2: int| 0 <= k2 < k + 1 && self@.ids.contains_key(#[trigger] idv[k2]) && self@.ids[idv[k2]] == y {
                                    let k2 = choose|k2: int| 0 <= k2 < k + 1 && self@.ids.contains_key(#[trigger] idv[k2]) && self@.ids[idv[k2]] == y;
                                    assert(k2 < k);
                                    assert(w0.contains(y));
                                    let i = choose|i: int| 0 <= i < w0.len() && w0[i] == y;
                                    assert(wanted@[i] == y);
                                }
                            }
                        }
                    }
                },
                None => {},
            }
            k = k + 1;
        }
        let ds = self.descendants(self.svg);
        let mut out: Vec<NodeId> = Vec::new();
        let mut i: usize = 0;
        while i < ds.len()
            invariant
                self.wf(),
                idv == strings_view(ids@),
                ds@ == self@.subtree(self@.svg),
                i <= ds@.len(),
                forall|x: NodeId| wanted@.contains(x) <==> self@.selected(idv, x),
                out@ == self@.keep_selected(idv, ds@.subrange(0, i as int)),
            decreases ds@.len() - i,
        {
            proof {
                assert(ds@.subrange(0, i + 1).drop_last() =~= ds@.subrange(0, i as int));
            }
            if vec_contains(&wanted, ds[i]) {
                out.push(ds[i]);
            }
            i = i + 1;
        }
        proof {
            assert(ds@.subrange(0, ds@.len() as int) =~= ds@);
        }
        out
    }

    /// Nodes for the given ids in the order given (the selection order), each once; unknown
    /// ids are dropped.
    pub fn selection_ordered(&self, ids: &[String]) -> (r: Vec<NodeId>)
        requires
            self.wf(),
        ensures
            r@ == self@.ordered_selection(strings_view(ids@)),
    {
        let ghost idv = strings_view(ids@);
        let mut out: Vec<NodeId> = Vec::new();
        let mut k: usize = 0;
        while k < ids.len()
            invariant
                self.wf(),
                idv == strings_view(ids@),
                k <= ids@.len(),
                out@ == self@.ordered_selection(idv.subrange(0, k as int)),
            decreases ids@.len() - k,
        {
            proof {
                assert(idv[k as int] == ids@[k as int]@);
                assert(idv.subrange(0, k + 1).drop_last() =~= idv.subrange(0, k as int));
            }
            match self.by_id(ids[k].as_str()) {
                Some(x) => {
                    if !vec_contains(&out, x) {
                        out.push(x);
                    }
                },
                None => {},
            }
            k = k + 1;
        }
        proof {
            assert(idv.subrange(0, ids@.len() as int) =~= idv);
        }
        out
    }

    /// First direct `<defs>` child of the root `<svg>`, created (and prepended) if absent.
    pub fn defs(&mut self) -> (r: NodeId)
        requires
            old(self).wf(),
            old(self)@.nodes.len() + 1 < u32::MAX,
        ensures
            final(self).wf(),
            old(self)@.first_defs(old(self)@.children(old(self)@.svg)) matches Some(d) ==> r == d
                && final(self)@ == old(self)@,
            old(self)@.first_defs(old(self)@.children(old(self)@.svg)) is None ==> r as int
                == old(self)@.nodes.len() && final(self)@ == old(self)@.defs_made(),
    {
        let svg = self.svg;
        let cs = self.children(svg);
        proof {
            lemma_node_ok(self@, svg);
            reveal_strlit("defs");
        }
        let mut i: usize = 0;
        assert(cs@.subrange(0, cs@.len() as int) =~= cs@);
        while i < cs.len()
            invariant
                self.wf(),
                svg == self@.svg,
                cs@ == self@.children(svg),
                i <= cs@.len(),
                self@.first_defs(cs@) == self@.first_defs(cs@.subrange(i as int, cs@.len() as int)),
            decreases cs@.len() - i,
        {
            proof {
                lemma_child(self@, svg, i as int);
                assert(cs@.subrange(i as int, cs@.len() as int).drop_first() =~= cs@.subrange(i + 1, cs@.len() as int));
            }
            if self.is_element(cs[i]) && str_eq(self.tag(cs[i]), "defs") {
                return cs[i];
            }
            i = i + 1;
        }
        let ghost d0 = self@;
        let d = self.new_element("defs");
        proof {
            lemma_fresh_not_anc(d0, self@.kind(d), svg, d0.dep(svg));
            if d0.children(svg).len() > 0 {
                lemma_child(d0, svg, 0);
                let f = d0.children(svg)[0];
                lemma_fresh_not_anc(d0, self@.kind(d), f, d0.dep(f));
                assert(self@.dep(f) == d0.dep(f));
            }
            assert(self@.dep(svg) == d0.dep(svg));
            assert(self@.children(svg) == d0.children(svg));
        }
        self.prepend_child(svg, d);
        d
    }
}

/// `v` holds `x`.
pub fn vec_contains(v: &Vec<NodeId>, x: NodeId) -> (r: bool)
    ensures
        r == v@.contains(x),
{
    let mut i: usize = 0;
    while i < v.len()
        invariant
            i <= v@.len(),
            forall|j: int| 0 <= j < i ==> v@[j] != x,
        decreases v@.len() - i,
    {
        if v[i] == x {
            assert(v@[i as int] == x);
            return true;
        }
        i = i + 1;
    }
    false
}


// ---------------------------------------------------------------------------------------------
// Deep copies

/// The attributes without any named `id`.
pub open spec fn without_ids(attrs: Seq<AttrV>) -> Seq<AttrV>
    decreases attrs.len(),
{
    if attrs.len() == 0 {
        seq![]
    } else if attrs.last().name == "id"@ {
        without_ids(attrs.drop_last())
    } else {
        without_ids(attrs.drop_last()).push(attrs.last())
    }
}

/// What a copied node holds: the same, without `id` attributes.
pub open spec fn copied_kind(k: KindV) -> KindV {
    match k {
        KindV::Element { name, attrs, self_closing, close_ws } => KindV::Element {
            name: name,
            attrs: without_ids(attrs),
            self_closing: self_closing,
            close_ws: close_ws,
        },
        other => other,
    }
}

impl DocV {
    /// `c` and the nodes below it, all in `[lo, hi)`, copy `n` and its subtree in `src`
    /// (`fuel` levels deep).
    pub open spec fn copy_in(self, c: NodeId, src: DocV, n: NodeId, fuel: nat, lo: int, hi: int) -> bool
        decreases fuel,
    {
        &&& lo <= c < hi
        &&& hi <= self.nodes.len()
        &&& self.kind(c) == copied_kind(src.kind(n))
        &&& self.children(c).len() == src.children(n).len()
        &&& fuel > 0 ==> forall|i: int|
            0 <= i < self.children(c).len() ==> self.copy_in(
                #[trigger] self.children(c)[i],
                src,
                src.children(n)[i],
                (fuel - 1) as nat,
                lo,
                hi,
            )
    }

    /// `c` and its subtree copy `n` and its subtree of `src`.
    pub open spec fn copy_of(self, c: NodeId, src: DocV, n: NodeId) -> bool {
        self.copy_in(c, src, n, (src.nodes.len() - src.dep(n)) as nat, 0, self.nodes.len() as int)
    }
}

/// A copy stays one while the nodes it uses keep their kinds and children.
proof fn lemma_copy_in_frame(d1: DocV, d2: DocV, c: NodeId, src: DocV, n: NodeId, f: nat, lo: int, hi: int, lo2: int, hi2: int)
    requires
        d1.copy_in(c, src, n, f, lo, hi),
        lo2 <= lo,
        hi <= hi2 <= d2.nodes.len(),
        forall|x: int| lo <= x < hi ==> (#[trigger] d2.nodes[x]).kind == d1.nodes[x].kind
            && d2.nodes[x].children == d1.nodes[x].children,
    ensures
        d2.copy_in(c, src, n, f, lo2, hi2),
    decreases f,
{
    assert(d2.nodes[c as int].kind == d1.nodes[c as int].kind);
    if f > 0 {
        assert forall|i: int| 0 <= i < d2.children(c).len() implies d2.copy_in(
            #[trigger] d2.children(c)[i],
            src,
            src.children(n)[i],
            (f - 1) as nat,
            lo2,
            hi2,
        ) by {
            assert(d1.copy_in(d1.children(c)[i], src, src.children(n)[i], (f - 1) as nat, lo, hi));
            lemma_copy_in_frame(d1, d2, d1.children(c)[i], src, src.children(n)[i], (f - 1) as nat, lo, hi, lo2, hi2);
        }
    }
}

/// The subtree listing of a run of siblings splits where the run does.
proof fn lemma_pre_list_split(d: DocV, cs: Seq<NodeId>, i: int, f: nat)
    requires
        0 <= i <= cs.len(),
    ensures
        d.pre_list(cs, f) == d.pre_list(cs.subrange(0, i), f) + d.pre_list(cs.subrange(i, cs.len() as int), f),
    decreases i,
{
    if i == 0 {
        assert(cs.subrange(0, 0) =~= Seq::<NodeId>::empty());
        assert(cs.subrange(0, cs.len() as int) =~= cs);
        assert(d.pre_list(Seq::<NodeId>::empty(), f) =~= Seq::<NodeId>::empty());
        assert(d.pre_list(cs, f) =~= Seq::<NodeId>::empty() + d.pre_list(cs, f));
    } else {
        let df = cs.drop_first();
        lemma_pre_list_split(d, df, i - 1, f);
        assert(cs.subrange(0, i).drop_first() =~= df.subrange(0, i - 1));
        assert(df.subrange(i - 1, df.len() as int) =~= cs.subrange(i, cs.len() as int));
        assert(cs.subrange(0, i)[0] == cs[0]);
        assert(d.pre_list(cs.subrange(0, i), f) == d.pre_f(cs[0], f) + d.pre_list(df.subrange(0, i - 1), f));
        assert(d.pre_list(cs, f) =~= d.pre_list(cs.subrange(0, i), f) + d.pre_list(cs.subrange(i, cs.len() as int), f));
    }
}

proof fn lemma_pre_list_last(d: DocV, cs: Seq<NodeId>, i: int, f: nat)
    requires
        0 <= i < cs.len(),
    ensures
        d.pre_list(cs.subrange(0, i + 1), f) == d.pre_list(cs.subrange(0, i), f) + d.pre_f(cs[i], f),
        d.pre_list(cs.subrange(0, i + 1), f).len() <= d.pre_list(cs, f).len(),
{
    let p = cs.subrange(0, i + 1);
    lemma_pre_list_split(d, p, i, f);
    assert(p.subrange(0, i) =~= cs.subrange(0, i));
    let one = p.subrange(i, i + 1);
    assert(one.drop_first() =~= Seq::<NodeId>::empty());
    assert(d.pre_list(one, f) == d.pre_f(cs[i], f) + d.pre_list(Seq::<NodeId>::empty(), f));
    assert(d.pre_list(one, f) =~= d.pre_f(cs[i], f));
    lemma_pre_list_split(d, cs, i + 1, f);
}

impl Doc {
    /// Copy of the attributes without `id`.
    fn attrs_without_ids(attrs: &Vec<Attr>) -> (r: Vec<Attr>)
        ensures
            attrs_view(r@) == without_ids(attrs_view(attrs@)),
    {
        let mut out: Vec<Attr> = Vec::new();
        let mut i: usize = 0;
        proof {
            reveal_strlit("id");
        }
        while i < attrs.len()
            invariant
                i <= attrs@.len(),
                attrs_view(out@) == without_ids(attrs_view(attrs@).subrange(0, i as int)),
            decreases attrs@.len() - i,
        {
            let ghost av = attrs_view(attrs@);
            proof {
                assert(av.subrange(0, i + 1).drop_last() =~= av.subrange(0, i as int));
                assert(av[i as int] == attrs@[i as int]@);
            }
            if !str_eq(attrs[i].name.as_str(), "id") {
                let a = Attr { name: attrs[i].name.clone(), value: attrs[i].value.clone(), ws: attrs[i].ws.clone() };
                let ghost o = out@;
                out.push(a);
                proof {
                    assert(attrs_view(out@) =~= attrs_view(o).push(a@));
                }
            }
            i = i + 1;
        }
        proof {
            assert(attrs_view(attrs@).subrange(0, attrs@.len() as int) =~= attrs_view(attrs@));
        }
        out
    }

    fn copy_kind(k: &Kind) -> (r: Kind)
        ensures
            r@ == copied_kind(k@),
    {
        match k {
            Kind::Document => Kind::Document,
            Kind::Element { name, attrs, self_closing, close_ws } => Kind::Element {
                name: name.clone(),
                attrs: Self::attrs_without_ids(attrs),
                self_closing: *self_closing,
                close_ws: close_ws.clone(),
            },
            Kind::Text(t) => Kind::Text(t.clone()),
            Kind::CData(t) => Kind::CData(t.clone()),
            Kind::Comment(t) => Kind::Comment(t.clone()),
            Kind::PI(t) => Kind::PI(t.clone()),
            Kind::DocType(t) => Kind::DocType(t.clone()),
            Kind::Decl(t) => Kind::Decl(t.clone()),
        }
    }

    /// Copies `src` (a node of `d0`, whose nodes this document still starts with) and its
    /// subtree into fresh detached nodes.
    fn clone_rec(&mut self, src: NodeId, Ghost(d0): Ghost<DocV>, Ghost(fuel): Ghost<nat>) -> (r: NodeId)
        requires
            old(self).wf(),
            d0.wf(),
            d0.valid(src),
            fuel == d0.nodes.len() - d0.dep(src),
            d0.nodes.len() <= old(self)@.nodes.len(),
            forall|x: int| 0 <= x < d0.nodes.len() ==> (#[trigger] old(self)@.nodes[x]) == d0.nodes[x],
            old(self)@.nodes.len() + d0.subtree(src).len() + 1 < u32::MAX,
        ensures
            final(self).wf(),
            r as int == old(self)@.nodes.len(),
            final(self)@.parent(r) is None,
            old(self)@.nodes.len() < final(self)@.nodes.len() <= old(self)@.nodes.len() + d0.subtree(src).len(),
            forall|x: int| 0 <= x < old(self)@.nodes.len() ==> (#[trigger] final(self)@.nodes[x]) == old(self)@.nodes[x],
            final(self)@.copy_in(r, d0, src, fuel, old(self)@.nodes.len() as int, final(self)@.nodes.len() as int),
            final(self)@.ids == old(self)@.ids,
            final(self)@.svg == old(self)@.svg,
            final(self)@.generation == old(self)@.generation,
            final(self)@.style_generation == old(self)@.style_generation,
            final(self)@.sheet_generation == old(self)@.sheet_generation,
            final(self)@.next_auto_id == old(self)@.next_auto_id,
            final(self)@.source_len == old(self)@.source_len,
        decreases fuel,
    {
        let ghost start = self@.nodes.len() as int;
        let ghost s0 = self@;
        proof {
            lemma_depth_bound(d0, src);
            lemma_subtree_unfold(d0, src);
            self.lemma_view_node(src);
        }
        let k = Self::copy_kind(&self.nodes[src as usize].kind);
        let dst = self.push_node(k);
        let kids = self.nodes[src as usize].children.clone();
        proof {
            self.lemma_view_node(src);
            assert(kids@ == d0.children(src));
            lemma_node_ok(d0, src);
        }
        let ghost f1 = (fuel - 1) as nat;
        let mut i: usize = 0;
        while i < kids.len()
            invariant
                self.wf(),
                d0.wf(),
                d0.valid(src),
                fuel == d0.nodes.len() - d0.dep(src),
                fuel >= 1,
                f1 == fuel - 1,
                kids@ == d0.children(src),
                i <= kids@.len(),
                dst as int == start,
                start == s0.nodes.len(),
                d0.nodes.len() <= start,
                forall|x: int| 0 <= x < start ==> (#[trigger] self@.nodes[x]) == s0.nodes[x],
                forall|x: int| 0 <= x < d0.nodes.len() ==> (#[trigger] s0.nodes[x]) == d0.nodes[x],
                self@.kind(dst) == copied_kind(d0.kind(src)),
                self@.parent(dst) is None,
                self@.children(dst).len() == i,
                start < self@.nodes.len() <= start + 1 + d0.pre_list(kids@.subrange(0, i as int), f1).len(),
                d0.subtree(src).len() == 1 + d0.pre_list(kids@, f1).len(),
                start + d0.subtree(src).len() + 1 < u32::MAX,
                forall|j: int| 0 <= j < i ==> self@.copy_in(
                    #[trigger] self@.children(dst)[j],
                    d0,
                    kids@[j],
                    f1,
                    start + 1,
                    self@.nodes.len() as int,
                ),
                self@.ids == s0.ids,
                self@.svg == s0.svg,
                self@.generation == s0.generation,
                self@.style_generation == s0.style_generation,
                self@.sheet_generation == s0.sheet_generation,
                self@.next_auto_id == s0.next_auto_id,
                self@.source_len == s0.source_len,
            decreases kids@.len() - i,
        {
            let ghost d1 = self@;
            proof {
                lemma_child(d0, src, i as int);
                lemma_subtree_child(d0, src, i as int);
                lemma_pre_list_last(d0, kids@, i as int, f1);
            }
            let c = self.clone_rec(kids[i], Ghost(d0), Ghost(f1));
            let ghost d2 = self@;
            proof {
                lemma_node_ok(d2, dst);
                lemma_fresh_free(d2, c, dst);
            }
            self.link_leaf(dst, c);
            proof {
                let d3 = self@;
                assert forall|j: int| 0 <= j < i + 1 implies d3.copy_in(
                    #[trigger] d3.children(dst)[j],
                    d0,
                    kids@[j],
                    f1,
                    start + 1,
                    d3.nodes.len() as int,
                ) by {
                    assert(d3.children(dst)[j] == d1.children(dst).push(c)[j]);
                    if j < i {
                        lemma_copy_in_frame(d1, d3, d1.children(dst)[j], d0, kids@[j], f1, start + 1, d1.nodes.len() as int, start + 1, d3.nodes.len() as int);
                    } else {
                        lemma_copy_in_frame(d2, d3, c, d0, kids@[j], f1, d1.nodes.len() as int, d2.nodes.len() as int, start + 1, d3.nodes.len() as int);
                    }
                }
            }
            i = i + 1;
        }
        proof {
            assert(kids@.subrange(0, kids@.len() as int) =~= kids@);
            let d = self@;
            assert forall|j: int| 0 <= j < d.children(dst).len() implies d.copy_in(
                #[trigger] d.children(dst)[j],
                d0,
                d0.children(src)[j],
                f1,
                start,
                d.nodes.len() as int,
            ) by {
                lemma_copy_in_frame(d, d, d.children(dst)[j], d0, kids@[j], f1, start + 1, d.nodes.len() as int, start, d.nodes.len() as int);
            }
        }
        dst
    }

    /// Detached copy of `n` and its subtree; `id` attributes are dropped.
    pub fn deep_clone(&mut self, n: NodeId) -> (r: NodeId)
        requires
            old(self).wf(),
            old(self)@.valid(n),
            old(self)@.nodes.len() + old(self)@.subtree(n).len() + 1 < u32::MAX,
        ensures
            final(self).wf(),
            r as int == old(self)@.nodes.len(),
            final(self)@.parent(r) is None,
            final(self)@.copy_of(r, old(self)@, n),
            old(self)@.nodes.len() < final(self)@.nodes.len() <= old(self)@.nodes.len() + old(self)@.subtree(n).len(),
            forall|x: int| 0 <= x < old(self)@.nodes.len() ==> (#[trigger] final(self)@.nodes[x]) == old(self)@.nodes[x],
            final(self)@ == (DocV { nodes: final(self)@.nodes, depth: final(self)@.depth, ..old(self)@ }),
    {
        let ghost d0 = self@;
        proof {
            lemma_depth_bound(d0, n);
        }
        let r = self.clone_rec(n, Ghost(d0), Ghost((d0.nodes.len() - d0.dep(n)) as nat));
        proof {
            let d = self@;
            lemma_copy_in_frame(d, d, r, d0, n, (d0.nodes.len() - d0.dep(n)) as nat, d0.nodes.len() as int, d.nodes.len() as int, 0, d.nodes.len() as int);
        }
        r
    }
}

/// A detached node with no parent is neither `p` nor an ancestor of it when `p` has none.
proof fn lemma_fresh_free(d: DocV, c: NodeId, p: NodeId)
    requires
        d.wf(),
        d.valid(c),
        d.valid(p),
        c != p,
        d.parent(p) is None,
    ensures
        !d.anc_or_self(c, p),
{
    lemma_node_ok(d, p);
    assert(d.dep(p) == 0);
}

} // verus!
