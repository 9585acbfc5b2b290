//! XML lexical layer: the events the reader hands out, attribute lists as written, and the
//! escaping used on output.
use vstd::prelude::*;
use crate::dom::{Attr, AttrV, DomError, DomErrorKind, attrs_view};
use crate::strs::{chars_of, push_char, string_from, slice_range};

verus! {

/// One reader event with its text owned. `Start`/`Empty` keep the raw attribute text
/// (everything after the tag name, leading whitespace included).
pub enum XmlEvent {
    Start { name: String, attrs: String },
    Empty { name: String, attrs: String },
    End,
    Text(String),
    /// A general reference `&name;`: the part between `&` and `;`.
    Ref(String),
    CData(String),
    Comment(String),
    Decl(String),
    PI(String),
    DocType(String),
    Eof,
}

pub enum XmlEventV {
    Start { name: Seq<char>, attrs: Seq<char> },
    Empty { name: Seq<char>, attrs: Seq<char> },
    End,
    Text(Seq<char>),
    Ref(Seq<char>),
    CData(Seq<char>),
    Comment(Seq<char>),
    Decl(Seq<char>),
    PI(Seq<char>),
    DocType(Seq<char>),
    Eof,
}

impl View for XmlEvent {
    type V = XmlEventV;

    open spec fn view(&self) -> XmlEventV {
        match self {
            XmlEvent::Start { name, attrs } => XmlEventV::Start { name: name@, attrs: attrs@ },
            XmlEvent::Empty { name, attrs } => XmlEventV::Empty { name: name@, attrs: attrs@ },
            XmlEvent::End => XmlEventV::End,
            XmlEvent::Text(t) => XmlEventV::Text(t@),
            XmlEvent::Ref(t) => XmlEventV::Ref(t@),
            XmlEvent::CData(t) => XmlEventV::CData(t@),
            XmlEvent::Comment(t) => XmlEventV::Comment(t@),
            XmlEvent::Decl(t) => XmlEventV::Decl(t@),
            XmlEvent::PI(t) => XmlEventV::PI(t@),
            XmlEvent::DocType(t) => XmlEventV::DocType(t@),
            XmlEvent::Eof => XmlEventV::Eof,
        }
    }
}

pub open spec fn events_view(evs: Seq<XmlEvent>) -> Seq<XmlEventV> {
    evs.map_values(|e: XmlEvent| e@)
}

/// Which variant a reader event is.
pub enum EventTag {
    Start,
    Empty,
    End,
    Text,
    GeneralRef,
    CData,
    Comment,
    Decl,
    PI,
    DocType,
    Eof,
}

#[verifier::external_type_specification]
#[verifier::external_body]
#[verifier::reject_recursive_types(R)]
pub struct ExXmlReader<R>(quick_xml::Reader<R>);

#[verifier::external_type_specification]
#[verifier::external_body]
pub struct ExXmlEvent<'a>(quick_xml::events::Event<'a>);

#[verifier::external_type_specification]
#[verifier::external_body]
pub struct ExXmlError(quick_xml::Error);

#[verifier::external_type_specification]
#[verifier::external_body]
pub struct ExEscapeError(quick_xml::escape::EscapeError);

/// What `quick_xml::escape::unescape` gives for `raw`: the unescaped text, or on an error
/// whether that error is `EscapeError::UnrecognizedEntity`.
pub uninterp spec fn unescape_of(raw: Seq<char>) -> Result<Seq<char>, bool>;

/// The value of a digit in base `radix` (10 or 16, either case for hex), -1 for another
/// character.
pub open spec fn digit_value(c: char, radix: int) -> int {
    if '0' <= c && c <= '9' {
        c as int - '0' as int
    } else if radix == 16 && 'a' <= c && c <= 'f' {
        c as int - 'a' as int + 10
    } else if radix == 16 && 'A' <= c && c <= 'F' {
        c as int - 'A' as int + 10
    } else {
        -1
    }
}

/// The number the digits `s` write in base `radix`, or none when a character is no digit.
pub open spec fn digits_value(s: Seq<char>, radix: int) -> Option<int>
    decreases s.len(),
{
    if s.len() == 0 {
        Some(0)
    } else {
        match digits_value(s.drop_last(), radix) {
            None => None,
            Some(v) => if digit_value(s.last(), radix) < 0 {
                None
            } else {
                Some(v * radix + digit_value(s.last(), radix))
            },
        }
    }
}

/// What `BytesRef::resolve_char_ref` gives for the reference named `name`: `Some(None)` when it
/// does not start with `#`; else the character the decimal digits (or, after `#x`, the hex
/// digits) write, when there is at least one digit, nothing else, the number fits in a `u32`,
/// is not 0 and is a Unicode scalar value; `None` (an error) otherwise.
pub open spec fn char_ref_of(name: Seq<char>) -> Option<Option<char>> {
    if name.len() == 0 || name[0] != '#' {
        Some(None)
    } else {
        let num = name.subrange(1, name.len() as int);
        let (ds, radix) = if num.len() > 0 && num[0] == 'x' {
            (num.subrange(1, num.len() as int), 16int)
        } else {
            (num, 10int)
        };
        match digits_value(ds, radix) {
            Some(v) => if ds.len() > 0 && 0 < v <= 0x10FFFF && !(0xD800 <= v <= 0xDFFF) {
                Some(Some(v as char))
            } else {
                None
            },
            None => None,
        }
    }
}

/// What reading `text` with `quick_xml::Reader::from_str` gives, under the reader settings
/// `trim_text(trim)`, `expand_empty_elements` and `check_end_names`: the events in order, each
/// with its text owned, up to the end of the input (`Eof` not included) or up to the first
/// error, and whether such an error stopped the reading.
pub uninterp spec fn xml_events_of(text: Seq<char>, trim: bool, expand_empty: bool, check_end_names: bool) -> (Seq<XmlEventV>, bool);

/// Reads `text` with `quick_xml::Reader::from_str` and `Reader::read_event` under the given
/// settings, until `Eof` or the first error, which comes back beside the events read before it.
/// The contract claims that the events and whether an error came are `xml_events_of` of the
/// text and the settings.
#[verifier::external_body]
pub(crate) fn xml_events(text: &str, trim: bool, expand_empty: bool, check_end_names: bool) -> (r: (Vec<XmlEvent>, Option<quick_xml::Error>))
    ensures
        (events_view(r.0@), r.1 is Some) == xml_events_of(text@, trim, expand_empty, check_end_names),
{
    let mut reader = quick_xml::Reader::from_str(text);
    let cfg = reader.config_mut();
    cfg.trim_text(trim);
    cfg.expand_empty_elements = expand_empty;
    cfg.check_end_names = check_end_names;
    let mut out = Vec::new();
    loop {
        match reader.read_event() {
            Ok(quick_xml::events::Event::Eof) => return (out, None),
            Ok(ev) => out.push(to_xml_event(&ev)),
            Err(e) => return (out, Some(e)),
        }
    }
}

/// The variant of a `quick_xml::events::Event`.
#[verifier::external_body]
fn event_tag(ev: &quick_xml::events::Event) -> EventTag {
    match ev {
        quick_xml::events::Event::Start(_) => EventTag::Start,
        quick_xml::events::Event::Empty(_) => EventTag::Empty,
        quick_xml::events::Event::End(_) => EventTag::End,
        quick_xml::events::Event::Text(_) => EventTag::Text,
        quick_xml::events::Event::GeneralRef(_) => EventTag::GeneralRef,
        quick_xml::events::Event::CData(_) => EventTag::CData,
        quick_xml::events::Event::Comment(_) => EventTag::Comment,
        quick_xml::events::Event::Decl(_) => EventTag::Decl,
        quick_xml::events::Event::PI(_) => EventTag::PI,
        quick_xml::events::Event::DocType(_) => EventTag::DocType,
        quick_xml::events::Event::Eof => EventTag::Eof,
    }
}

/// The event's content through `<Event as Deref>::deref`: the text between the delimiters
/// (for a start tag, the name and the raw attributes).
#[verifier::external_body]
fn event_content(ev: &quick_xml::events::Event) -> String {
    String::from(&**ev)
}

/// `BytesStart::name` of a start or empty tag (empty for other events).
#[verifier::external_body]
fn start_name(ev: &quick_xml::events::Event) -> String {
    match ev {
        quick_xml::events::Event::Start(s) | quick_xml::events::Event::Empty(s) => s.name().0.to_owned(),
        _ => String::new(),
    }
}

/// `BytesStart::attributes_raw` of a start or empty tag (empty for other events).
#[verifier::external_body]
fn start_attrs(ev: &quick_xml::events::Event) -> String {
    match ev {
        quick_xml::events::Event::Start(s) | quick_xml::events::Event::Empty(s) => s.attributes_raw().to_owned(),
        _ => String::new(),
    }
}

/// The message of a reader error (its `Display`).
#[verifier::external_body]
pub(crate) fn xml_error_text(e: &quick_xml::Error) -> String {
    e.to_string()
}

/// The message of an escape error (its `Display`).
#[verifier::external_body]
fn escape_error_text(e: &quick_xml::escape::EscapeError) -> String {
    e.to_string()
}

/// `quick_xml::escape::unescape` on `raw`, its result owned; on an error, whether it is
/// `EscapeError::UnrecognizedEntity` comes back with it.
#[verifier::external_body]
fn unescape(raw: &str) -> (r: Result<String, (bool, quick_xml::escape::EscapeError)>)
    ensures
        unescape_of(raw@) == match r {
            Ok(v) => Ok::<Seq<char>, bool>(v@),
            Err((u, _)) => Err::<Seq<char>, bool>(u),
        },
{
    match quick_xml::escape::unescape(raw) {
        Ok(v) => Ok(v.into_owned()),
        Err(e) => Err((matches!(e, quick_xml::escape::EscapeError::UnrecognizedEntity(..)), e)),
    }
}

/// `BytesRef::new(name).resolve_char_ref()`: the character of a `#…` reference, `None` for a
/// name that does not start with `#`, an error for a malformed number (see `char_ref_of`, which
/// states `parse_number` and `u32::from_str_radix` as the source shows them).
#[verifier::external_body]
pub(crate) fn char_ref(name: &str) -> (r: Result<Option<char>, quick_xml::Error>)
    ensures
        r matches Ok(c) ==> char_ref_of(name@) == Some(c),
        r is Err ==> char_ref_of(name@) is None,
{
    quick_xml::events::BytesRef::new(name).resolve_char_ref()
}

/// Owned copy of one reader event.
pub fn to_xml_event(ev: &quick_xml::events::Event) -> XmlEvent {
    match event_tag(ev) {
        EventTag::Start => XmlEvent::Start { name: start_name(ev), attrs: start_attrs(ev) },
        EventTag::Empty => XmlEvent::Empty { name: start_name(ev), attrs: start_attrs(ev) },
        EventTag::End => XmlEvent::End,
        EventTag::Text => XmlEvent::Text(event_content(ev)),
        EventTag::GeneralRef => XmlEvent::Ref(event_content(ev)),
        EventTag::CData => XmlEvent::CData(event_content(ev)),
        EventTag::Comment => XmlEvent::Comment(event_content(ev)),
        EventTag::Decl => XmlEvent::Decl(event_content(ev)),
        EventTag::PI => XmlEvent::PI(event_content(ev)),
        EventTag::DocType => XmlEvent::DocType(event_content(ev)),
        EventTag::Eof => XmlEvent::Eof,
    }
}

// ---------------------------------------------------------------------------------------------
// Whitespace

/// Unicode `White_Space`, the set `char::is_whitespace` tests.
pub open spec fn is_ws(c: char) -> bool {
    ||| ('\t' <= c && c <= '\r')
    ||| c == ' '
    ||| c == '\u{85}'
    ||| c == '\u{a0}'
    ||| c == '\u{1680}'
    ||| ('\u{2000}' <= c && c <= '\u{200a}')
    ||| c == '\u{2028}'
    ||| c == '\u{2029}'
    ||| c == '\u{202f}'
    ||| c == '\u{205f}'
    ||| c == '\u{3000}'
}

/// `char::is_whitespace`.
pub fn is_whitespace(c: char) -> (r: bool)
    ensures
        r == is_ws(c),
{
    ('\t' <= c && c <= '\r') || c == ' ' || c == '\u{85}' || c == '\u{a0}' || c == '\u{1680}'
        || ('\u{2000}' <= c && c <= '\u{200a}') || c == '\u{2028}' || c == '\u{2029}'
        || c == '\u{202f}' || c == '\u{205f}' || c == '\u{3000}'
}

/// First index at or after `i` that holds no whitespace (`s.len()` if none).
pub open spec fn skip_ws(s: Seq<char>, i: int) -> int
    decreases s.len() - i,
{
    if i >= s.len() {
        s.len() as int
    } else if is_ws(s[i]) {
        skip_ws(s, i + 1)
    } else {
        i
    }
}

pub proof fn lemma_skip_ws(s: Seq<char>, i: int)
    requires
        0 <= i <= s.len(),
    ensures
        i <= skip_ws(s, i) <= s.len(),
        forall|j: int| i <= j < skip_ws(s, i) ==> is_ws(#[trigger] s[j]),
        skip_ws(s, i) < s.len() ==> !is_ws(s[skip_ws(s, i)]),
    decreases s.len() - i,
{
    if i < s.len() && is_ws(s[i]) {
        lemma_skip_ws(s, i + 1);
    }
}

/// First index at or after `i` holding `c` (-1 if none).
pub open spec fn find_char(s: Seq<char>, i: int, c: char) -> int
    decreases s.len() - i,
{
    if i >= s.len() {
        -1
    } else if s[i] == c {
        i
    } else {
        find_char(s, i + 1, c)
    }
}

pub proof fn lemma_find_char(s: Seq<char>, i: int, c: char)
    requires
        0 <= i,
    ensures
        find_char(s, i, c) == -1 || i <= find_char(s, i, c) < s.len(),
        find_char(s, i, c) >= 0 ==> s[find_char(s, i, c)] == c,
        forall|j: int| i <= j < s.len() && (find_char(s, i, c) < 0 || j < find_char(s, i, c))
            ==> #[trigger] s[j] != c,
    decreases s.len() - i,
{
    if i < s.len() && s[i] != c {
        lemma_find_char(s, i + 1, c);
    }
}

/// First index at or after `i` holding `=` or whitespace (-1 if none).
pub open spec fn find_name_end(s: Seq<char>, i: int) -> int
    decreases s.len() - i,
{
    if i >= s.len() {
        -1
    } else if s[i] == '=' || is_ws(s[i]) {
        i
    } else {
        find_name_end(s, i + 1)
    }
}

pub proof fn lemma_find_name_end(s: Seq<char>, i: int)
    requires
        0 <= i,
    ensures
        find_name_end(s, i) == -1 || i <= find_name_end(s, i) < s.len(),
        forall|j: int| i <= j < s.len() && (find_name_end(s, i) < 0 || j < find_name_end(s, i))
            ==> !(#[trigger] s[j] == '=' || is_ws(s[j])),
        find_name_end(s, i) >= 0 ==> (s[find_name_end(s, i)] == '=' || is_ws(s[find_name_end(s, i)])),
    decreases s.len() - i,
{
    if i < s.len() && !(s[i] == '=' || is_ws(s[i])) {
        lemma_find_name_end(s, i + 1);
    }
}

pub fn skip_ws_exec(s: &Vec<char>, i: usize) -> (r: usize)
    requires
        i <= s@.len(),
    ensures
        r == skip_ws(s@, i as int),
{
    proof {
        lemma_skip_ws(s@, i as int);
    }
    let mut j = i;
    while j < s.len() && is_whitespace(s[j])
        invariant
            i <= j <= s@.len(),
            skip_ws(s@, j as int) == skip_ws(s@, i as int),
        decreases s@.len() - j,
    {
        j = j + 1;
    }
    j
}

fn find_char_exec(s: &Vec<char>, i: usize, c: char) -> (r: Option<usize>)
    requires
        i <= s@.len(),
    ensures
        r matches Some(j) ==> j as int == find_char(s@, i as int, c),
        r is None ==> find_char(s@, i as int, c) == -1,
{
    let mut j = i;
    while j < s.len()
        invariant
            i <= j <= s@.len(),
            find_char(s@, j as int, c) == find_char(s@, i as int, c),
        decreases s@.len() - j,
    {
        if s[j] == c {
            return Some(j);
        }
        j = j + 1;
    }
    None
}

fn find_name_end_exec(s: &Vec<char>, i: usize) -> (r: Option<usize>)
    requires
        i <= s@.len(),
    ensures
        r matches Some(j) ==> j as int == find_name_end(s@, i as int),
        r is None ==> find_name_end(s@, i as int) == -1,
{
    let mut j = i;
    while j < s.len()
        invariant
            i <= j <= s@.len(),
            find_name_end(s@, j as int) == find_name_end(s@, i as int),
        decreases s@.len() - j,
    {
        if s[j] == '=' || is_whitespace(s[j]) {
            return Some(j);
        }
        j = j + 1;
    }
    None
}

/// Index just past the last character before `j` that is no whitespace (0 if none).
pub open spec fn rskip_ws(s: Seq<char>, j: int) -> int
    decreases j,
{
    if j <= 0 || j > s.len() {
        0
    } else if is_ws(s[j - 1]) {
        rskip_ws(s, j - 1)
    } else {
        j
    }
}

pub proof fn lemma_rskip_ws(s: Seq<char>, j: int)
    requires
        0 <= j <= s.len(),
    ensures
        0 <= rskip_ws(s, j) <= j,
        forall|k: int| rskip_ws(s, j) <= k < j ==> is_ws(#[trigger] s[k]),
        rskip_ws(s, j) > 0 ==> !is_ws(s[rskip_ws(s, j) - 1]),
    decreases j,
{
    if j > 0 && is_ws(s[j - 1]) {
        lemma_rskip_ws(s, j - 1);
    }
}

/// `s` without leading and trailing whitespace (`str::trim`).
pub open spec fn trimmed(s: Seq<char>) -> Seq<char> {
    let a = skip_ws(s, 0);
    let b = rskip_ws(s, s.len() as int);
    if a >= b {
        seq![]
    } else {
        s.subrange(a, b)
    }
}

/// `s` without leading whitespace (`str::trim_start`).
pub open spec fn trimmed_start(s: Seq<char>) -> Seq<char> {
    s.subrange(skip_ws(s, 0), s.len() as int)
}

/// `str::trim`: `s` without leading and trailing whitespace.
pub fn trim(s: &str) -> (r: String)
    ensures
        r@ == trimmed(s@),
{
    let cs = chars_of(s);
    proof {
        lemma_skip_ws(cs@, 0);
        lemma_rskip_ws(cs@, cs@.len() as int);
    }
    let a = skip_ws_exec(&cs, 0);
    let mut b = cs.len();
    while b > 0 && is_whitespace(cs[b - 1])
        invariant
            b <= cs@.len(),
            rskip_ws(cs@, b as int) == rskip_ws(cs@, cs@.len() as int),
        decreases b,
    {
        b = b - 1;
    }
    if a >= b {
        String::new()
    } else {
        string_from(slice_range(cs.as_slice(), a, b))
    }
}

// ---------------------------------------------------------------------------------------------
// Attribute lists

/// The attributes written in `s` from position `i` on, each with the whitespace before it,
/// and the whitespace left after the last one; or the kind of error.
pub open spec fn attrs_from(s: Seq<char>, i: int) -> Result<(Seq<AttrV>, Seq<char>), DomErrorKind>
    decreases s.len() - i,
{
    if i < 0 || i > s.len() {
        Ok((seq![], seq![]))
    } else {
        let t = skip_ws(s, i);
        let ws = s.subrange(i, t);
        if t >= s.len() {
            Ok((seq![], ws))
        } else {
            let ne = find_name_end(s, t);
            if ne < t {
                Err(DomErrorKind::Xml)
            } else {
                let name = s.subrange(t, ne);
                let e = skip_ws(s, ne);
                if e < ne || e >= s.len() || s[e] != '=' {
                    Err(DomErrorKind::Xml)
                } else {
                    let q = skip_ws(s, e + 1);
                    if q <= e || q >= s.len() || (s[q] != '"' && s[q] != '\'') {
                        Err(DomErrorKind::Xml)
                    } else {
                        let end = find_char(s, q + 1, s[q]);
                        if end <= q {
                            Err(DomErrorKind::Xml)
                        } else {
                            match unescape_of(s.subrange(q + 1, end)) {
                                Err(unrecognized) => Err(
                                    if unrecognized {
                                        DomErrorKind::Unsupported
                                    } else {
                                        DomErrorKind::Xml
                                    },
                                ),
                                Ok(v) => match {
                                    proof {
                                        lemma_skip_ws(s, i);
                                        lemma_find_char(s, q + 1, s[q]);
                                    }
                                    attrs_from(s, end + 1)
                                } {
                                    Ok((rest, cw)) => Ok(
                                        (seq![AttrV { name: name, value: v, ws: ws }] + rest, cw),
                                    ),
                                    Err(k) => Err(k),
                                },
                            }
                        }
                    }
                }
            }
        }
    }
}

/// The attributes in a start tag's raw attribute text.
pub open spec fn attrs_spec(raw: Seq<char>) -> Result<(Seq<AttrV>, Seq<char>), DomErrorKind> {
    attrs_from(raw, 0)
}

/// Splits the raw attribute text of a start tag (everything after the tag name) into
/// attributes, keeping the whitespace before each one and after the last.
pub fn parse_attributes(raw: &str) -> (r: Result<(Vec<Attr>, String), DomError>)
    ensures
        match (r, attrs_spec(raw@)) {
            (Ok((a, w)), Ok((sa, sw))) => attrs_view(a@) == sa && w@ == sw,
            (Err(e), Err(k)) => e.kind() == k,
            _ => false,
        },
{
    let s = chars_of(raw);
    let mut attrs: Vec<Attr> = Vec::new();
    let mut i: usize = 0;
    loop
        invariant
            s@ == raw@,
            i <= s@.len(),
            attrs_spec(raw@) == match attrs_from(s@, i as int) {
                Ok((rest, cw)) => Ok::<(Seq<AttrV>, Seq<char>), DomErrorKind>((attrs_view(attrs@) + rest, cw)),
                Err(k) => Err(k),
            },
        decreases s@.len() - i,
    {
        let ghost sv = s@;
        proof {
            lemma_skip_ws(sv, i as int);
        }
        let t = skip_ws_exec(&s, i);
        let ws = string_from(slice_range(s.as_slice(), i, t));
        if t >= s.len() {
            proof {
                assert(attrs_view(attrs@) + seq![] =~= attrs_view(attrs@));
            }
            return Ok((attrs, ws));
        }
        proof {
            lemma_find_name_end(sv, t as int);
        }
        let ne = match find_name_end_exec(&s, t) {
            Some(ne) => ne,
            None => {
                let mut m = "attribute without value: ".to_owned();
                m.append(string_from(slice_range(s.as_slice(), t, s.len())).as_str());
                return Err(DomError::Xml(m));
            },
        };
        let name = string_from(slice_range(s.as_slice(), t, ne));
        proof {
            lemma_skip_ws(sv, ne as int);
        }
        let e = skip_ws_exec(&s, ne);
        if e >= s.len() || s[e] != '=' {
            let mut m = "attribute '".to_owned();
            m.append(name.as_str());
            m.append("' has no '='");
            return Err(DomError::Xml(m));
        }
        proof {
            lemma_skip_ws(sv, e + 1);
        }
        let q = skip_ws_exec(&s, e + 1);
        if q >= s.len() || (s[q] != '"' && s[q] != '\'') {
            let mut m = "attribute '".to_owned();
            m.append(name.as_str());
            m.append("' value is not quoted");
            return Err(DomError::Xml(m));
        }
        let quote = s[q];
        proof {
            lemma_find_char(sv, q + 1, quote);
        }
        let end = match find_char_exec(&s, q + 1, quote) {
            Some(end) => end,
            None => {
                let mut m = "unterminated value for attribute '".to_owned();
                m.append(name.as_str());
                m.append("'");
                return Err(DomError::Xml(m));
            },
        };
        let raw_value = string_from(slice_range(s.as_slice(), q + 1, end));
        let value = match unescape(raw_value.as_str()) {
            Ok(v) => v,
            Err((unrecognized, err)) => {
                let mut m = "attribute '".to_owned();
                m.append(name.as_str());
                m.append("': ");
                m.append(escape_error_text(&err).as_str());
                return Err(
                    if unrecognized {
                        DomError::Unsupported(m)
                    } else {
                        DomError::Xml(m)
                    },
                );
            },
        };
        let ghost before = attrs@;
        attrs.push(Attr { name, value, ws });
        proof {
            assert(attrs_view(attrs@) =~= attrs_view(before) + seq![attrs@.last()@]);
            match attrs_from(sv, end + 1) {
                Ok((rest, cw)) => {
                    assert(attrs_view(before) + (seq![attrs@.last()@] + rest) =~= attrs_view(attrs@) + rest);
                },
                Err(k) => {},
            }
        }
        i = end + 1;
    }
}

// ---------------------------------------------------------------------------------------------
// Escaping

/// How a character is written in text content.
pub open spec fn text_char(c: char) -> Seq<char> {
    if c == '&' {
        "&amp;"@
    } else if c == '<' {
        "&lt;"@
    } else if c == '>' {
        "&gt;"@
    } else if c == '"' {
        "&quot;"@
    } else {
        seq![c]
    }
}

/// How a character is written in an attribute value.
pub open spec fn attr_char(c: char) -> Seq<char> {
    if c == '\n' {
        "&#10;"@
    } else if c == '\r' {
        "&#13;"@
    } else if c == '\t' {
        "&#9;"@
    } else {
        text_char(c)
    }
}

/// Text content escaped: `& < > "` become references.
pub open spec fn escaped_text(s: Seq<char>) -> Seq<char>
    decreases s.len(),
{
    if s.len() == 0 {
        seq![]
    } else {
        escaped_text(s.drop_last()) + text_char(s.last())
    }
}

/// An attribute value escaped: as text, and tab, newline and carriage return as `&#9;`,
/// `&#10;`, `&#13;`.
pub open spec fn escaped_attr(s: Seq<char>) -> Seq<char>
    decreases s.len(),
{
    if s.len() == 0 {
        seq![]
    } else {
        escaped_attr(s.drop_last()) + attr_char(s.last())
    }
}

/// Appends `s` to `out`, escaping `& < > "`.
pub fn escape_text(s: &str, out: &mut String)
    ensures
        final(out)@ == old(out)@ + escaped_text(s@),
{
    let cs = chars_of(s);
    let ghost start = out@;
    let mut i: usize = 0;
    while i < cs.len()
        invariant
            i <= cs@.len(),
            cs@ == s@,
            out@ == start + escaped_text(cs@.subrange(0, i as int)),
        decreases cs@.len() - i,
    {
        let c = cs[i];
        let ghost before = out@;
        if c == '&' {
            out.append("&amp;");
        } else if c == '<' {
            out.append("&lt;");
        } else if c == '>' {
            out.append("&gt;");
        } else if c == '"' {
            out.append("&quot;");
        } else {
            push_char(out, c);
        }
        proof {
            assert(cs@.subrange(0, i + 1).drop_last() =~= cs@.subrange(0, i as int));
            assert(out@ == before + text_char(c));
        }
        i = i + 1;
    }
    proof {
        assert(cs@.subrange(0, cs@.len() as int) =~= cs@);
    }
}

/// Appends `s` to `out` as an attribute value: `& < > "` and tab, newline, carriage return
/// become references.
pub fn escape_attr(s: &str, out: &mut String)
    ensures
        final(out)@ == old(out)@ + escaped_attr(s@),
{
    let cs = chars_of(s);
    let ghost start = out@;
    let mut i: usize = 0;
    while i < cs.len()
        invariant
            i <= cs@.len(),
            cs@ == s@,
            out@ == start + escaped_attr(cs@.subrange(0, i as int)),
        decreases cs@.len() - i,
    {
        let c = cs[i];
        let ghost before = out@;
        if c == '\n' {
            out.append("&#10;");
        } else if c == '\r' {
            out.append("&#13;");
        } else if c == '\t' {
            out.append("&#9;");
        } else if c == '&' {
            out.append("&amp;");
        } else if c == '<' {
            out.append("&lt;");
        } else if c == '>' {
            out.append("&gt;");
        } else if c == '"' {
            out.append("&quot;");
        } else {
            push_char(out, c);
        }
        proof {
            assert(cs@.subrange(0, i + 1).drop_last() =~= cs@.subrange(0, i as int));
            assert(out@ == before + attr_char(c));
        }
        i = i + 1;
    }
    proof {
        assert(cs@.subrange(0, cs@.len() as int) =~= cs@);
    }
}

} // verus!
