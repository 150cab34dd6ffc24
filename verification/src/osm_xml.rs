//! Road graphs read straight from OpenStreetMap XML.
//!
//! quick-xml splits the document into events; [`osm_road_graph`] picks out
//! the `node`, `way` and `nd` tags as the graph needs them, feeds them to
//! an [`OsmCollector`] and hands back the graph together with the raw
//! coordinates of every `node` element, which the caller reads as numbers.
//!
//! A `node` tag (opening or empty) counts when it gives an `id`, a `lat` and
//! a `lon`; an `nd` tag counts only inside an open `way` element and then
//! names the node of its first `ref` attribute. An attribute that
//! quick-xml cannot read, or an `id` or `ref` that is not an `i64`, makes
//! the whole document unreadable, but only on the tags that are looked at.
use crate::edge_text::{all_digits, digits_value};
use crate::graph::Graph;
use crate::osm::{is_node_order, osm_start, osm_step, road_graph, OsmCollector, OsmEvent, OsmModel};
use quick_xml::events::BytesStart;
use quick_xml::events::Event::{Empty, End, Eof, Start};
use quick_xml::Reader;
use vstd::prelude::*;
use XmlTag::{Close, Open, Other, SelfClosing};

verus! {

/// The kind of event that quick-xml reports for a piece of the document.
#[derive(Debug, Clone, Copy, PartialEq, Eq, Structural)]
pub enum XmlTag {
    /// An opening tag, `<name ...>`.
    Open,
    /// A self-closing tag, `<name .../>`.
    SelfClosing,
    /// A closing tag, `</name>`.
    Close,
    /// Anything else: text, comments, declarations.
    Other,
}

/// One event of an XML document, as plain bytes.
pub struct XmlEvent {
    pub tag: XmlTag,
    /// The element's name; empty for [`XmlTag::Other`].
    pub name: Vec<u8>,
    /// The attributes of an opening or self-closing tag in order, each a
    /// key and its raw value, `None` for one that is malformed or repeats a
    /// key.
    pub attributes: Vec<Option<(Vec<u8>, Vec<u8>)>>,
}

/// An [`XmlEvent`] as sequences.
pub struct XmlEventView {
    pub tag: XmlTag,
    pub name: Seq<u8>,
    pub attributes: Seq<Option<(Seq<u8>, Seq<u8>)>>,
}

/// One attribute as sequences.
pub open spec fn attribute_view(a: Option<(Vec<u8>, Vec<u8>)>) -> Option<(Seq<u8>, Seq<u8>)> {
    match a {
        Some((k, v)) => Some((k@, v@)),
        None => None,
    }
}

impl View for XmlEvent {
    type V = XmlEventView;

    open spec fn view(&self) -> XmlEventView {
        XmlEventView {
            tag: self.tag,
            name: self.name@,
            attributes: self.attributes@.map_values(|a: Option<(Vec<u8>, Vec<u8>)>| attribute_view(a)),
        }
    }
}

/// A list of events as views.
pub open spec fn event_views(v: Seq<XmlEvent>) -> Seq<XmlEventView> {
    v.map_values(|e: XmlEvent| e@)
}

#[verifier::external_type_specification]
#[verifier::external_body]
pub struct ExXmlError(quick_xml::Error);

/// The events that quick-xml's `Reader`, trimming text, reads from `xml`
/// up to the end of the document, or `None` where it reports an error first.
pub uninterp spec fn xml_event_list(xml: Seq<u8>) -> Option<Seq<XmlEventView>>;

/// Runs quick-xml's `Reader::read_event` over `xml` (with `trim_text`) until
/// `Event::Eof`, turning each event into an [`XmlEvent`]: an opening or
/// self-closing tag with its name and its attributes as
/// `BytesStart::attributes` yields them (key and raw value, `None` for an
/// error), a closing tag with its name, anything else with an empty name.
/// Claimed: the result is [`xml_event_list`] of `xml`, an error exactly
/// where that is `None`. What quick-xml reads is not stated.
#[verifier::external_body]
fn xml_events(xml: &[u8]) -> (r: Result<Vec<XmlEvent>, quick_xml::Error>)
    ensures
        match r {
            Ok(v) => xml_event_list(xml@) == Some(event_views(v@)),
            Err(_) => xml_event_list(xml@) is None,
        },
{
    let mut reader = Reader::from_reader(xml);
    reader.config_mut().trim_text(true);
    let mut events = Vec::new();
    loop {
        let (tag, e) = match reader.read_event()? {
            Start(e) => (Open, e),
            Empty(e) => (SelfClosing, e),
            End(e) => (Close, BytesStart::from(e.name()).into_owned()),
            Eof => return Ok(events),
            _ => (Other, BytesStart::new("")),
        };
        let attributes = e.attributes().map(|a| a.ok().map(|a| (a.key.0.to_vec(), a.value.to_vec())));
        events.push(XmlEvent { tag, name: e.name().0.to_vec(), attributes: attributes.collect() });
    }
}

/// The bytes of `node`.
pub open spec fn node_name() -> Seq<u8> {
    seq![110u8, 111u8, 100u8, 101u8]
}

/// The bytes of `way`.
pub open spec fn way_name() -> Seq<u8> {
    seq![119u8, 97u8, 121u8]
}

/// The bytes of `nd`.
pub open spec fn nd_name() -> Seq<u8> {
    seq![110u8, 100u8]
}

/// The bytes of `id`.
pub open spec fn id_key() -> Seq<u8> {
    seq![105u8, 100u8]
}

/// The bytes of `lat`.
pub open spec fn lat_key() -> Seq<u8> {
    seq![108u8, 97u8, 116u8]
}

/// The bytes of `lon`.
pub open spec fn lon_key() -> Seq<u8> {
    seq![108u8, 111u8, 110u8]
}

/// The bytes of `ref`.
pub open spec fn ref_key() -> Seq<u8> {
    seq![114u8, 101u8, 102u8]
}

/// The number that `i64::from_str` reads from `s`: an optional `'+'` or
/// `'-'`, then one or more decimal digits, within the range of `i64`.
pub open spec fn parse_i64(s: Seq<u8>) -> Option<i64> {
    let signed = s.len() > 0 && (s[0] == 43 || s[0] == 45);
    let d = if signed { s.drop_first() } else { s };
    let v: int = if signed && s[0] == 45 { -digits_value(d) } else { digits_value(d) as int };
    if d.len() > 0 && all_digits(d) && i64::MIN <= v <= i64::MAX {
        Some(v as i64)
    } else {
        None
    }
}

/// The `id` (as a number), `lat` and `lon` (as raw bytes) that the
/// attributes `a` of a `node` tag give, or `None` if one of them is
/// malformed or its `id` is not an `i64`.
pub open spec fn node_attributes(a: Seq<Option<(Seq<u8>, Seq<u8>)>>) -> Option<
    (Option<i64>, Option<Seq<u8>>, Option<Seq<u8>>),
>
    decreases a.len(),
{
    if a.len() == 0 {
        Some((None, None, None))
    } else {
        match node_attributes(a.drop_last()) {
            None => None,
            Some((id, lat, lon)) => match a.last() {
                None => None,
                Some((k, v)) => if k == id_key() {
                    match parse_i64(v) {
                        Some(x) => Some((Some(x), lat, lon)),
                        None => None,
                    }
                } else if k == lat_key() {
                    Some((id, Some(v), lon))
                } else if k == lon_key() {
                    Some((id, lat, Some(v)))
                } else {
                    Some((id, lat, lon))
                },
            },
        }
    }
}

/// The node that the first `ref` attribute among `a` names (`None` inside
/// when there is none), or `None` if an attribute before it is malformed or
/// its value is not an `i64`.
pub open spec fn first_ref(a: Seq<Option<(Seq<u8>, Seq<u8>)>>) -> Option<Option<i64>>
    decreases a.len(),
{
    if a.len() == 0 {
        Some(None)
    } else {
        match a[0] {
            None => None,
            Some((k, v)) => if k == ref_key() {
                match parse_i64(v) {
                    Some(x) => Some(Some(x)),
                    None => None,
                }
            } else {
                first_ref(a.drop_first())
            },
        }
    }
}

/// What one event does while `in_way` tells whether a `way` element is
/// open: whether one is open after it, the element it hands to the
/// collector, and the `id`, `lat` and `lon` it records for a `node` tag;
/// `None` if the event makes the document unreadable.
pub open spec fn xml_step(in_way: bool, e: XmlEventView) -> Option<
    (bool, Option<OsmEvent>, Option<(Option<i64>, Option<Seq<u8>>, Option<Seq<u8>>)>),
> {
    match e.tag {
        XmlTag::Open | XmlTag::SelfClosing => if e.name == node_name() {
            match node_attributes(e.attributes) {
                None => None,
                Some((id, lat, lon)) => Some(
                    (
                        in_way,
                        if id is Some && lat is Some && lon is Some {
                            Some(OsmEvent::PositionedNode(id->0))
                        } else {
                            None
                        },
                        Some((id, lat, lon)),
                    ),
                ),
            }
        } else if e.name == way_name() {
            if e.tag == XmlTag::Open {
                Some((true, Some(OsmEvent::WayStart), None))
            } else {
                Some((in_way, Some(OsmEvent::EmptyWay), None))
            }
        } else if e.name == nd_name() && in_way {
            match first_ref(e.attributes) {
                None => None,
                Some(Some(r)) => Some((in_way, Some(OsmEvent::NodeRef(r)), None)),
                Some(None) => Some((in_way, None, None)),
            }
        } else {
            Some((in_way, None, None))
        },
        XmlTag::Close => if e.name == way_name() {
            Some((false, Some(OsmEvent::WayEnd), None))
        } else {
            Some((in_way, None, None))
        },
        XmlTag::Other => Some((in_way, None, None)),
    }
}

/// The walk over the events `es`: whether a `way` is open at the end, the
/// elements handed to the collector and the attributes of the `node` tags,
/// in order; `None` if an event makes the document unreadable.
pub open spec fn xml_walk(es: Seq<XmlEventView>) -> Option<
    (bool, Seq<OsmEvent>, Seq<(Option<i64>, Option<Seq<u8>>, Option<Seq<u8>>)>),
>
    decreases es.len(),
{
    if es.len() == 0 {
        Some((false, Seq::empty(), Seq::empty()))
    } else {
        match xml_walk(es.drop_last()) {
            None => None,
            Some((w, os, ns)) => match xml_step(w, es.last()) {
                None => None,
                Some((w2, o, n)) => Some(
                    (
                        w2,
                        match o {
                            Some(x) => os.push(x),
                            None => os,
                        },
                        match n {
                            Some(x) => ns.push(x),
                            None => ns,
                        },
                    ),
                ),
            },
        }
    }
}

/// The collector after the elements `es`.
pub open spec fn osm_run(es: Seq<OsmEvent>) -> OsmModel
    decreases es.len(),
{
    if es.len() == 0 {
        osm_start()
    } else {
        osm_step(osm_run(es.drop_last()), es.last())
    }
}

/// The attributes of a `node` tag as sequences.
pub open spec fn node_view(n: (Option<i64>, Option<Vec<u8>>, Option<Vec<u8>>)) -> (
    Option<i64>,
    Option<Seq<u8>>,
    Option<Seq<u8>>,
) {
    (
        n.0,
        match n.1 {
            Some(v) => Some(v@),
            None => None,
        },
        match n.2 {
            Some(v) => Some(v@),
            None => None,
        },
    )
}

/// Why an OSM document could not be read.
#[derive(Debug, Clone, Copy, PartialEq, Eq, Structural)]
pub enum OsmError {
    /// quick-xml found the document malformed.
    BadXml,
    /// A `node` or `nd` tag has a malformed attribute or an id that is not
    /// an `i64`.
    BadElement,
}

/// `a` holds the bytes `b`.
fn bytes_are(a: &Vec<u8>, b: &[u8]) -> (r: bool)
    ensures
        r == (a@ == b@),
{
    if a.len() != b.len() {
        return false;
    }
    let mut i: usize = 0;
    while i < a.len()
        invariant
            a@.len() == b@.len(),
            i <= a@.len(),
            forall|k: int| 0 <= k < i ==> a@[k] == b@[k],
        decreases a.len() - i,
    {
        if a[i] != b[i] {
            return false;
        }
        i = i + 1;
    }
    assert(a@ =~= b@);
    true
}

/// The number that `i64::from_str` reads from `s`.
pub fn parse_i64_bytes(s: &Vec<u8>) -> (r: Option<i64>)
    ensures
        r == parse_i64(s@),
{
    let ghost t = s@;
    let signed = s.len() > 0 && (s[0] == 43 || s[0] == 45);
    let negative = signed && s[0] == 45;
    let start: usize = if signed { 1 } else { 0 };
    let ghost d = t.skip(start as int);
    proof {
        if signed {
            assert(t.drop_first() =~= d);
        } else {
            assert(t =~= d);
        }
    }
    if start == s.len() {
        return None;
    }
    // the largest magnitude the sign allows
    let limit: u64 = if negative { 9223372036854775808 } else { 9223372036854775807 };
    let mut value: u64 = 0;
    let mut k = start;
    while k < s.len()
        invariant
            start <= k <= s@.len(),
            t == s@,
            d == t.skip(start as int),
            d.len() > 0,
            signed == (t.len() > 0 && (t[0] == 43 || t[0] == 45)),
            negative == (signed && t[0] == 45),
            signed ==> t.drop_first() == d,
            !signed ==> t == d,
            limit == (if negative { 9223372036854775808u64 } else { 9223372036854775807u64 }),
            forall|j: int| 0 <= j < k - start ==> 48 <= #[trigger] d[j] <= 57,
            value == digits_value(d.take(k - start)),
            value <= limit,
        decreases s.len() - k,
    {
        let c = s[k];
        if c < 48 || c > 57 {
            proof {
                assert(d[k - start] == c);
                assert(!all_digits(d));
            }
            return None;
        }
        proof {
            assert(d.take(k - start + 1).drop_last() =~= d.take(k - start));
            assert(d.take(k - start + 1).last() == c);
        }
        if value > (limit - (c - 48) as u64) / 10 {
            proof {
                assert(value * 10 + (c - 48) > limit) by (nonlinear_arith)
                    requires
                        value > (limit - (c - 48) as u64) / 10,
                        c >= 48,
                        c <= 57,
                ;
                if all_digits(d) {
                    crate::edge_text::lemma_digits_prefix(d, k - start + 1);
                    assert(digits_value(d) > limit);
                }
            }
            return None;
        }
        proof {
            assert(value * 10 + (c - 48) <= limit) by (nonlinear_arith)
                requires
                    value <= (limit - (c - 48) as u64) / 10,
                    c >= 48,
                    c <= 57,
            ;
        }
        value = value * 10 + (c - 48) as u64;
        k = k + 1;
    }
    proof {
        assert(d.take(d.len() as int) =~= d);
    }
    if negative {
        if value == 9223372036854775808 {
            Some(-9223372036854775807i64 - 1)
        } else {
            Some(-(value as i64))
        }
    } else {
        Some(value as i64)
    }
}


/// The attributes of the `node` tags as sequences.
pub open spec fn node_views(v: Seq<(Option<i64>, Option<Vec<u8>>, Option<Vec<u8>>)>) -> Seq<
    (Option<i64>, Option<Seq<u8>>, Option<Seq<u8>>),
> {
    v.map_values(|n: (Option<i64>, Option<Vec<u8>>, Option<Vec<u8>>)| node_view(n))
}

/// The attributes of one tag as sequences.
pub open spec fn attribute_views(a: Seq<Option<(Vec<u8>, Vec<u8>)>>) -> Seq<
    Option<(Seq<u8>, Seq<u8>)>,
> {
    a.map_values(|x: Option<(Vec<u8>, Vec<u8>)>| attribute_view(x))
}

/// `r` is what reading the events `es` gives: the error where the walk
/// fails, else the node ids in increasing order, the road graph on them and
/// the attributes of every `node` tag in document order.
pub open spec fn is_reading_of(
    es: Seq<XmlEventView>,
    r: Result<(Vec<i64>, Graph, Vec<(Option<i64>, Option<Vec<u8>>, Option<Vec<u8>>)>), OsmError>,
) -> bool {
    match xml_walk(es) {
        None => r == Err::<(Vec<i64>, Graph, Vec<(Option<i64>, Option<Vec<u8>>, Option<Vec<u8>>)>), OsmError>(OsmError::BadElement),
        Some((_, os, ns)) => match r {
            Ok((ids, g, nodes)) => {
                &&& is_node_order(ids@, osm_run(os))
                &&& g@ == road_graph(osm_run(os), ids@)
                &&& node_views(nodes@) == ns
            },
            Err(_) => false,
        },
    }
}

/// Once a prefix of the attributes fails, all of them do.
proof fn lemma_node_attributes_none(a: Seq<Option<(Seq<u8>, Seq<u8>)>>, n: int)
    requires
        0 <= n <= a.len(),
        node_attributes(a.take(n)) is None,
    ensures
        node_attributes(a) is None,
    decreases a.len() - n,
{
    if n == a.len() {
        assert(a.take(n) =~= a);
    } else {
        assert(a.take(n + 1).drop_last() =~= a.take(n));
        lemma_node_attributes_none(a, n + 1);
    }
}

/// Once a prefix of the events fails, all of them do.
proof fn lemma_walk_none(es: Seq<XmlEventView>, n: int)
    requires
        0 <= n <= es.len(),
        xml_walk(es.take(n)) is None,
    ensures
        xml_walk(es) is None,
    decreases es.len() - n,
{
    if n == es.len() {
        assert(es.take(n) =~= es);
    } else {
        assert(es.take(n + 1).drop_last() =~= es.take(n));
        lemma_walk_none(es, n + 1);
    }
}

/// A copy of `v`.
fn copy_bytes(v: &Vec<u8>) -> (c: Vec<u8>)
    ensures
        c@ == v@,
{
    let c = v.clone();
    assert(c@ =~= v@);
    c
}

/// The `id`, `lat` and `lon` that the attributes `a` of a `node` tag give.
fn node_attributes_of(a: &Vec<Option<(Vec<u8>, Vec<u8>)>>) -> (r: Option<
    (Option<i64>, Option<Vec<u8>>, Option<Vec<u8>>),
>)
    ensures
        match node_attributes(attribute_views(a@)) {
            None => r is None,
            Some(n) => r matches Some(m) && node_view(m) == n,
        },
{
    let ghost av = attribute_views(a@);
    let mut id: Option<i64> = None;
    let mut lat: Option<Vec<u8>> = None;
    let mut lon: Option<Vec<u8>> = None;
    let mut i: usize = 0;
    assert(av.take(0) =~= Seq::<Option<(Seq<u8>, Seq<u8>)>>::empty());
    while i < a.len()
        invariant
            i <= a@.len(),
            av == attribute_views(a@),
            node_attributes(av.take(i as int)) == Some(node_view((id, lat, lon))),
        decreases a.len() - i,
    {
        proof {
            assert(av.take(i + 1).drop_last() =~= av.take(i as int));
            assert(av.take(i + 1).last() == attribute_view(a@[i as int]));
        }
        match &a[i] {
            None => {
                proof {
                    lemma_node_attributes_none(av, i + 1);
                }
                return None;
            },
            Some((k, v)) => {
                if bytes_are(k, &[105u8, 100u8]) {
                    proof {
                        assert(k@ == id_key());
                    }
                    match parse_i64_bytes(v) {
                        None => {
                            proof {
                                lemma_node_attributes_none(av, i + 1);
                            }
                            return None;
                        },
                        Some(x) => {
                            id = Some(x);
                        },
                    }
                } else if bytes_are(k, &[108u8, 97u8, 116u8]) {
                    proof {
                        assert(k@ == lat_key());
                        assert(k@ != id_key());
                    }
                    lat = Some(copy_bytes(v));
                } else if bytes_are(k, &[108u8, 111u8, 110u8]) {
                    proof {
                        assert(k@ == lon_key());
                        assert(k@ != id_key());
                        assert(k@ != lat_key());
                    }
                    lon = Some(copy_bytes(v));
                } else {
                    proof {
                        assert(k@ != id_key());
                        assert(k@ != lat_key());
                        assert(k@ != lon_key());
                    }
                }
            },
        }
        i = i + 1;
    }
    assert(av.take(a.len() as int) =~= av);
    Some((id, lat, lon))
}

/// The node that the first `ref` attribute among `a` names.
fn first_ref_of(a: &Vec<Option<(Vec<u8>, Vec<u8>)>>) -> (r: Option<Option<i64>>)
    ensures
        r == first_ref(attribute_views(a@)),
{
    let ghost av = attribute_views(a@);
    let mut i: usize = 0;
    assert(av.skip(0) =~= av);
    while i < a.len()
        invariant
            i <= a@.len(),
            av == attribute_views(a@),
            first_ref(av) == first_ref(av.skip(i as int)),
        decreases a.len() - i,
    {
        proof {
            assert(av.skip(i as int)[0] == attribute_view(a@[i as int]));
            assert(av.skip(i as int).drop_first() =~= av.skip(i + 1));
        }
        match &a[i] {
            None => {
                return None;
            },
            Some((k, v)) => {
                if bytes_are(k, &[114u8, 101u8, 102u8]) {
                    proof {
                        assert(k@ == ref_key());
                    }
                    return match parse_i64_bytes(v) {
                        Some(x) => Some(Some(x)),
                        None => None,
                    };
                }
                proof {
                    assert(k@ != ref_key());
                }
            },
        }
        i = i + 1;
    }
    assert(av.skip(a.len() as int) =~= Seq::<Option<(Seq<u8>, Seq<u8>)>>::empty());
    Some(None)
}

/// Takes in one event while `in_way` tells whether a `way` element is open:
/// hands its element to `collector`, records the attributes of a `node` tag
/// in `nodes`, and returns whether a `way` is open after it, or `None` if
/// the event makes the document unreadable.
fn xml_event_step(
    in_way: bool,
    e: &XmlEvent,
    collector: &mut OsmCollector,
    nodes: &mut Vec<(Option<i64>, Option<Vec<u8>>, Option<Vec<u8>>)>,
) -> (r: Option<bool>)
    ensures
        match xml_step(in_way, e@) {
            None => r is None,
            Some((w, o, n)) => {
                &&& r == Some(w)
                &&& final(collector).model() == match o {
                    Some(x) => osm_step(old(collector).model(), x),
                    None => old(collector).model(),
                }
                &&& node_views(final(nodes)@) == match n {
                    Some(x) => node_views(old(nodes)@).push(x),
                    None => node_views(old(nodes)@),
                }
            },
        },
{
    let is_open = e.tag == XmlTag::Open;
    let is_empty = e.tag == XmlTag::SelfClosing;
    if is_open || is_empty {
        if bytes_are(&e.name, &[110u8, 111u8, 100u8, 101u8]) {
            proof {
                assert(e.name@ == node_name());
            }
            match node_attributes_of(&e.attributes) {
                None => None,
                Some((id, lat, lon)) => {
                    if id.is_some() && lat.is_some() && lon.is_some() {
                        collector.step(OsmEvent::PositionedNode(id.unwrap()));
                    }
                    nodes.push((id, lat, lon));
                    proof {
                        assert(node_views(nodes@) =~= node_views(old(nodes)@).push(
                            node_view((id, lat, lon)),
                        ));
                    }
                    Some(in_way)
                },
            }
        } else if bytes_are(&e.name, &[119u8, 97u8, 121u8]) {
            proof {
                assert(e.name@ == way_name());
                assert(e.name@ != node_name());
            }
            if is_open {
                collector.step(OsmEvent::WayStart);
                Some(true)
            } else {
                collector.step(OsmEvent::EmptyWay);
                Some(in_way)
            }
        } else if in_way && bytes_are(&e.name, &[110u8, 100u8]) {
            proof {
                assert(e.name@ == nd_name());
                assert(e.name@ != node_name());
                assert(e.name@ != way_name());
            }
            match first_ref_of(&e.attributes) {
                None => None,
                Some(Some(r)) => {
                    collector.step(OsmEvent::NodeRef(r));
                    Some(in_way)
                },
                Some(None) => Some(in_way),
            }
        } else {
            proof {
                assert(e.name@ != node_name());
                assert(e.name@ != way_name());
                assert(in_way ==> e.name@ != nd_name());
            }
            Some(in_way)
        }
    } else if e.tag == XmlTag::Close {
        if bytes_are(&e.name, &[119u8, 97u8, 121u8]) {
            proof {
                assert(e.name@ == way_name());
            }
            collector.step(OsmEvent::WayEnd);
            Some(false)
        } else {
            proof {
                assert(e.name@ != way_name());
            }
            Some(in_way)
        }
    } else {
        Some(in_way)
    }
}

/// Reads the road graph from the events of an OSM document: the node ids
/// in increasing order (the position of an id is its node), the road graph
/// on them, and the `id`, `lat` and `lon` of every `node` tag in document
/// order, or [`OsmError::BadElement`] where a `node` or `nd` tag that counts
/// cannot be read.
pub fn road_graph_of_xml_events(events: &Vec<XmlEvent>) -> (r: Result<
    (Vec<i64>, Graph, Vec<(Option<i64>, Option<Vec<u8>>, Option<Vec<u8>>)>),
    OsmError,
>)
    ensures
        is_reading_of(event_views(events@), r),
{
    let ghost ev = event_views(events@);
    let mut collector = OsmCollector::new();
    let mut nodes: Vec<(Option<i64>, Option<Vec<u8>>, Option<Vec<u8>>)> = Vec::new();
    let mut in_way = false;
    let ghost mut os: Seq<OsmEvent> = Seq::empty();
    let mut i: usize = 0;
    proof {
        assert(ev.take(0) =~= Seq::<XmlEventView>::empty());
        assert(node_views(nodes@) =~= Seq::empty());
    }
    while i < events.len()
        invariant
            i <= events@.len(),
            ev == event_views(events@),
            xml_walk(ev.take(i as int)) == Some((in_way, os, node_views(nodes@))),
            collector.model() == osm_run(os),
        decreases events.len() - i,
    {
        proof {
            assert(ev.take(i + 1).drop_last() =~= ev.take(i as int));
            assert(ev.take(i + 1).last() == events@[i as int]@);
        }
        let ghost w0 = in_way;
        match xml_event_step(in_way, &events[i], &mut collector, &mut nodes) {
            None => {
                proof {
                    lemma_walk_none(ev, i + 1);
                }
                return Err(OsmError::BadElement);
            },
            Some(w) => {
                proof {
                    let (_, o, _) = xml_step(w0, ev[i as int]).unwrap();
                    match o {
                        Some(x) => {
                            assert(os.push(x).drop_last() =~= os);
                            os = os.push(x);
                        },
                        None => {},
                    }
                }
                in_way = w;
            },
        }
        i = i + 1;
    }
    proof {
        assert(ev.take(events.len() as int) =~= ev);
    }
    let (ids, graph) = collector.finish();
    Ok((ids, graph, nodes))
}

/// Reads the road graph of an OSM XML document: quick-xml's events, taken
/// in by [`road_graph_of_xml_events`]; [`OsmError::BadXml`] where quick-xml
/// reports an error.
pub fn osm_road_graph(xml: &[u8]) -> (r: Result<
    (Vec<i64>, Graph, Vec<(Option<i64>, Option<Vec<u8>>, Option<Vec<u8>>)>),
    OsmError,
>)
    ensures
        match xml_event_list(xml@) {
            None => r == Err::<(Vec<i64>, Graph, Vec<(Option<i64>, Option<Vec<u8>>, Option<Vec<u8>>)>), OsmError>(OsmError::BadXml),
            Some(es) => is_reading_of(es, r),
        },
{
    match xml_events(xml) {
        Err(_) => Err(OsmError::BadXml),
        Ok(events) => road_graph_of_xml_events(&events),
    }
}

} // verus!
