use road_graphs::osm_xml::{osm_road_graph, parse_i64_bytes, OsmError};

#[test]
fn an_osm_document_becomes_its_road_graph() {
    let xml = br#"<?xml version="1.0" encoding="UTF-8"?>
<osm version="0.6">
  <node id="30" lat="1.5" lon="2.5"/>
  <node id="10" lat="-1" lon="4"><tag k="a" v="b"/></node>
  <node id="20" lat="0" lon="0"/>
  <node id="40" lat="9" lon="9"/>
  <node id="50" lat="7"/>
  <way id="1">
    <nd ref="30"/>
    <nd ref="10"/>
    <nd ref="20"/>
    <tag k="highway" v="residential"/>
  </way>
</osm>"#;
    let (ids, g, nodes) = osm_road_graph(xml).unwrap();
    assert_eq!(ids, vec![10, 20, 30]);
    assert_eq!(g.get_num_nodes(), 3);
    assert!(g.has_edge(2, 0));
    assert!(g.has_edge(0, 1));
    assert!(!g.has_edge(1, 2));
    assert_eq!(g.get_num_edges(), 2);
    assert_eq!(nodes.len(), 5);
    assert_eq!(nodes[0], (Some(30), Some(b"1.5".to_vec()), Some(b"2.5".to_vec())));
    assert_eq!(nodes[1], (Some(10), Some(b"-1".to_vec()), Some(b"4".to_vec())));
    assert_eq!(nodes[4], (Some(50), Some(b"7".to_vec()), None));
}

#[test]
fn nd_tags_outside_ways_and_later_ref_attributes_are_ignored() {
    let xml = br#"<osm>
  <node id="1" lat="0" lon="0"/>
  <node id="2" lat="0" lon="1"/>
  <nd ref="not a number"/>
  <way><nd ref="1" ref2="x"/><nd k="v"/><nd ref="2"/></way>
  <way/>
</osm>"#;
    let (ids, g, _) = osm_road_graph(xml).unwrap();
    assert_eq!(ids, vec![1, 2]);
    assert!(g.has_edge(0, 1));
    assert_eq!(g.get_num_edges(), 1);
}

#[test]
fn a_bad_node_id_makes_the_document_unreadable() {
    let xml = br#"<osm><node id="12x" lat="0" lon="0"/></osm>"#;
    assert_eq!(osm_road_graph(xml).err(), Some(OsmError::BadElement));
}

#[test]
fn a_repeated_attribute_of_an_nd_in_a_way_is_refused() {
    let xml = br#"<osm><way><nd k="a" k="b" ref="3"/></way></osm>"#;
    assert_eq!(osm_road_graph(xml).err(), Some(OsmError::BadElement));
}

#[test]
fn mismatched_tags_are_bad_xml() {
    let xml = br#"<osm><way></node></osm>"#;
    assert_eq!(osm_road_graph(xml).err(), Some(OsmError::BadXml));
}

#[test]
fn i64_parsing_follows_from_str() {
    let cases: Vec<(&[u8], Option<i64>)> = vec![
        (b"0", Some(0)),
        (b"+17", Some(17)),
        (b"-42", Some(-42)),
        (b"007", Some(7)),
        (b"9223372036854775807", Some(i64::MAX)),
        (b"-9223372036854775808", Some(i64::MIN)),
        (b"9223372036854775808", None),
        (b"-9223372036854775809", None),
        (b"", None),
        (b"-", None),
        (b"+", None),
        (b"1 ", None),
        (b"1.0", None),
    ];
    for (s, want) in cases {
        assert_eq!(parse_i64_bytes(&s.to_vec()), want, "{:?}", s);
        assert_eq!(std::str::from_utf8(s).unwrap().parse::<i64>().ok(), want);
    }
}
