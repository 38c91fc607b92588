use osm_reader::xml::{
    bounds_element, node_element, parse_xml, relation_element, relation_member, tag_entry,
    way_element, way_node,
};
use osm_reader::{
    Degrees, Element, ElementKind, ElementSink, NodeID, OsmID, Outlet, ParseError, RelationID,
    Tags, WayID,
};

struct Taken {
    elements: Vec<Element>,
}

impl ElementSink for Taken {
    fn accept(&mut self, element: Element) -> bool {
        self.elements.push(element);
        true
    }
}

fn walk(input: &str) -> (Result<(), ParseError>, Vec<Element>) {
    let mut out = Outlet::new(Taken { elements: Vec::new() });
    let result = parse_xml(input.as_bytes(), &mut out);
    (result, out.into_sink().elements)
}

fn text_of(value: &Degrees) -> &str {
    match value {
        Degrees::Decimal(text) => text.as_str(),
        _ => panic!("markup holds text"),
    }
}

#[test]
fn bounds_need_all_four_sides() {
    assert!(matches!(
        bounds_element(Some("1"), Some("2"), Some("3"), Some("4")),
        Ok(Element::Bounds { .. })
    ));
    let schema = ParseError::Schema(ElementKind::Bounds);
    assert_eq!(bounds_element(None, Some("2"), Some("3"), Some("4")).unwrap_err(), schema);
    assert_eq!(bounds_element(Some("1"), None, Some("3"), Some("4")).unwrap_err(), schema);
    assert_eq!(bounds_element(Some("1"), Some("2"), None, Some("4")).unwrap_err(), schema);
    assert_eq!(bounds_element(Some("1"), Some("2"), Some("3"), None).unwrap_err(), schema);
    assert_eq!(bounds_element(Some("1"), Some("north"), Some("3"), Some("4")).unwrap_err(), schema);
    assert_eq!(bounds_element(Some(""), Some("2"), Some("3"), Some("4")).unwrap_err(), schema);
}

#[test]
fn bounds_keep_the_text_of_each_side() {
    match bounds_element(Some("-1.50"), Some("2e1"), Some("+3"), Some(".4")) {
        Ok(Element::Bounds { min_lon, min_lat, max_lon, max_lat }) => {
            assert_eq!(text_of(&min_lon), "-1.50");
            assert_eq!(text_of(&min_lat), "2e1");
            assert_eq!(text_of(&max_lon), "+3");
            assert_eq!(text_of(&max_lat), ".4");
            assert_eq!(text_of(&min_lat).parse::<f64>(), Ok(20.0));
        }
        other => panic!("expected bounds, got {:?}", other),
    }
}

#[test]
fn node_needs_its_number_and_both_angles() {
    let schema = ParseError::Schema(ElementKind::Node);
    assert_eq!(node_element(None, Some("1"), Some("2"), Tags::new()).unwrap_err(), schema);
    assert_eq!(node_element(Some("1"), None, Some("2"), Tags::new()).unwrap_err(), schema);
    assert_eq!(node_element(Some("1"), Some("1"), None, Tags::new()).unwrap_err(), schema);
    assert_eq!(node_element(Some("1.5"), Some("1"), Some("2"), Tags::new()).unwrap_err(), schema);
    assert_eq!(node_element(Some("1"), Some("east"), Some("2"), Tags::new()).unwrap_err(), schema);
    match node_element(Some("-17"), Some("10.5"), Some("20.5"), Tags::new()) {
        Ok(Element::Node { id, lon, lat, tags, version }) => {
            assert_eq!(id, NodeID(-17));
            assert_eq!(text_of(&lon), "10.5");
            assert_eq!(text_of(&lat), "20.5");
            assert_eq!(tags.len(), 0);
            assert_eq!(version, None);
        }
        other => panic!("expected a node, got {:?}", other),
    }
}

#[test]
fn way_and_relation_need_their_number() {
    assert_eq!(
        way_element(None, Tags::new(), Vec::new()).unwrap_err(),
        ParseError::Schema(ElementKind::Way)
    );
    assert_eq!(
        way_element(Some("two"), Tags::new(), Vec::new()).unwrap_err(),
        ParseError::Schema(ElementKind::Way)
    );
    assert_eq!(
        relation_element(None, Tags::new(), Vec::new()).unwrap_err(),
        ParseError::Schema(ElementKind::Relation)
    );
    match way_element(Some("2"), Tags::new(), vec![NodeID(1), NodeID(1)]) {
        Ok(Element::Way { id, node_ids, version, .. }) => {
            assert_eq!(id, WayID(2));
            assert_eq!(node_ids, vec![NodeID(1), NodeID(1)]);
            assert_eq!(version, None);
        }
        other => panic!("expected a way, got {:?}", other),
    }
    match relation_element(Some("3"), Tags::new(), vec![("r".to_string(), OsmID::Node(NodeID(1)))]) {
        Ok(Element::Relation { id, members, version, .. }) => {
            assert_eq!(id, RelationID(3));
            assert_eq!(members, vec![("r".to_string(), OsmID::Node(NodeID(1)))]);
            assert_eq!(version, None);
        }
        other => panic!("expected a relation, got {:?}", other),
    }
}

#[test]
fn tag_needs_key_and_value() {
    assert_eq!(tag_entry(Some("k"), Some("v")), Some(("k".to_string(), "v".to_string())));
    assert_eq!(tag_entry(Some(""), Some("")), Some((String::new(), String::new())));
    assert_eq!(tag_entry(None, Some("v")), None);
    assert_eq!(tag_entry(Some("k"), None), None);
}

#[test]
fn node_of_a_way_needs_a_number() {
    assert_eq!(way_node(Some("12")), Some(NodeID(12)));
    assert_eq!(way_node(Some("-12")), Some(NodeID(-12)));
    assert_eq!(way_node(Some("")), None);
    assert_eq!(way_node(Some("1.0")), None);
    assert_eq!(way_node(None), None);
}

#[test]
fn member_is_named_by_its_type() {
    assert_eq!(
        relation_member(Some("node"), Some("1"), Some("a")),
        Ok(Some(("a".to_string(), OsmID::Node(NodeID(1)))))
    );
    assert_eq!(
        relation_member(Some("way"), Some("2"), Some("outer")),
        Ok(Some(("outer".to_string(), OsmID::Way(WayID(2)))))
    );
    assert_eq!(
        relation_member(Some("relation"), Some("3"), Some("")),
        Ok(Some((String::new(), OsmID::Relation(RelationID(3)))))
    );
}

#[test]
fn member_of_a_type_that_is_not_known_is_no_member_and_no_error() {
    assert_eq!(relation_member(Some("unknown"), Some("1"), Some("a")), Ok(None));
    assert_eq!(relation_member(Some("Way"), Some("1"), Some("a")), Ok(None));
    assert_eq!(relation_member(Some(""), Some("1"), Some("a")), Ok(None));
}

#[test]
fn member_needs_type_number_and_role() {
    let schema = Err(ParseError::Schema(ElementKind::Relation));
    assert_eq!(relation_member(None, Some("1"), Some("a")), schema);
    assert_eq!(relation_member(Some("way"), None, Some("a")), schema);
    assert_eq!(relation_member(Some("way"), Some("x"), Some("a")), schema);
    assert_eq!(relation_member(Some("way"), Some("1"), None), schema);
    assert_eq!(relation_member(Some("unknown"), Some("1"), None), schema);
    assert_eq!(relation_member(Some("unknown"), None, Some("a")), schema);
}

#[test]
fn names_of_records_are_told_by_exact_case() {
    let (result, elements) = walk(
        "<osm><Node id=\"1\" lon=\"1\" lat=\"2\"/><NODE/><ways id=\"1\"/><bound/><relation id=\"9\"/></osm>",
    );
    assert_eq!(result, Ok(()));
    assert_eq!(elements.len(), 1);
    assert_eq!(elements[0].kind(), ElementKind::Relation);
}

#[test]
fn records_are_read_at_any_depth() {
    let (result, elements) = walk(
        "<osm><create><node id=\"1\" lon=\"1\" lat=\"2\"/><way id=\"2\"><node id=\"3\" lon=\"1\" lat=\"2\"/></way></create></osm>",
    );
    assert_eq!(result, Ok(()));
    let kinds: Vec<ElementKind> = elements.iter().map(|e| e.kind()).collect();
    assert_eq!(kinds, vec![ElementKind::Node, ElementKind::Way, ElementKind::Node]);
}

#[test]
fn children_of_other_names_and_text_are_passed_over() {
    let (result, elements) = walk(
        "<osm> text <!-- note --><way id=\"2\"> <nd ref=\"1\"/> x <other ref=\"q\"/><nd ref=\"2\"/><tag k=\"a\" v=\"1\"/><tag k=\"a\" v=\"2\"/></way></osm>",
    );
    assert_eq!(result, Ok(()));
    assert_eq!(elements.len(), 1);
    match &elements[0] {
        Element::Way { node_ids, tags, .. } => {
            assert_eq!(node_ids, &vec![NodeID(1), NodeID(2)]);
            assert_eq!(tags.len(), 1);
            assert_eq!(tags.get("a").map(|v| v.as_str()), Some("2"));
        }
        other => panic!("expected a way, got {:?}", other),
    }
}

#[test]
fn malformed_child_ends_the_parse() {
    let way = ParseError::Schema(ElementKind::Way);
    assert_eq!(walk("<osm><way id=\"2\"><nd/></way></osm>").0, Err(way));
    assert_eq!(walk("<osm><way id=\"2\"><nd ref=\"a\"/></way></osm>").0, Err(way));
    assert_eq!(walk("<osm><way id=\"2\"><tag k=\"a\"/></way></osm>").0, Err(way));
    assert_eq!(walk("<osm><way><nd ref=\"1\"/></way></osm>").0, Err(way));
    let node = ParseError::Schema(ElementKind::Node);
    assert_eq!(walk("<osm><node id=\"1\" lon=\"1\" lat=\"2\"><tag v=\"a\"/></node></osm>").0, Err(node));
    let relation = ParseError::Schema(ElementKind::Relation);
    assert_eq!(
        walk("<osm><relation id=\"1\"><member type=\"way\" ref=\"1\"/></relation></osm>").0,
        Err(relation)
    );
    assert_eq!(
        walk("<osm><relation id=\"1\"><member ref=\"1\" role=\"\"/></relation></osm>").0,
        Err(relation)
    );
    assert_eq!(
        walk("<osm><relation id=\"1\"><tag k=\"a\"/></relation></osm>").0,
        Err(relation)
    );
    let bounds = ParseError::Schema(ElementKind::Bounds);
    assert_eq!(walk("<osm><bounds minlon=\"1\" minlat=\"2\" maxlon=\"3\"/></osm>").0, Err(bounds));
    assert_eq!(
        walk("<osm><bounds minlon=\"1\" minlat=\"2\" maxlon=\"3\" maxlat=\"top\"/></osm>").0,
        Err(bounds)
    );
}

#[test]
fn nothing_is_delivered_after_the_record_in_error() {
    let (result, elements) = walk(
        "<osm><way id=\"1\"/><way id=\"2\"/><way id=\"x\"/><way id=\"4\"/><relation id=\"5\"/></osm>",
    );
    assert_eq!(result, Err(ParseError::Schema(ElementKind::Way)));
    assert_eq!(elements.len(), 2);
}
