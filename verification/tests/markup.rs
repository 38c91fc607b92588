use osm_reader::xml::parse_xml;
use osm_reader::{
    DecodeFault, Degrees, Element, ElementKind, ElementSink, NodeID, OsmID, Outlet, ParseError,
    WayID,
};

struct Collector {
    elements: Vec<Element>,
    limit: usize,
}

impl Collector {
    fn new() -> Collector {
        Collector { elements: Vec::new(), limit: usize::MAX }
    }

    fn stopping_after(limit: usize) -> Collector {
        Collector { elements: Vec::new(), limit }
    }
}

impl ElementSink for Collector {
    fn accept(&mut self, element: Element) -> bool {
        self.elements.push(element);
        self.elements.len() < self.limit
    }
}

fn read(input: &str) -> (Result<(), ParseError>, Vec<Element>) {
    let mut out = Outlet::new(Collector::new());
    let result = parse_xml(input.as_bytes(), &mut out);
    (result, out.into_sink().elements)
}

fn degrees(value: &Degrees) -> f64 {
    match value {
        Degrees::Decimal(text) => text.parse::<f64>().unwrap(),
        Degrees::Nano(count) => 1e-9 * *count as f64,
        Degrees::Bits(bits) => f64::from_bits(*bits),
    }
}

const SAMPLE: &str = "<osm><bounds minlon=\"1\" minlat=\"2\" maxlon=\"3\" maxlat=\"4\"/><node id=\"1\" lon=\"10.5\" lat=\"20.5\"><tag k=\"name\" v=\"Foo\"/></node><way id=\"2\"><nd ref=\"1\"/><tag k=\"highway\" v=\"residential\"/></way><relation id=\"3\"><member type=\"way\" ref=\"2\" role=\"outer\"/></relation></osm>";

#[test]
fn sample_document_gives_four_elements_in_order() {
    let (result, elements) = read(SAMPLE);
    assert_eq!(result, Ok(()));
    assert_eq!(elements.len(), 4);
    match &elements[0] {
        Element::Bounds { min_lon, min_lat, max_lon, max_lat } => {
            assert_eq!(degrees(min_lon), 1.0);
            assert_eq!(degrees(min_lat), 2.0);
            assert_eq!(degrees(max_lon), 3.0);
            assert_eq!(degrees(max_lat), 4.0);
        }
        other => panic!("expected bounds, got {:?}", other),
    }
    match &elements[1] {
        Element::Node { id, lon, lat, tags, version } => {
            assert_eq!(*id, NodeID(1));
            assert_eq!(degrees(lon), 10.5);
            assert_eq!(degrees(lat), 20.5);
            assert_eq!(tags.len(), 1);
            assert_eq!(tags.get("name").map(|v| v.as_str()), Some("Foo"));
            assert_eq!(*version, None);
        }
        other => panic!("expected a node, got {:?}", other),
    }
    match &elements[2] {
        Element::Way { id, node_ids, tags, version } => {
            assert_eq!(*id, WayID(2));
            assert_eq!(node_ids, &vec![NodeID(1)]);
            assert_eq!(tags.len(), 1);
            assert_eq!(tags.get("highway").map(|v| v.as_str()), Some("residential"));
            assert_eq!(*version, None);
        }
        other => panic!("expected a way, got {:?}", other),
    }
    match &elements[3] {
        Element::Relation { id, tags, members, version } => {
            assert_eq!(id.0, 3);
            assert_eq!(tags.len(), 0);
            assert_eq!(members, &vec![("outer".to_string(), OsmID::Way(WayID(2)))]);
            assert_eq!(*version, None);
        }
        other => panic!("expected a relation, got {:?}", other),
    }
}

#[test]
fn node_without_lat_is_a_schema_violation() {
    let (result, elements) = read(
        "<osm><node id=\"1\" lon=\"1\" lat=\"2\"/><node id=\"2\" lon=\"1\"/><node id=\"3\" lon=\"1\" lat=\"2\"/></osm>",
    );
    assert_eq!(result, Err(ParseError::Schema(ElementKind::Node)));
    assert_eq!(elements.len(), 1);
    assert_eq!(elements[0].kind(), ElementKind::Node);
}

#[test]
fn member_of_unknown_type_is_left_out() {
    let (result, elements) = read(
        "<osm><relation id=\"3\"><member type=\"unknown\" ref=\"9\" role=\"x\"/><member type=\"node\" ref=\"2\" role=\"\"/></relation></osm>",
    );
    assert_eq!(result, Ok(()));
    assert_eq!(elements.len(), 1);
    match &elements[0] {
        Element::Relation { members, .. } => {
            assert_eq!(members, &vec![(String::new(), OsmID::Node(NodeID(2)))]);
        }
        other => panic!("expected a relation, got {:?}", other),
    }
}

#[test]
fn malformed_markup_is_a_decode_error() {
    let (result, elements) = read("<osm><node id=\"1\"></osm>");
    assert_eq!(result, Err(ParseError::Decode(DecodeFault::Markup)));
    assert!(elements.is_empty());
}

#[test]
fn markup_that_is_not_utf8_is_a_decode_error() {
    let mut out = Outlet::new(Collector::new());
    let result = parse_xml(&[b'<', b'o', 0xff, b'>'], &mut out);
    assert_eq!(result, Err(ParseError::Decode(DecodeFault::Encoding)));
    assert!(out.into_sink().elements.is_empty());
}

#[test]
fn sink_that_refuses_ends_the_parse() {
    let mut out = Outlet::new(Collector::stopping_after(2));
    let result = parse_xml(SAMPLE.as_bytes(), &mut out);
    assert_eq!(result, Err(ParseError::SinkAborted));
    assert_eq!(out.sink().elements.len(), 2);
    assert_eq!(out.into_sink().elements.len(), 2);
}

#[test]
fn sink_that_refuses_the_last_element_still_ends_the_parse() {
    let mut out = Outlet::new(Collector::stopping_after(4));
    let result = parse_xml(SAMPLE.as_bytes(), &mut out);
    assert_eq!(result, Err(ParseError::SinkAborted));
    assert_eq!(out.into_sink().elements.len(), 4);
}

#[test]
fn one_sink_can_take_two_inputs() {
    let mut out = Outlet::new(Collector::new());
    assert_eq!(parse_xml(SAMPLE.as_bytes(), &mut out), Ok(()));
    assert_eq!(parse_xml(SAMPLE.as_bytes(), &mut out), Ok(()));
    assert_eq!(out.into_sink().elements.len(), 8);
}

#[test]
fn collector_holds_the_stream_of_a_document() {
    let mut out = Outlet::new(osm_reader::Collector::new());
    assert_eq!(parse_xml(SAMPLE.as_bytes(), &mut out), Ok(()));
    let elements = out.into_sink().elements;
    let kinds: Vec<ElementKind> = elements.iter().map(|e| e.kind()).collect();
    assert_eq!(
        kinds,
        vec![ElementKind::Bounds, ElementKind::Node, ElementKind::Way, ElementKind::Relation]
    );
}

#[test]
fn collector_is_left_as_it_was_where_nothing_is_delivered() {
    let mut out = Outlet::new(osm_reader::Collector::new());
    assert_eq!(parse_xml(b"<osm><Node id=\"1\"/><foo id=\"x\"/></osm>", &mut out), Ok(()));
    assert_eq!(
        parse_xml(b"<osm><node id=\"1\" lon=\"1\" lat=\"2\"/>", &mut out),
        Err(ParseError::Decode(DecodeFault::Markup))
    );
    assert!(out.into_sink().elements.is_empty());
}
