use osm_reader::blocks::RawBlock;
use osm_reader::{
    begin_binary, is_xml, parse_xml, stream_block, DecodeFault, Element, ElementKind, ElementSink,
    Outlet, ParseError,
};

// Reads input of either format as a caller of the library does: markup goes
// to the markup reader, anything else is framed into blocks. None of the
// binary inputs here gets as far as a block that can be decoded.
fn parse<S: ElementSink>(input: &[u8], out: &mut Outlet<S>) -> Result<(), ParseError> {
    if is_xml(input) {
        return parse_xml(input, out);
    }
    begin_binary(input)?;
    for blob in osmpbf::BlobReader::new(input) {
        let block = match blob.map(|blob| blob.decode().is_ok()) {
            Ok(true) => RawBlock::Other,
            Ok(false) => RawBlock::Undecodable,
            Err(_) => RawBlock::Unreadable,
        };
        stream_block(block, out)?;
    }
    Ok(())
}

struct Kinds {
    seen: Vec<ElementKind>,
}

impl ElementSink for Kinds {
    fn accept(&mut self, element: Element) -> bool {
        self.seen.push(element.kind());
        true
    }
}

fn kinds_of(input: &[u8]) -> (Result<(), ParseError>, Vec<ElementKind>) {
    let mut out = Outlet::new(Kinds { seen: Vec::new() });
    let result = parse(input, &mut out);
    (result, out.into_sink().seen)
}

#[test]
fn input_that_starts_as_markup_is_markup() {
    assert!(is_xml(b"<?xml version=\"1.0\"?><osm/>"));
    assert!(is_xml(b"<?xml"));
    assert!(is_xml(b"<?XML version"));
    assert!(is_xml(b"<?xMl version"));
}

#[test]
fn any_other_input_is_binary() {
    assert!(!is_xml(b""));
    assert!(!is_xml(b"<"));
    assert!(!is_xml(b"<?xm"));
    assert!(!is_xml(b" <?xml"));
    assert!(!is_xml(b"<osm/>"));
    assert!(!is_xml(b"<?xmk version"));
    assert!(!is_xml(b"\x1c\x1fxml"));
    assert!(!is_xml(&[0, 0, 0, 13, 10, 9]));
    assert!(!is_xml("<?\u{212a}".as_bytes()));
}

#[test]
fn markup_goes_to_the_markup_reader() {
    let (result, kinds) = kinds_of(
        b"<?xml version=\"1.0\" encoding=\"UTF-8\"?><osm><node id=\"1\" lon=\"1\" lat=\"2\"/></osm>",
    );
    assert_eq!(result, Ok(()));
    assert_eq!(kinds, vec![ElementKind::Node]);
    let (result, kinds) = kinds_of(b"<?XML version=\"1.0\"?><osm><way id=\"1\"/></osm>");
    assert_eq!(result, Ok(()));
    assert_eq!(kinds, vec![ElementKind::Way]);
    let (result, kinds) = kinds_of(b"<?xml version=\"1.0\"?><osm>");
    assert_eq!(result, Err(ParseError::Decode(DecodeFault::Markup)));
    assert!(kinds.is_empty());
}

#[test]
fn markup_without_its_mark_goes_to_the_binary_reader() {
    let (result, kinds) = kinds_of(b"<osm><node id=\"1\" lon=\"1\" lat=\"2\"/></osm>");
    assert!(matches!(result, Err(ParseError::Decode(_))));
    assert!(kinds.is_empty());
}

#[test]
fn empty_input_goes_to_the_binary_reader_and_fails_there() {
    let (result, kinds) = kinds_of(b"");
    assert_eq!(result, Err(ParseError::Decode(DecodeFault::Framing)));
    assert!(kinds.is_empty());
}

#[test]
fn stream_keeps_the_order_of_the_document() {
    let (result, kinds) = kinds_of(
        b"<?xml version=\"1.0\"?><osm><bounds minlon=\"1\" minlat=\"2\" maxlon=\"3\" maxlat=\"4\"/>\
          <node id=\"1\" lon=\"1\" lat=\"2\"/><node id=\"2\" lon=\"1\" lat=\"2\"/>\
          <way id=\"3\"/><way id=\"4\"/><relation id=\"5\"/></osm>",
    );
    assert_eq!(result, Ok(()));
    assert_eq!(
        kinds,
        vec![
            ElementKind::Bounds,
            ElementKind::Node,
            ElementKind::Node,
            ElementKind::Way,
            ElementKind::Way,
            ElementKind::Relation,
        ]
    );
}

#[test]
fn stream_of_a_document_out_of_order_is_out_of_order_too() {
    let (result, kinds) = kinds_of(
        b"<?xml version=\"1.0\"?><osm><way id=\"3\"/><node id=\"1\" lon=\"1\" lat=\"2\"/>\
          <bounds minlon=\"1\" minlat=\"2\" maxlon=\"3\" maxlat=\"4\"/>\
          <bounds minlon=\"1\" minlat=\"2\" maxlon=\"3\" maxlat=\"4\"/></osm>",
    );
    assert_eq!(result, Ok(()));
    assert_eq!(
        kinds,
        vec![ElementKind::Way, ElementKind::Node, ElementKind::Bounds, ElementKind::Bounds]
    );
}

#[test]
fn two_parses_of_one_input_give_the_same_stream() {
    let input: &[u8] = b"<?xml version=\"1.0\"?><osm><node id=\"1\" lon=\"1\" lat=\"2\"><tag k=\"a\" v=\"b\"/></node>\
          <way id=\"3\"><nd ref=\"1\"/></way><relation id=\"5\"><member type=\"node\" ref=\"1\" role=\"r\"/></relation>\
          <node id=\"x\" lon=\"1\" lat=\"2\"/></osm>";
    let mut first = Outlet::new(Texts { seen: Vec::new() });
    let mut second = Outlet::new(Texts { seen: Vec::new() });
    let one = parse(input, &mut first);
    let two = parse(input, &mut second);
    assert_eq!(one, two);
    assert_eq!(one, Err(ParseError::Schema(ElementKind::Node)));
    let seen = first.into_sink().seen;
    assert_eq!(seen.len(), 3);
    assert_eq!(seen, second.into_sink().seen);
}

struct Texts {
    seen: Vec<String>,
}

impl ElementSink for Texts {
    fn accept(&mut self, element: Element) -> bool {
        let text = match element {
            Element::Bounds { min_lon, min_lat, max_lon, max_lat } => {
                format!("{:?} {:?} {:?} {:?}", min_lon, min_lat, max_lon, max_lat)
            }
            Element::Node { id, lon, lat, tags, version } => {
                let mut pairs = tags.into_pairs();
                pairs.sort();
                format!("{:?} {:?} {:?} {:?} {:?}", id, lon, lat, pairs, version)
            }
            Element::Way { id, node_ids, tags, version } => {
                let mut pairs = tags.into_pairs();
                pairs.sort();
                format!("{:?} {:?} {:?} {:?}", id, node_ids, pairs, version)
            }
            Element::Relation { id, tags, members, version } => {
                let mut pairs = tags.into_pairs();
                pairs.sort();
                format!("{:?} {:?} {:?} {:?}", id, pairs, members, version)
            }
        };
        self.seen.push(text);
        true
    }
}
