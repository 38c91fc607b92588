use osm_reader::blocks::{MemberKind, RawBlock, RawBounds, RawGroup, RawMember, RawRecord};
use osm_reader::pbf::{normalize_bounds, normalize_record};
use osm_reader::{
    begin_binary, parse_pbf, stream_block, Collector, DecodeFault, Degrees, Element, ElementKind,
    ElementSink, NodeID, OsmID, Outlet, ParseError, RelationID, WayID,
};

struct Gatherer {
    elements: Vec<Element>,
    limit: usize,
}

impl ElementSink for Gatherer {
    fn accept(&mut self, element: Element) -> bool {
        self.elements.push(element);
        self.elements.len() < self.limit
    }
}

// Decoding, as a caller of the library does it: one block at a time, each
// turned into plain values.

fn pairs<'a>(tags: impl Iterator<Item = (&'a str, &'a str)>) -> Vec<(String, String)> {
    tags.map(|(k, v)| (k.to_string(), v.to_string())).collect()
}

fn kind_of(kind: &osmpbf::RelMemberType) -> MemberKind {
    match kind {
        osmpbf::RelMemberType::Node => MemberKind::Node,
        osmpbf::RelMemberType::Way => MemberKind::Way,
        osmpbf::RelMemberType::Relation => MemberKind::Relation,
    }
}

fn group_of(group: &osmpbf::PrimitiveGroup) -> RawGroup {
    RawGroup {
        dense_nodes: group
            .dense_nodes()
            .map(|node| RawRecord::Node {
                id: node.id(),
                lon: node.nano_lon(),
                lat: node.nano_lat(),
                tags: pairs(node.tags()),
                version: node.info().map(|info| info.version()),
            })
            .collect(),
        nodes: group
            .nodes()
            .map(|node| RawRecord::Node {
                id: node.id(),
                lon: node.nano_lon(),
                lat: node.nano_lat(),
                tags: pairs(node.tags()),
                version: node.info().version(),
            })
            .collect(),
        ways: group
            .ways()
            .map(|way| RawRecord::Way {
                id: way.id(),
                ref_deltas: way.raw_refs().to_vec(),
                tags: pairs(way.tags()),
                version: way.info().version(),
            })
            .collect(),
        relations: group
            .relations()
            .map(|relation| RawRecord::Relation {
                id: relation.id(),
                members: relation
                    .members()
                    .map(|m| RawMember {
                        role: m.role().ok().map(|role| role.to_string()),
                        kind: kind_of(&m.member_type),
                        id: m.member_id,
                    })
                    .collect(),
                tags: pairs(relation.tags()),
                version: relation.info().version(),
            })
            .collect(),
    }
}

fn block_of(blob: &osmpbf::Blob) -> RawBlock {
    match blob.decode() {
        Ok(osmpbf::BlobDecode::OsmHeader(header)) => RawBlock::Header(header.bbox().map(|b| RawBounds {
            left: b.left.to_bits(),
            top: b.top.to_bits(),
            right: b.right.to_bits(),
            bottom: b.bottom.to_bits(),
        })),
        Ok(osmpbf::BlobDecode::OsmData(block)) => {
            RawBlock::Data(block.groups().map(|group| group_of(&group)).collect())
        }
        Ok(osmpbf::BlobDecode::Unknown(_)) => RawBlock::Other,
        Err(_) => RawBlock::Undecodable,
    }
}

fn blocks_of(input: &[u8]) -> Vec<RawBlock> {
    let mut blocks = Vec::new();
    for blob in osmpbf::BlobReader::new(input) {
        match blob {
            Ok(blob) => blocks.push(block_of(&blob)),
            Err(_) => blocks.push(RawBlock::Unreadable),
        }
    }
    blocks
}

fn read_into<S: ElementSink>(input: &[u8], out: &mut Outlet<S>) -> Result<(), ParseError> {
    begin_binary(input)?;
    for blob in osmpbf::BlobReader::new(input) {
        let block = match blob {
            Ok(blob) => block_of(&blob),
            Err(_) => RawBlock::Unreadable,
        };
        stream_block(block, out)?;
    }
    Ok(())
}

fn read_binary(input: &[u8]) -> (Result<(), ParseError>, Vec<Element>) {
    let mut out = Outlet::new(Gatherer { elements: Vec::new(), limit: usize::MAX });
    let result = read_into(input, &mut out);
    (result, out.into_sink().elements)
}

fn in_degrees(value: &Degrees) -> f64 {
    match value {
        Degrees::Decimal(text) => text.parse::<f64>().unwrap(),
        Degrees::Nano(count) => 1e-9 * *count as f64,
        Degrees::Bits(bits) => f64::from_bits(*bits),
    }
}

// A small writer of the wire format, enough to build inputs by hand.

fn varint(mut value: u64, out: &mut Vec<u8>) {
    while value >= 0x80 {
        out.push((value & 0x7f) as u8 | 0x80);
        value >>= 7;
    }
    out.push(value as u8);
}

fn zigzag(value: i64) -> u64 {
    ((value << 1) ^ (value >> 63)) as u64
}

fn number_field(field: u64, value: u64, out: &mut Vec<u8>) {
    varint(field << 3, out);
    varint(value, out);
}

fn bytes_field(field: u64, bytes: &[u8], out: &mut Vec<u8>) {
    varint((field << 3) | 2, out);
    varint(bytes.len() as u64, out);
    out.extend_from_slice(bytes);
}

fn packed_field(field: u64, values: &[u64], out: &mut Vec<u8>) {
    let mut body = Vec::new();
    for value in values {
        varint(*value, &mut body);
    }
    bytes_field(field, &body, out);
}

fn deltas(values: &[i64]) -> Vec<u64> {
    let mut last = 0;
    let mut out = Vec::new();
    for value in values {
        out.push(zigzag(*value - last));
        last = *value;
    }
    out
}

fn framed(kind: &str, blob: &[u8]) -> Vec<u8> {
    let mut header = Vec::new();
    bytes_field(1, kind.as_bytes(), &mut header);
    number_field(3, blob.len() as u64, &mut header);
    let mut out = Vec::new();
    out.extend_from_slice(&(header.len() as u32).to_be_bytes());
    out.extend_from_slice(&header);
    out.extend_from_slice(blob);
    out
}

fn block(kind: &str, message: &[u8]) -> Vec<u8> {
    let mut blob = Vec::new();
    bytes_field(1, message, &mut blob);
    framed(kind, &blob)
}

fn header_block(bbox: Option<(i64, i64, i64, i64)>) -> Vec<u8> {
    let mut message = Vec::new();
    if let Some((left, right, top, bottom)) = bbox {
        let mut sides = Vec::new();
        number_field(1, zigzag(left), &mut sides);
        number_field(2, zigzag(right), &mut sides);
        number_field(3, zigzag(top), &mut sides);
        number_field(4, zigzag(bottom), &mut sides);
        bytes_field(1, &sides, &mut message);
    }
    bytes_field(4, b"OsmSchema-V0.6", &mut message);
    block("OSMHeader", &message)
}

fn info(version: u64) -> Vec<u8> {
    let mut out = Vec::new();
    number_field(1, version, &mut out);
    out
}

fn plain_node(id: i64, lat: i64, lon: i64, tags: &[(u64, u64)], version: Option<u64>) -> Vec<u8> {
    let mut out = Vec::new();
    number_field(1, zigzag(id), &mut out);
    packed_field(2, &tags.iter().map(|t| t.0).collect::<Vec<u64>>(), &mut out);
    packed_field(3, &tags.iter().map(|t| t.1).collect::<Vec<u64>>(), &mut out);
    if let Some(version) = version {
        bytes_field(4, &info(version), &mut out);
    }
    number_field(8, zigzag(lat), &mut out);
    number_field(9, zigzag(lon), &mut out);
    out
}

fn dense_nodes(ids: &[i64], lats: &[i64], lons: &[i64], keys_vals: &[u64], versions: &[u64]) -> Vec<u8> {
    let mut out = Vec::new();
    packed_field(1, &deltas(ids), &mut out);
    if !versions.is_empty() {
        let zeros: Vec<u64> = versions.iter().map(|_| 0).collect();
        let mut dense_info = Vec::new();
        packed_field(1, versions, &mut dense_info);
        packed_field(2, &zeros, &mut dense_info);
        packed_field(3, &zeros, &mut dense_info);
        packed_field(4, &zeros, &mut dense_info);
        packed_field(5, &zeros, &mut dense_info);
        bytes_field(5, &dense_info, &mut out);
    }
    packed_field(8, &deltas(lats), &mut out);
    packed_field(9, &deltas(lons), &mut out);
    packed_field(10, keys_vals, &mut out);
    out
}

fn way_of_differences(id: u64, differences: &[i64]) -> Vec<u8> {
    let mut out = Vec::new();
    number_field(1, id, &mut out);
    packed_field(8, &differences.iter().map(|d| zigzag(*d)).collect::<Vec<u64>>(), &mut out);
    out
}

fn way(id: u64, refs: &[i64], tags: &[(u64, u64)], version: Option<u64>) -> Vec<u8> {
    let mut out = Vec::new();
    number_field(1, id, &mut out);
    packed_field(2, &tags.iter().map(|t| t.0).collect::<Vec<u64>>(), &mut out);
    packed_field(3, &tags.iter().map(|t| t.1).collect::<Vec<u64>>(), &mut out);
    if let Some(version) = version {
        bytes_field(4, &info(version), &mut out);
    }
    packed_field(8, &deltas(refs), &mut out);
    out
}

fn relation(id: u64, members: &[(u64, i64, u64)], tags: &[(u64, u64)], version: Option<u64>) -> Vec<u8> {
    let mut out = Vec::new();
    number_field(1, id, &mut out);
    packed_field(2, &tags.iter().map(|t| t.0).collect::<Vec<u64>>(), &mut out);
    packed_field(3, &tags.iter().map(|t| t.1).collect::<Vec<u64>>(), &mut out);
    if let Some(version) = version {
        bytes_field(4, &info(version), &mut out);
    }
    packed_field(8, &members.iter().map(|m| m.0).collect::<Vec<u64>>(), &mut out);
    packed_field(9, &deltas(&members.iter().map(|m| m.1).collect::<Vec<i64>>()), &mut out);
    packed_field(10, &members.iter().map(|m| m.2).collect::<Vec<u64>>(), &mut out);
    out
}

fn group(nodes: &[Vec<u8>], dense: Option<Vec<u8>>, ways: &[Vec<u8>], relations: &[Vec<u8>]) -> Vec<u8> {
    let mut out = Vec::new();
    for node in nodes {
        bytes_field(1, node, &mut out);
    }
    if let Some(dense) = dense {
        bytes_field(2, &dense, &mut out);
    }
    for way in ways {
        bytes_field(3, way, &mut out);
    }
    for relation in relations {
        bytes_field(4, relation, &mut out);
    }
    out
}

fn data_block(strings: &[&[u8]], groups: &[Vec<u8>]) -> Vec<u8> {
    let mut table = Vec::new();
    for string in strings {
        bytes_field(1, string, &mut table);
    }
    let mut message = Vec::new();
    bytes_field(1, &table, &mut message);
    for group in groups {
        bytes_field(2, group, &mut message);
    }
    block("OSMData", &message)
}

const STRINGS: [&[u8]; 7] = [b"", b"name", b"Foo", b"highway", b"residential", b"outer", &[0xff, 0xfe]];

fn sample() -> Vec<u8> {
    let mut input = header_block(Some((1_000_000_000, 3_000_000_000, 4_500_000_000, 2_000_000_000)));
    input.extend(data_block(
        &STRINGS,
        &[
            group(
                &[plain_node(3, 10, 20, &[], Some(7))],
                Some(dense_nodes(&[1, 2], &[205_000_000, -5], &[105_000_000, 6], &[1, 2, 0, 0], &[4, 5])),
                &[],
                &[],
            ),
            group(&[], None, &[way(2, &[1, 2, 1], &[(3, 4)], None)], &[]),
            group(&[], None, &[], &[relation(3, &[(5, 2, 1), (0, 1, 0), (5, 3, 2)], &[], Some(2))]),
        ],
    ));
    input
}

#[test]
fn binary_sample_gives_its_records_in_block_order() {
    let (result, elements) = read_binary(&sample());
    assert_eq!(result, Ok(()));
    assert_eq!(elements.len(), 6);
    match &elements[0] {
        Element::Bounds { min_lon, min_lat, max_lon, max_lat } => {
            assert_eq!(in_degrees(min_lon), 1.0);
            assert_eq!(in_degrees(min_lat), 2.0);
            assert_eq!(in_degrees(max_lon), 3.0);
            assert_eq!(in_degrees(max_lat), 4.5);
        }
        other => panic!("expected bounds, got {:?}", other),
    }
    match &elements[1] {
        Element::Node { id, lon, lat, tags, version } => {
            assert_eq!(*id, NodeID(1));
            assert_eq!(in_degrees(lon), 10.5);
            assert_eq!(in_degrees(lat), 20.5);
            assert_eq!(tags.len(), 1);
            assert_eq!(tags.get("name").map(|v| v.as_str()), Some("Foo"));
            assert_eq!(*version, Some(4));
        }
        other => panic!("expected a node, got {:?}", other),
    }
    match &elements[2] {
        Element::Node { id, lon, lat, tags, version } => {
            assert_eq!(*id, NodeID(2));
            assert!(matches!(lon, Degrees::Nano(600)));
            assert!(matches!(lat, Degrees::Nano(-500)));
            assert_eq!(tags.len(), 0);
            assert_eq!(*version, Some(5));
        }
        other => panic!("expected a node, got {:?}", other),
    }
    match &elements[3] {
        Element::Node { id, lon, lat, version, .. } => {
            assert_eq!(*id, NodeID(3));
            assert!(matches!(lon, Degrees::Nano(2000)));
            assert!(matches!(lat, Degrees::Nano(1000)));
            assert_eq!(*version, Some(7));
        }
        other => panic!("expected a node, got {:?}", other),
    }
    match &elements[4] {
        Element::Way { id, node_ids, tags, version } => {
            assert_eq!(*id, WayID(2));
            assert_eq!(node_ids, &vec![NodeID(1), NodeID(2), NodeID(1)]);
            assert_eq!(tags.get("highway").map(|v| v.as_str()), Some("residential"));
            assert_eq!(*version, None);
        }
        other => panic!("expected a way, got {:?}", other),
    }
    match &elements[5] {
        Element::Relation { id, tags, members, version } => {
            assert_eq!(*id, RelationID(3));
            assert_eq!(tags.len(), 0);
            assert_eq!(
                members,
                &vec![
                    ("outer".to_string(), OsmID::Way(WayID(2))),
                    (String::new(), OsmID::Node(NodeID(1))),
                    ("outer".to_string(), OsmID::Relation(RelationID(3))),
                ]
            );
            assert_eq!(*version, Some(2));
        }
        other => panic!("expected a relation, got {:?}", other),
    }
}

#[test]
fn header_without_box_gives_no_bounds() {
    let (result, elements) = read_binary(&header_block(None));
    assert_eq!(result, Ok(()));
    assert!(elements.is_empty());
}

#[test]
fn every_header_with_a_box_gives_bounds_again() {
    let mut input = header_block(Some((1, 2, 3, 4)));
    input.extend(header_block(Some((5, 6, 7, 8))));
    let (result, elements) = read_binary(&input);
    assert_eq!(result, Ok(()));
    assert_eq!(elements.len(), 2);
    assert_eq!(elements[0].kind(), ElementKind::Bounds);
    assert_eq!(elements[1].kind(), ElementKind::Bounds);
}

#[test]
fn block_of_unknown_kind_is_passed_over() {
    let mut input = block("Other", b"whatever");
    input.extend(sample());
    let (result, elements) = read_binary(&input);
    assert_eq!(result, Ok(()));
    assert_eq!(elements.len(), 6);
}

#[test]
fn role_that_cannot_be_decoded_ends_the_parse() {
    let mut input = data_block(
        &STRINGS,
        &[
            group(&[plain_node(3, 10, 20, &[], None)], None, &[], &[]),
            group(&[], None, &[], &[relation(3, &[(6, 2, 1)], &[], None), relation(4, &[], &[], None)]),
        ],
    );
    input.extend(header_block(Some((1, 2, 3, 4))));
    let (result, elements) = read_binary(&input);
    assert_eq!(result, Err(ParseError::Schema(ElementKind::Relation)));
    assert_eq!(elements.len(), 1);
    assert_eq!(elements[0].kind(), ElementKind::Node);
}

#[test]
fn role_outside_the_string_table_ends_the_parse() {
    let input = data_block(&STRINGS, &[group(&[], None, &[], &[relation(3, &[(40, 2, 1)], &[], None)])]);
    let (result, elements) = read_binary(&input);
    assert_eq!(result, Err(ParseError::Schema(ElementKind::Relation)));
    assert!(elements.is_empty());
}

#[test]
fn block_without_content_is_a_decode_error() {
    let mut input = header_block(Some((1, 2, 3, 4)));
    input.extend(framed("OSMData", &[]));
    input.extend(sample());
    let (result, elements) = read_binary(&input);
    assert_eq!(result, Err(ParseError::Decode(DecodeFault::Block)));
    assert_eq!(elements.len(), 1);
}

#[test]
fn input_that_breaks_off_is_a_decode_error() {
    let whole = sample();
    let (result, elements) = read_binary(&whole[..whole.len() - 10]);
    assert_eq!(result, Err(ParseError::Decode(DecodeFault::Framing)));
    assert_eq!(elements.len(), 1);
}

#[test]
fn empty_and_short_input_is_a_decode_error() {
    assert_eq!(begin_binary(&[]), Err(ParseError::Decode(DecodeFault::Framing)));
    assert_eq!(begin_binary(&[0, 0, 0]), Err(ParseError::Decode(DecodeFault::Framing)));
    assert_eq!(begin_binary(&[0, 0, 0, 0]), Ok(()));
    assert_eq!(begin_binary(&sample()), Ok(()));
    assert_eq!(read_binary(&[]).0, Err(ParseError::Decode(DecodeFault::Framing)));
    assert_eq!(read_binary(&[0, 0, 0]).0, Err(ParseError::Decode(DecodeFault::Framing)));
    assert_eq!(read_binary(&[0, 0, 0, 0]).0, Err(ParseError::Decode(DecodeFault::Framing)));
    assert_eq!(read_binary(b"<?xm").0, Err(ParseError::Decode(DecodeFault::Framing)));
    assert_eq!(read_binary(&[0xff, 0xff, 0xff, 0xff, 1, 2, 3]).0, Err(ParseError::Decode(DecodeFault::Framing)));
}

#[test]
fn binary_sink_that_refuses_ends_the_parse() {
    let mut out = Outlet::new(Gatherer { elements: Vec::new(), limit: 3 });
    let result = read_into(&sample(), &mut out);
    assert_eq!(result, Err(ParseError::SinkAborted));
    assert_eq!(out.into_sink().elements.len(), 3);
}

#[test]
fn record_of_a_node_keeps_its_later_tag() {
    let record = RawRecord::Node {
        id: -4,
        lon: 1,
        lat: -2,
        tags: vec![
            ("a".to_string(), "1".to_string()),
            ("b".to_string(), "2".to_string()),
            ("a".to_string(), "3".to_string()),
        ],
        version: Some(9),
    };
    match normalize_record(record) {
        Ok(Element::Node { id, lon, lat, tags, version }) => {
            assert_eq!(id, NodeID(-4));
            assert!(matches!(lon, Degrees::Nano(1)));
            assert!(matches!(lat, Degrees::Nano(-2)));
            assert_eq!(tags.len(), 2);
            assert_eq!(tags.get("a").map(|v| v.as_str()), Some("3"));
            assert_eq!(tags.get("b").map(|v| v.as_str()), Some("2"));
            assert_eq!(tags.get("c"), None);
            assert_eq!(version, Some(9));
        }
        other => panic!("expected a node, got {:?}", other),
    }
}

#[test]
fn record_of_a_way_keeps_its_nodes_as_they_are() {
    let record =
        RawRecord::Way { id: 5, ref_deltas: vec![7, 0, -8, 8], tags: Vec::new(), version: None };
    match normalize_record(record) {
        Ok(Element::Way { id, node_ids, tags, version }) => {
            assert_eq!(id, WayID(5));
            assert_eq!(node_ids, vec![NodeID(7), NodeID(7), NodeID(-1), NodeID(7)]);
            assert_eq!(tags.len(), 0);
            assert_eq!(version, None);
        }
        other => panic!("expected a way, got {:?}", other),
    }
}

#[test]
fn record_of_a_relation_names_each_member_by_its_kind() {
    let record = RawRecord::Relation {
        id: 6,
        members: vec![
            RawMember { role: Some("a".to_string()), kind: MemberKind::Node, id: 1 },
            RawMember { role: Some("b".to_string()), kind: MemberKind::Way, id: 1 },
            RawMember { role: Some(String::new()), kind: MemberKind::Relation, id: 1 },
        ],
        tags: Vec::new(),
        version: Some(1),
    };
    match normalize_record(record) {
        Ok(Element::Relation { id, members, version, .. }) => {
            assert_eq!(id, RelationID(6));
            assert_eq!(
                members,
                vec![
                    ("a".to_string(), OsmID::Node(NodeID(1))),
                    ("b".to_string(), OsmID::Way(WayID(1))),
                    (String::new(), OsmID::Relation(RelationID(1))),
                ]
            );
            assert_eq!(version, Some(1));
        }
        other => panic!("expected a relation, got {:?}", other),
    }
}

#[test]
fn record_of_a_relation_without_a_role_is_a_schema_violation() {
    let record = RawRecord::Relation {
        id: 6,
        members: vec![
            RawMember { role: Some("a".to_string()), kind: MemberKind::Node, id: 1 },
            RawMember { role: None, kind: MemberKind::Way, id: 1 },
        ],
        tags: Vec::new(),
        version: None,
    };
    assert!(matches!(normalize_record(record), Err(ParseError::Schema(ElementKind::Relation))));
}

#[test]
fn box_of_a_header_maps_bottom_to_the_smallest_latitude() {
    let bounds = RawBounds {
        left: (-1.5f64).to_bits(),
        top: 4.25f64.to_bits(),
        right: 3.0f64.to_bits(),
        bottom: 2.0f64.to_bits(),
    };
    match normalize_bounds(&bounds) {
        Element::Bounds { min_lon, min_lat, max_lon, max_lat } => {
            assert_eq!(in_degrees(&min_lon), -1.5);
            assert_eq!(in_degrees(&min_lat), 2.0);
            assert_eq!(in_degrees(&max_lon), 3.0);
            assert_eq!(in_degrees(&max_lat), 4.25);
            assert!(in_degrees(&min_lon) <= in_degrees(&max_lon));
            assert!(in_degrees(&min_lat) <= in_degrees(&max_lat));
            assert!(matches!(min_lat, Degrees::Bits(bits) if bits == bounds.bottom));
            assert!(matches!(max_lat, Degrees::Bits(bits) if bits == bounds.top));
        }
        other => panic!("expected bounds, got {:?}", other),
    }
}

#[test]
fn box_of_a_header_is_kept_bit_for_bit() {
    let input = header_block(Some((-123_456_789, 987_654_321, 55_000_000_001, -55_000_000_001)));
    let (result, elements) = read_binary(&input);
    assert_eq!(result, Ok(()));
    assert_eq!(elements.len(), 1);
    match &elements[0] {
        Element::Bounds { min_lon, min_lat, max_lon, max_lat } => {
            assert_eq!(in_degrees(min_lon), (-123_456_789i64 as f64) * 1.0e-9);
            assert_eq!(in_degrees(max_lon), (987_654_321i64 as f64) * 1.0e-9);
            assert_eq!(in_degrees(min_lat), (-55_000_000_001i64 as f64) * 1.0e-9);
            assert_eq!(in_degrees(max_lat), (55_000_000_001i64 as f64) * 1.0e-9);
        }
        other => panic!("expected bounds, got {:?}", other),
    }
}

#[test]
fn nodes_of_a_way_are_the_sums_of_its_differences() {
    let record = RawRecord::Way {
        id: 1,
        ref_deltas: vec![i64::MAX, 1, -1, i64::MIN, 5],
        tags: Vec::new(),
        version: None,
    };
    match normalize_record(record) {
        Ok(Element::Way { node_ids, .. }) => {
            assert_eq!(
                node_ids,
                vec![NodeID(i64::MAX), NodeID(i64::MIN), NodeID(i64::MAX), NodeID(-1), NodeID(4)]
            );
        }
        other => panic!("expected a way, got {:?}", other),
    }
    let empty = RawRecord::Way { id: 1, ref_deltas: Vec::new(), tags: Vec::new(), version: None };
    assert!(matches!(normalize_record(empty), Ok(Element::Way { node_ids, .. }) if node_ids.is_empty()));
}

#[test]
fn way_whose_differences_leave_the_range_is_read_all_the_same() {
    let input = data_block(
        &STRINGS,
        &[group(&[], None, &[way_of_differences(9, &[i64::MAX, i64::MAX, 3])], &[])],
    );
    let (result, elements) = read_binary(&input);
    assert_eq!(result, Ok(()));
    match &elements[0] {
        Element::Way { id, node_ids, .. } => {
            assert_eq!(*id, WayID(9));
            assert_eq!(node_ids, &vec![NodeID(i64::MAX), NodeID(-2), NodeID(1)]);
        }
        other => panic!("expected a way, got {:?}", other),
    }
}

#[test]
fn collector_keeps_what_it_is_handed() {
    let mut out = Outlet::new(Collector::new());
    assert_eq!(parse_pbf(blocks_of(&sample()), &mut out), Ok(()));
    let kinds: Vec<ElementKind> = out.into_sink().elements.iter().map(|e| e.kind()).collect();
    assert_eq!(
        kinds,
        vec![
            ElementKind::Bounds,
            ElementKind::Node,
            ElementKind::Node,
            ElementKind::Node,
            ElementKind::Way,
            ElementKind::Relation,
        ]
    );
}

#[test]
fn two_parses_of_one_binary_input_give_the_same_stream() {
    let input = sample();
    let (first_result, first) = read_binary(&input);
    let (second_result, second) = read_binary(&input);
    assert_eq!(first_result, second_result);
    assert_eq!(first.len(), second.len());
    for (one, two) in first.iter().zip(second.iter()) {
        assert_eq!(one.kind(), two.kind());
    }
    let ids = |elements: &Vec<Element>| -> Vec<i64> {
        elements
            .iter()
            .filter_map(|e| match e {
                Element::Bounds { .. } => None,
                Element::Node { id, .. } => Some(id.0),
                Element::Way { id, .. } => Some(id.0),
                Element::Relation { id, .. } => Some(id.0),
            })
            .collect()
    };
    assert_eq!(ids(&first), vec![1, 2, 3, 2, 3]);
    assert_eq!(ids(&first), ids(&second));
}

#[test]
fn nodes_of_a_group_come_packed_ones_first() {
    let input = data_block(
        &STRINGS,
        &[group(
            &[plain_node(10, 0, 0, &[], None), plain_node(11, 0, 0, &[], None)],
            Some(dense_nodes(&[20, 21], &[0, 0], &[0, 0], &[0, 0], &[])),
            &[way(30, &[], &[], None)],
            &[relation(40, &[], &[], None)],
        )],
    );
    let (result, elements) = read_binary(&input);
    assert_eq!(result, Ok(()));
    let kinds: Vec<ElementKind> = elements.iter().map(|e| e.kind()).collect();
    assert_eq!(
        kinds,
        vec![
            ElementKind::Node,
            ElementKind::Node,
            ElementKind::Node,
            ElementKind::Node,
            ElementKind::Way,
            ElementKind::Relation,
        ]
    );
    match (&elements[0], &elements[2]) {
        (Element::Node { id: packed, version: none, .. }, Element::Node { id: alone, .. }) => {
            assert_eq!(*packed, NodeID(20));
            assert_eq!(*alone, NodeID(10));
            assert_eq!(*none, None);
        }
        other => panic!("expected nodes, got {:?}", other),
    }
}

#[test]
fn blocks_in_a_list_give_what_they_give_one_by_one() {
    let mut out = Outlet::new(Collector::new());
    let blocks = vec![
        RawBlock::Other,
        RawBlock::Header(None),
        RawBlock::Header(Some(RawBounds { left: 1, top: 4, right: 3, bottom: 2 })),
        RawBlock::Data(vec![
            RawGroup {
                dense_nodes: vec![RawRecord::Node { id: 2, lon: 0, lat: 0, tags: Vec::new(), version: None }],
                nodes: vec![RawRecord::Node { id: 1, lon: 0, lat: 0, tags: Vec::new(), version: None }],
                ways: vec![RawRecord::Way { id: 3, ref_deltas: vec![1, 1], tags: Vec::new(), version: None }],
                relations: vec![RawRecord::Relation { id: 4, members: Vec::new(), tags: Vec::new(), version: None }],
            },
            RawGroup { dense_nodes: Vec::new(), nodes: Vec::new(), ways: Vec::new(), relations: Vec::new() },
        ]),
        RawBlock::Undecodable,
        RawBlock::Header(Some(RawBounds { left: 1, top: 4, right: 3, bottom: 2 })),
    ];
    assert_eq!(parse_pbf(blocks, &mut out), Err(ParseError::Decode(DecodeFault::Block)));
    let elements = out.into_sink().elements;
    let kinds: Vec<ElementKind> = elements.iter().map(|e| e.kind()).collect();
    assert_eq!(
        kinds,
        vec![
            ElementKind::Bounds,
            ElementKind::Node,
            ElementKind::Node,
            ElementKind::Way,
            ElementKind::Relation,
        ]
    );
    assert!(matches!(&elements[1], Element::Node { id, .. } if *id == NodeID(2)));
    assert!(matches!(&elements[2], Element::Node { id, .. } if *id == NodeID(1)));
}

#[test]
fn block_that_cannot_be_read_ends_the_parse() {
    let mut out = Outlet::new(Collector::new());
    assert_eq!(
        stream_block(RawBlock::Unreadable, &mut out),
        Err(ParseError::Decode(DecodeFault::Framing))
    );
    assert_eq!(
        stream_block(RawBlock::Undecodable, &mut out),
        Err(ParseError::Decode(DecodeFault::Block))
    );
    assert_eq!(stream_block(RawBlock::Other, &mut out), Ok(()));
    assert_eq!(stream_block(RawBlock::Header(None), &mut out), Ok(()));
    assert!(out.into_sink().elements.is_empty());
}

#[test]
fn no_blocks_give_nothing() {
    let mut out = Outlet::new(Collector::new());
    assert_eq!(parse_pbf(Vec::new(), &mut out), Ok(()));
    assert!(out.into_sink().elements.is_empty());
}
