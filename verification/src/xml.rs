//! The markup format: which records a document holds, and what each of them
//! says.
//!
//! The document is walked in document order. An element named `bounds`,
//! `node`, `way` or `relation` is a record, at whatever depth it stands; every
//! other node is passed over.

use vstd::prelude::*;

use crate::element::{DegreesView, Degrees, Element, ElementKind, ElementView, MemberView};
use crate::error::{DecodeFault, ParseError};
use crate::ids::{NodeID, OsmID, RelationID, WayID};
use crate::markup::{
    document_nodes, node_attribute, node_children, node_count, node_is_element, node_name,
    parse_document, parsed_markup, utf8_text, MarkupNode,
};
use crate::sink::{ElementSink, Outlet};
use crate::stream::{
    hand_on, kept_up, lemma_next_step, lemma_part_grows, lemma_sink_follows_itself,
    lemma_streamed_all, parsed, read_step, sink_follows, step_of, Outcome, Step,
};
use crate::tags::{pairs_map, Tags, TextPair};
use crate::text::{float_text, i64_value, is_float_text, parse_i64, same_text};

verus! {

/// The characters of a text that may be missing.
pub open spec fn chars_of(text: Option<&str>) -> Option<Seq<char>> {
    match text {
        Some(text) => Some(text@),
        None => None,
    }
}

/// The value of the attribute `name` of `node`, if it has one.
pub open spec fn attribute(node: MarkupNode, name: Seq<char>) -> Option<Seq<char>> {
    if node.attributes.contains_key(name) {
        Some(node.attributes[name])
    } else {
        None
    }
}

/// The integer that an attribute holds. `None` where the attribute is missing
/// or holds no 64-bit integer.
pub open spec fn number_in(text: Option<Seq<char>>) -> Option<i64> {
    match text {
        Some(text) => i64_value(text),
        None => None,
    }
}

/// The angle that an attribute holds. `None` where the attribute is missing or
/// does not read as a floating-point number.
pub open spec fn degrees_in(text: Option<Seq<char>>) -> Option<DegreesView> {
    match text {
        Some(text) => if float_text(text) {
            Some(DegreesView::Decimal(text))
        } else {
            None
        },
        None => None,
    }
}

/// What a child of a record adds to a list of the record.
pub enum Part<T> {
    /// Nothing: the child is none of the list's.
    Absent,
    /// One item.
    Item(T),
    /// The child is of the list's, and malformed.
    Broken,
}

/// The list that `parts` make, in their order. `None` where one is broken.
pub open spec fn gather<T>(parts: Seq<Part<T>>) -> Option<Seq<T>>
    decreases parts.len(),
{
    if parts.len() == 0 {
        Some(Seq::empty())
    } else {
        match (gather(parts.drop_last()), parts.last()) {
            (Some(front), Part::Absent) => Some(front),
            (Some(front), Part::Item(item)) => Some(front.push(item)),
            _ => None,
        }
    }
}

/// A list with a broken part is broken, whatever follows that part.
pub proof fn lemma_gather_broken<T>(parts: Seq<Part<T>>, done: int)
    requires
        0 <= done <= parts.len(),
        gather(parts.take(done)) is None,
    ensures
        gather(parts) is None,
    decreases parts.len() - done,
{
    if done == parts.len() {
        assert(parts.take(done) =~= parts);
    } else {
        assert(parts.drop_last().take(done) =~= parts.take(done));
        lemma_gather_broken(parts.drop_last(), done);
    }
}

/// What each child of a record adds to a list, where `read` says what a child
/// adds.
pub open spec fn child_parts<T>(
    nodes: Seq<MarkupNode>,
    children: Seq<usize>,
    read: spec_fn(MarkupNode) -> Part<T>,
) -> Seq<Part<T>> {
    Seq::new(children.len(), |i: int| read(nodes[children[i] as int]))
}

/// The tag that the attributes `k` and `v` of a `tag` element make. Both are
/// required.
pub open spec fn tag_of(key: Option<Seq<char>>, value: Option<Seq<char>>) -> Option<TextPair> {
    match (key, value) {
        (Some(key), Some(value)) => Some((key, value)),
        _ => None,
    }
}

/// What a child adds to the tags of its record.
pub open spec fn tag_part(child: MarkupNode) -> Part<TextPair> {
    if child.name == "tag"@ {
        match tag_of(attribute(child, "k"@), attribute(child, "v"@)) {
            Some(pair) => Part::Item(pair),
            None => Part::Broken,
        }
    } else {
        Part::Absent
    }
}

/// The node that the attribute `ref` of an `nd` element names. The attribute
/// is required and holds an integer.
pub open spec fn way_node_of(reference: Option<Seq<char>>) -> Option<NodeID> {
    match number_in(reference) {
        Some(number) => Some(NodeID(number)),
        None => None,
    }
}

/// What a child adds to the nodes of a way.
pub open spec fn way_node_part(child: MarkupNode) -> Part<NodeID> {
    if child.name == "nd"@ {
        match way_node_of(attribute(child, "ref"@)) {
            Some(id) => Part::Item(id),
            None => Part::Broken,
        }
    } else {
        Part::Absent
    }
}

/// The member that the attributes `type`, `ref` and `role` of a `member`
/// element make. All three are required, and `ref` holds an integer. A type
/// other than `node`, `way` and `relation` makes no member, and no error.
pub open spec fn member_of(
    kind: Option<Seq<char>>,
    reference: Option<Seq<char>>,
    role: Option<Seq<char>>,
) -> Part<MemberView> {
    match (kind, number_in(reference), role) {
        (Some(kind), Some(number), Some(role)) => if kind == "node"@ {
            Part::Item((role, OsmID::Node(NodeID(number))))
        } else if kind == "way"@ {
            Part::Item((role, OsmID::Way(WayID(number))))
        } else if kind == "relation"@ {
            Part::Item((role, OsmID::Relation(RelationID(number))))
        } else {
            Part::Absent
        },
        _ => Part::Broken,
    }
}

/// What a child adds to the members of a relation.
pub open spec fn member_part(child: MarkupNode) -> Part<MemberView> {
    if child.name == "member"@ {
        member_of(attribute(child, "type"@), attribute(child, "ref"@), attribute(child, "role"@))
    } else {
        Part::Absent
    }
}

/// The tags of a record, in document order. `None` where one is malformed.
pub open spec fn tags_of(nodes: Seq<MarkupNode>, node: MarkupNode) -> Option<Seq<TextPair>> {
    gather(child_parts(nodes, node.children, |child: MarkupNode| tag_part(child)))
}

/// The nodes of a way, in document order. `None` where one is malformed.
pub open spec fn way_nodes_of(nodes: Seq<MarkupNode>, node: MarkupNode) -> Option<Seq<NodeID>> {
    gather(child_parts(nodes, node.children, |child: MarkupNode| way_node_part(child)))
}

/// The members of a relation, in document order, without those of a type that
/// is not known. `None` where one is malformed.
pub open spec fn members_of(nodes: Seq<MarkupNode>, node: MarkupNode) -> Option<Seq<MemberView>> {
    gather(child_parts(nodes, node.children, |child: MarkupNode| member_part(child)))
}

/// What a `bounds` element with these attributes says. All four are required
/// and read as floating-point numbers.
pub open spec fn bounds_of(
    min_lon: Option<Seq<char>>,
    min_lat: Option<Seq<char>>,
    max_lon: Option<Seq<char>>,
    max_lat: Option<Seq<char>>,
) -> Step {
    match (degrees_in(min_lon), degrees_in(min_lat), degrees_in(max_lon), degrees_in(max_lat)) {
        (Some(min_lon), Some(min_lat), Some(max_lon), Some(max_lat)) => Step::Emit(
            ElementView::Bounds { min_lon, min_lat, max_lon, max_lat },
        ),
        _ => Step::Fail(ParseError::Schema(ElementKind::Bounds)),
    }
}

/// What a `node` element with these attributes and tags says. `id` is required
/// and holds an integer; `lon` and `lat` are required and read as
/// floating-point numbers. The markup format has no version.
pub open spec fn node_of(
    id: Option<Seq<char>>,
    lon: Option<Seq<char>>,
    lat: Option<Seq<char>>,
    tags: Map<Seq<char>, Seq<char>>,
) -> Step {
    match (number_in(id), degrees_in(lon), degrees_in(lat)) {
        (Some(id), Some(lon), Some(lat)) => Step::Emit(
            ElementView::Node { id: NodeID(id), lon, lat, tags, version: None },
        ),
        _ => Step::Fail(ParseError::Schema(ElementKind::Node)),
    }
}

/// What a `way` element with this `id`, these tags and these nodes says.
pub open spec fn way_of(
    id: Option<Seq<char>>,
    tags: Map<Seq<char>, Seq<char>>,
    node_ids: Seq<NodeID>,
) -> Step {
    match number_in(id) {
        Some(id) => Step::Emit(ElementView::Way { id: WayID(id), node_ids, tags, version: None }),
        None => Step::Fail(ParseError::Schema(ElementKind::Way)),
    }
}

/// What a `relation` element with this `id`, these tags and these members
/// says.
pub open spec fn relation_of(
    id: Option<Seq<char>>,
    tags: Map<Seq<char>, Seq<char>>,
    members: Seq<MemberView>,
) -> Step {
    match number_in(id) {
        Some(id) => Step::Emit(
            ElementView::Relation { id: RelationID(id), tags, members, version: None },
        ),
        None => Step::Fail(ParseError::Schema(ElementKind::Relation)),
    }
}

/// What the node at place `at` adds to the stream.
pub open spec fn record_at(nodes: Seq<MarkupNode>, at: int) -> Step {
    let node = nodes[at];
    if !node.element {
        Step::Skip
    } else if node.name == "bounds"@ {
        bounds_of(
            attribute(node, "minlon"@),
            attribute(node, "minlat"@),
            attribute(node, "maxlon"@),
            attribute(node, "maxlat"@),
        )
    } else if node.name == "node"@ {
        match tags_of(nodes, node) {
            Some(tags) => node_of(
                attribute(node, "id"@),
                attribute(node, "lon"@),
                attribute(node, "lat"@),
                pairs_map(tags),
            ),
            None => Step::Fail(ParseError::Schema(ElementKind::Node)),
        }
    } else if node.name == "way"@ {
        match (tags_of(nodes, node), way_nodes_of(nodes, node)) {
            (Some(tags), Some(node_ids)) => way_of(attribute(node, "id"@), pairs_map(tags), node_ids),
            _ => Step::Fail(ParseError::Schema(ElementKind::Way)),
        }
    } else if node.name == "relation"@ {
        match (tags_of(nodes, node), members_of(nodes, node)) {
            (Some(tags), Some(members)) => relation_of(
                attribute(node, "id"@),
                pairs_map(tags),
                members,
            ),
            _ => Step::Fail(ParseError::Schema(ElementKind::Relation)),
        }
    } else {
        Step::Skip
    }
}

/// What each node of a document adds to the stream, in document order.
pub open spec fn document_steps(nodes: Seq<MarkupNode>) -> Seq<Step> {
    Seq::new(nodes.len(), |at: int| record_at(nodes, at))
}

/// What the markup input `bytes` holds.
pub open spec fn markup_outcome(bytes: Seq<u8>) -> Outcome {
    if !vstd::utf8::valid_utf8(bytes) {
        Outcome::failed(ParseError::Decode(DecodeFault::Encoding))
    } else {
        match parsed_markup(vstd::utf8::decode_utf8(bytes)) {
            Some(nodes) => Outcome::empty().plus_all(document_steps(nodes)),
            None => Outcome::failed(ParseError::Decode(DecodeFault::Markup)),
        }
    }
}

/// Reads an angle from an attribute that may be missing.
fn degrees_from(text: Option<&str>) -> (r: Option<Degrees>)
    ensures
        match r {
            Some(degrees) => degrees_in(chars_of(text)) == Some(degrees@),
            None => degrees_in(chars_of(text)) is None,
        },
{
    match text {
        Some(text) => if is_float_text(text) {
            Some(Degrees::Decimal(text.to_owned()))
        } else {
            None
        },
        None => None,
    }
}

/// Reads an integer from an attribute that may be missing.
fn number_from(text: Option<&str>) -> (r: Option<i64>)
    ensures
        r == number_in(chars_of(text)),
{
    match text {
        Some(text) => parse_i64(text),
        None => None,
    }
}

/// Reads a `bounds` element from its attributes `minlon`, `minlat`, `maxlon`
/// and `maxlat`.
pub fn bounds_element(
    min_lon: Option<&str>,
    min_lat: Option<&str>,
    max_lon: Option<&str>,
    max_lat: Option<&str>,
) -> (r: Result<Element, ParseError>)
    ensures
        step_of(r) == bounds_of(
            chars_of(min_lon),
            chars_of(min_lat),
            chars_of(max_lon),
            chars_of(max_lat),
        ),
{
    match (degrees_from(min_lon), degrees_from(min_lat), degrees_from(max_lon), degrees_from(max_lat)) {
        (Some(min_lon), Some(min_lat), Some(max_lon), Some(max_lat)) => Ok(
            Element::Bounds { min_lon, min_lat, max_lon, max_lat },
        ),
        _ => Err(ParseError::Schema(ElementKind::Bounds)),
    }
}

/// Reads a `node` element from its attributes `id`, `lon` and `lat` and its
/// tags.
pub fn node_element(id: Option<&str>, lon: Option<&str>, lat: Option<&str>, tags: Tags) -> (r:
    Result<Element, ParseError>)
    ensures
        step_of(r) == node_of(chars_of(id), chars_of(lon), chars_of(lat), tags@),
{
    match (number_from(id), degrees_from(lon), degrees_from(lat)) {
        (Some(id), Some(lon), Some(lat)) => Ok(
            Element::Node { id: NodeID(id), lon, lat, tags, version: None },
        ),
        _ => Err(ParseError::Schema(ElementKind::Node)),
    }
}

/// Reads a `way` element from its attribute `id`, its tags and its nodes.
pub fn way_element(id: Option<&str>, tags: Tags, node_ids: Vec<NodeID>) -> (r: Result<
    Element,
    ParseError,
>)
    ensures
        step_of(r) == way_of(chars_of(id), tags@, node_ids@),
{
    match number_from(id) {
        Some(id) => Ok(Element::Way { id: WayID(id), node_ids, tags, version: None }),
        None => Err(ParseError::Schema(ElementKind::Way)),
    }
}

/// Reads a `relation` element from its attribute `id`, its tags and its
/// members.
pub fn relation_element(id: Option<&str>, tags: Tags, members: Vec<(String, OsmID)>) -> (r:
    Result<Element, ParseError>)
    ensures
        step_of(r) == relation_of(chars_of(id), tags@, crate::element::member_views(members@)),
{
    match number_from(id) {
        Some(id) => Ok(Element::Relation { id: RelationID(id), tags, members, version: None }),
        None => Err(ParseError::Schema(ElementKind::Relation)),
    }
}

/// Reads a tag from the attributes `k` and `v` of a `tag` element.
pub fn tag_entry(key: Option<&str>, value: Option<&str>) -> (r: Option<(String, String)>)
    ensures
        match r {
            Some(pair) => tag_of(chars_of(key), chars_of(value)) == Some((pair.0@, pair.1@)),
            None => tag_of(chars_of(key), chars_of(value)) is None,
        },
{
    match (key, value) {
        (Some(key), Some(value)) => Some((key.to_owned(), value.to_owned())),
        _ => None,
    }
}

/// Reads the node that an `nd` element names from its attribute `ref`.
pub fn way_node(reference: Option<&str>) -> (r: Option<NodeID>)
    ensures
        r == way_node_of(chars_of(reference)),
{
    match number_from(reference) {
        Some(number) => Some(NodeID(number)),
        None => None,
    }
}

/// Reads a member of a relation from the attributes `type`, `ref` and `role`
/// of a `member` element. `Ok(None)` is a member of a type that is not known:
/// it is left out, and the relation stands.
pub fn relation_member(kind: Option<&str>, reference: Option<&str>, role: Option<&str>) -> (r:
    Result<Option<(String, OsmID)>, ParseError>)
    ensures
        match r {
            Ok(Some(member)) => member_of(chars_of(kind), chars_of(reference), chars_of(role))
                == Part::Item((member.0@, member.1)),
            Ok(None) => member_of(chars_of(kind), chars_of(reference), chars_of(role))
                == Part::<MemberView>::Absent,
            Err(error) => error == ParseError::Schema(ElementKind::Relation) && member_of(
                chars_of(kind),
                chars_of(reference),
                chars_of(role),
            ) == Part::<MemberView>::Broken,
        },
{
    match (kind, number_from(reference), role) {
        (Some(kind), Some(number), Some(role)) => {
            if same_text(kind, "node") {
                Ok(Some((role.to_owned(), OsmID::Node(NodeID(number)))))
            } else if same_text(kind, "way") {
                Ok(Some((role.to_owned(), OsmID::Way(WayID(number)))))
            } else if same_text(kind, "relation") {
                Ok(Some((role.to_owned(), OsmID::Relation(RelationID(number)))))
            } else {
                Ok(None)
            }
        },
        _ => Err(ParseError::Schema(ElementKind::Relation)),
    }
}

/// The list with one part more is the list so far with what that part adds.
proof fn lemma_gather_next<T>(parts: Seq<Part<T>>, done: int)
    requires
        0 <= done < parts.len(),
    ensures
        gather(parts.take(done + 1)) == match (gather(parts.take(done)), parts[done]) {
            (Some(front), Part::Absent) => Some(front),
            (Some(front), Part::Item(item)) => Some(front.push(item)),
            _ => None,
        },
{
    assert(parts.take(done + 1).drop_last() =~= parts.take(done));
}

/// Reads the tags of a record from its children.
fn read_tags(doc: &roxmltree::Document, children: &Vec<usize>) -> (r: Option<Tags>)
    requires
        forall|i: int| 0 <= i < children@.len() ==> children@[i] < document_nodes(*doc).len(),
    ensures
        match (r, gather(
            child_parts(document_nodes(*doc), children@, |child: MarkupNode| tag_part(child)),
        )) {
            (Some(tags), Some(pairs)) => tags@ == pairs_map(pairs),
            (None, None) => true,
            _ => false,
        },
{
    let ghost nodes = document_nodes(*doc);
    let ghost parts = child_parts(nodes, children@, |child: MarkupNode| tag_part(child));
    let ghost mut pairs: Seq<TextPair> = Seq::empty();
    let mut tags = Tags::new();
    let mut i: usize = 0;
    assert(parts.take(0) =~= Seq::<Part<TextPair>>::empty());
    while i < children.len()
        invariant
            i <= children.len(),
            nodes == document_nodes(*doc),
            parts == child_parts(nodes, children@, |child: MarkupNode| tag_part(child)),
            forall|k: int| 0 <= k < children@.len() ==> children@[k] < nodes.len(),
            gather(parts.take(i as int)) == Some(pairs),
            tags@ == pairs_map(pairs),
        decreases children.len() - i,
    {
        let child = children[i];
        proof {
            lemma_gather_next(parts, i as int);
            assert(parts[i as int] == tag_part(nodes[child as int]));
        }
        if same_text(node_name(doc, child), "tag") {
            match tag_entry(node_attribute(doc, child, "k"), node_attribute(doc, child, "v")) {
                Some(pair) => {
                    let ghost earlier = pairs;
                    proof {
                        pairs = earlier.push((pair.0@, pair.1@));
                        assert(pairs.drop_last() =~= earlier);
                    }
                    let (key, value) = pair;
                    tags.insert(key, value);
                },
                None => {
                    proof {
                        lemma_gather_broken(parts, i + 1);
                    }
                    return None;
                },
            }
        }
        i = i + 1;
    }
    assert(parts.take(children.len() as int) =~= parts);
    Some(tags)
}

/// Reads the nodes of a way from its children.
fn read_way_nodes(doc: &roxmltree::Document, children: &Vec<usize>) -> (r: Option<Vec<NodeID>>)
    requires
        forall|i: int| 0 <= i < children@.len() ==> children@[i] < document_nodes(*doc).len(),
    ensures
        match (r, gather(
            child_parts(document_nodes(*doc), children@, |child: MarkupNode| way_node_part(child)),
        )) {
            (Some(ids), Some(found)) => ids@ == found,
            (None, None) => true,
            _ => false,
        },
{
    let ghost nodes = document_nodes(*doc);
    let ghost parts = child_parts(nodes, children@, |child: MarkupNode| way_node_part(child));
    let mut ids: Vec<NodeID> = Vec::new();
    let mut i: usize = 0;
    assert(parts.take(0) =~= Seq::<Part<NodeID>>::empty());
    while i < children.len()
        invariant
            i <= children.len(),
            nodes == document_nodes(*doc),
            parts == child_parts(nodes, children@, |child: MarkupNode| way_node_part(child)),
            forall|k: int| 0 <= k < children@.len() ==> children@[k] < nodes.len(),
            gather(parts.take(i as int)) == Some(ids@),
        decreases children.len() - i,
    {
        let child = children[i];
        proof {
            lemma_gather_next(parts, i as int);
            assert(parts[i as int] == way_node_part(nodes[child as int]));
        }
        if same_text(node_name(doc, child), "nd") {
            match way_node(node_attribute(doc, child, "ref")) {
                Some(id) => {
                    ids.push(id);
                },
                None => {
                    proof {
                        lemma_gather_broken(parts, i + 1);
                    }
                    return None;
                },
            }
        }
        i = i + 1;
    }
    assert(parts.take(children.len() as int) =~= parts);
    Some(ids)
}

/// Reads the members of a relation from its children.
fn read_members(doc: &roxmltree::Document, children: &Vec<usize>) -> (r: Option<
    Vec<(String, OsmID)>,
>)
    requires
        forall|i: int| 0 <= i < children@.len() ==> children@[i] < document_nodes(*doc).len(),
    ensures
        match (r, gather(
            child_parts(document_nodes(*doc), children@, |child: MarkupNode| member_part(child)),
        )) {
            (Some(members), Some(found)) => crate::element::member_views(members@) == found,
            (None, None) => true,
            _ => false,
        },
{
    let ghost nodes = document_nodes(*doc);
    let ghost parts = child_parts(nodes, children@, |child: MarkupNode| member_part(child));
    let mut members: Vec<(String, OsmID)> = Vec::new();
    let mut i: usize = 0;
    assert(parts.take(0) =~= Seq::<Part<MemberView>>::empty());
    assert(crate::element::member_views(members@) =~= Seq::<MemberView>::empty());
    while i < children.len()
        invariant
            i <= children.len(),
            nodes == document_nodes(*doc),
            parts == child_parts(nodes, children@, |child: MarkupNode| member_part(child)),
            forall|k: int| 0 <= k < children@.len() ==> children@[k] < nodes.len(),
            gather(parts.take(i as int)) == Some(crate::element::member_views(members@)),
        decreases children.len() - i,
    {
        let child = children[i];
        proof {
            lemma_gather_next(parts, i as int);
            assert(parts[i as int] == member_part(nodes[child as int]));
        }
        if same_text(node_name(doc, child), "member") {
            let read = relation_member(
                node_attribute(doc, child, "type"),
                node_attribute(doc, child, "ref"),
                node_attribute(doc, child, "role"),
            );
            match read {
                Ok(Some(member)) => {
                    let ghost before = crate::element::member_views(members@);
                    let ghost added = (member.0@, member.1);
                    members.push(member);
                    assert(crate::element::member_views(members@) =~= before.push(added));
                },
                Ok(None) => {},
                Err(_) => {
                    proof {
                        lemma_gather_broken(parts, i + 1);
                    }
                    return None;
                },
            }
        }
        i = i + 1;
    }
    assert(parts.take(children.len() as int) =~= parts);
    Some(members)
}

/// Reads the node at place `at`: the element it holds if it is a record,
/// `None` if it is none.
fn element_at(doc: &roxmltree::Document, at: usize) -> (r: Result<Option<Element>, ParseError>)
    requires
        at < document_nodes(*doc).len(),
    ensures
        read_step(r) == record_at(document_nodes(*doc), at as int),
{
    if !node_is_element(doc, at) {
        return Ok(None);
    }
    let name = node_name(doc, at);
    if same_text(name, "bounds") {
        let read = bounds_element(
            node_attribute(doc, at, "minlon"),
            node_attribute(doc, at, "minlat"),
            node_attribute(doc, at, "maxlon"),
            node_attribute(doc, at, "maxlat"),
        );
        match read {
            Ok(element) => Ok(Some(element)),
            Err(error) => Err(error),
        }
    } else if same_text(name, "node") {
        let children = node_children(doc, at);
        let tags = match read_tags(doc, &children) {
            Some(tags) => tags,
            None => {
                return Err(ParseError::Schema(ElementKind::Node));
            },
        };
        let read = node_element(
            node_attribute(doc, at, "id"),
            node_attribute(doc, at, "lon"),
            node_attribute(doc, at, "lat"),
            tags,
        );
        match read {
            Ok(element) => Ok(Some(element)),
            Err(error) => Err(error),
        }
    } else if same_text(name, "way") {
        let children = node_children(doc, at);
        let tags = match read_tags(doc, &children) {
            Some(tags) => tags,
            None => {
                return Err(ParseError::Schema(ElementKind::Way));
            },
        };
        let node_ids = match read_way_nodes(doc, &children) {
            Some(node_ids) => node_ids,
            None => {
                return Err(ParseError::Schema(ElementKind::Way));
            },
        };
        match way_element(node_attribute(doc, at, "id"), tags, node_ids) {
            Ok(element) => Ok(Some(element)),
            Err(error) => Err(error),
        }
    } else if same_text(name, "relation") {
        let children = node_children(doc, at);
        let tags = match read_tags(doc, &children) {
            Some(tags) => tags,
            None => {
                return Err(ParseError::Schema(ElementKind::Relation));
            },
        };
        let members = match read_members(doc, &children) {
            Some(members) => members,
            None => {
                return Err(ParseError::Schema(ElementKind::Relation));
            },
        };
        match relation_element(node_attribute(doc, at, "id"), tags, members) {
            Ok(element) => Ok(Some(element)),
            Err(error) => Err(error),
        }
    } else {
        Ok(None)
    }
}

/// Reads an extract in the markup format and hands its elements to the sink,
/// in document order.
///
/// Input that is no UTF-8 text or no well-formed document is an error before
/// anything is handed over. After that, each record is handed over as it is
/// read, and the first record in error ends the parse.
pub fn parse_xml<S: ElementSink>(bytes: &[u8], out: &mut Outlet<S>) -> (r: Result<(), ParseError>)
    ensures
        parsed(markup_outcome(bytes@), *old(out), *final(out), r),
{
    let ghost start = *out;
    let ghost before = out.log();
    let ghost whole = markup_outcome(bytes@);
    proof {
        lemma_sink_follows_itself(start);
    }
    assert(before.skip(before.len() as int) =~= Seq::empty());
    assert(before.take(before.len() as int) =~= before);
    let text = match utf8_text(bytes) {
        Some(text) => text,
        None => {
            return Err(ParseError::Decode(DecodeFault::Encoding));
        },
    };
    let doc = match parse_document(text) {
        Ok(doc) => doc,
        Err(_) => {
            return Err(ParseError::Decode(DecodeFault::Markup));
        },
    };
    let ghost nodes = document_nodes(doc);
    let ghost steps = document_steps(nodes);
    let count = node_count(&doc);
    let mut at: usize = 0;
    assert(steps.take(0) =~= Seq::<Step>::empty());
    while at < count
        invariant
            at <= count,
            count == nodes.len(),
            nodes == document_nodes(doc),
            steps == document_steps(nodes),
            whole == Outcome::empty().plus_all(steps),
            whole == markup_outcome(bytes@),
            before == old(out).log(),
            start == *old(out),
            sink_follows(start, *out),
            kept_up(Outcome::empty().plus_all(steps.take(at as int)), before, out.log()),
        decreases count - at,
    {
        let ghost sofar = Outcome::empty().plus_all(steps.take(at as int));
        proof {
            lemma_next_step(Outcome::empty(), steps, at as int);
            lemma_part_grows(Outcome::empty(), steps, at + 1);
        }
        let read = element_at(&doc, at);
        match hand_on(out, read, Ghost(sofar), Ghost(whole), Ghost(start)) {
            Ok(()) => {},
            Err(error) => {
                return Err(error);
            },
        }
        at = at + 1;
    }
    proof {
        assert(steps.take(count as int) =~= steps);
        lemma_streamed_all(whole, whole, before, out.log());
    }
    Ok(())
}

} // verus!
