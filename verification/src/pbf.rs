//! The binary format: which records the blocks of an input hold, and what
//! each of them says.
//!
//! The blocks are taken in the order of the input, and the records of a data
//! block in the order of the block. Nothing is held back or put in order.
//!
//! The decoder is not called from here. It panics on some damaged input and
//! offers no way to tell such input beforehand, so it is run where a panic
//! can be caught, and hands over what it read, block by block, as plain
//! values. What becomes of them is decided here.
//!
//! A caller asks `begin_binary` first, then hands each block to
//! `stream_block` as it is decoded, and stops at the first error. That this
//! comes to the same as `parse_pbf` on all the blocks is the law
//! `blocks_in_turn`.

use vstd::prelude::*;

use crate::blocks::{
    block_views, group_views, member_records, record_views, BlockView, GroupView, MemberKind,
    RawBlock, RawBounds, RawGroup, RawMember, RawMemberView, RawRecord, RawRecordView,
};
use crate::element::{member_views, Degrees, DegreesView, Element, ElementKind, ElementView, MemberView};
use crate::error::{DecodeFault, ParseError};
use crate::ids::{NodeID, OsmID, RelationID, WayID};
use crate::sink::{ElementSink, Outlet};
use crate::stream::{
    chain, hand_on, kept_up, lemma_chain_next, lemma_chain_part_grows, lemma_grows_on,
    lemma_next_step, lemma_part_grows, lemma_plus_all_grows, lemma_plus_all_joined,
    lemma_plus_one, lemma_sink_follows_itself, lemma_streamed_all, parsed, read_step,
    sink_follows, step_of, streamed, Outcome, Step,
};
use crate::tags::{pairs_map, Tags};

verus! {

/// The entity that a member of the kind `kind` with the number `id` is.
pub open spec fn entity_of(kind: MemberKind, id: i64) -> OsmID {
    match kind {
        MemberKind::Node => OsmID::Node(NodeID(id)),
        MemberKind::Way => OsmID::Way(WayID(id)),
        MemberKind::Relation => OsmID::Relation(RelationID(id)),
    }
}

/// Whether the role of every member could be decoded.
pub open spec fn roles_decoded(members: Seq<RawMemberView>) -> bool {
    forall|i: int| 0 <= i < members.len() ==> (#[trigger] members[i]).role is Some
}

/// The members of a relation, each with its role, in the order of the
/// record.
pub open spec fn members_from(members: Seq<RawMemberView>) -> Seq<MemberView> {
    Seq::new(
        members.len(),
        |i: int| (members[i].role.unwrap(), entity_of(members[i].kind, members[i].id)),
    )
}

/// The number that the differences `deltas` add up to. The sum wraps at 64
/// bits.
pub open spec fn running_sum(deltas: Seq<i64>) -> i64
    decreases deltas.len(),
{
    if deltas.len() == 0 {
        0
    } else {
        running_sum(deltas.drop_last()).wrapping_add(deltas.last())
    }
}

/// The nodes of a way that holds them as the differences `deltas`: each node
/// is what the differences up to its place add up to.
pub open spec fn nodes_from(deltas: Seq<i64>) -> Seq<NodeID> {
    Seq::new(deltas.len(), |i: int| NodeID(running_sum(deltas.take(i + 1))))
}

/// What a record of a data block says. A relation with a member whose role
/// cannot be decoded is in error; every other record gives one element.
pub open spec fn record_step(record: RawRecordView) -> Step {
    match record {
        RawRecordView::Node { id, lon, lat, tags, version } => Step::Emit(
            ElementView::Node {
                id: NodeID(id),
                lon: DegreesView::Nano(lon),
                lat: DegreesView::Nano(lat),
                tags: pairs_map(tags),
                version,
            },
        ),
        RawRecordView::Way { id, ref_deltas, tags, version } => Step::Emit(
            ElementView::Way {
                id: WayID(id),
                node_ids: nodes_from(ref_deltas),
                tags: pairs_map(tags),
                version,
            },
        ),
        RawRecordView::Relation { id, members, tags, version } => if roles_decoded(members) {
            Step::Emit(
                ElementView::Relation {
                    id: RelationID(id),
                    tags: pairs_map(tags),
                    members: members_from(members),
                    version,
                },
            )
        } else {
            Step::Fail(ParseError::Schema(ElementKind::Relation))
        },
    }
}

/// The element that the bounding box of a header block makes. Its left side
/// is the smallest longitude and its right side the largest; its bottom, the
/// south side, is the smallest latitude and its top the largest.
pub open spec fn header_element(bounds: RawBounds) -> ElementView {
    ElementView::Bounds {
        min_lon: DegreesView::Bits(bounds.left),
        min_lat: DegreesView::Bits(bounds.bottom),
        max_lon: DegreesView::Bits(bounds.right),
        max_lat: DegreesView::Bits(bounds.top),
    }
}

/// What the bounding box of a header block adds to the stream: one element,
/// whatever the box.
pub open spec fn header_step(bounds: RawBounds) -> Step {
    Step::Emit(header_element(bounds))
}

/// What each of `records` says.
pub open spec fn records_steps(records: Seq<RawRecordView>) -> Seq<Step> {
    records.map_values(|record: RawRecordView| record_step(record))
}

/// What the records of a group say: first the nodes that are packed in
/// columns, then the nodes that stand alone, the ways and the relations.
pub open spec fn group_steps(group: GroupView) -> Seq<Step> {
    records_steps(group.dense_nodes) + records_steps(group.nodes) + records_steps(group.ways)
        + records_steps(group.relations)
}

/// What the records of `groups` say, group after group.
pub open spec fn groups_steps(groups: Seq<GroupView>) -> Seq<Step> {
    chain(groups.map_values(|group: GroupView| group_steps(group)))
}

/// What a block adds to the stream. A header block adds its bounding box, if
/// it has one; a data block adds its records; a block of a kind that is not
/// known adds nothing; a block that cannot be read or decoded ends the
/// stream.
pub open spec fn block_steps(block: BlockView) -> Seq<Step> {
    match block {
        BlockView::Unreadable => seq![Step::Fail(ParseError::Decode(DecodeFault::Framing))],
        BlockView::Undecodable => seq![Step::Fail(ParseError::Decode(DecodeFault::Block))],
        BlockView::Header(Some(bounds)) => seq![header_step(bounds)],
        BlockView::Header(None) => Seq::empty(),
        BlockView::Data(groups) => groups_steps(groups),
        BlockView::Other => Seq::empty(),
    }
}

/// What `blocks` add to the stream, block after block.
pub open spec fn blocks_steps(blocks: Seq<BlockView>) -> Seq<Step> {
    chain(blocks.map_values(|block: BlockView| block_steps(block)))
}

/// What a binary input holds whose blocks are `blocks`.
pub open spec fn binary_outcome(blocks: Seq<BlockView>) -> Outcome {
    Outcome::empty().plus_all(blocks_steps(blocks))
}

/// Whether a binary input of this length can be begun: one of fewer than four
/// bytes has no room for the length of a first block, and is broken off.
pub open spec fn binary_start(length: nat) -> Result<(), ParseError> {
    if length < 4 {
        Err(ParseError::Decode(DecodeFault::Framing))
    } else {
        Ok(())
    }
}

/// Says whether a binary input can be begun. To be asked before the first
/// block is decoded; on an error there is nothing to decode.
pub fn begin_binary(input_bytes: &[u8]) -> (r: Result<(), ParseError>)
    ensures
        r == binary_start(input_bytes@.len()),
{
    if input_bytes.len() < 4 {
        Err(ParseError::Decode(DecodeFault::Framing))
    } else {
        Ok(())
    }
}

/// Names the entity that a member of the kind `kind` with the number `id` is.
fn entity(kind: &MemberKind, id: i64) -> (r: OsmID)
    ensures
        r == entity_of(*kind, id),
{
    match kind {
        MemberKind::Node => OsmID::Node(NodeID(id)),
        MemberKind::Way => OsmID::Way(WayID(id)),
        MemberKind::Relation => OsmID::Relation(RelationID(id)),
    }
}

/// Reads the members of a relation. `None` where a role could not be decoded.
fn members_of_record(members: Vec<RawMember>) -> (r: Option<Vec<(String, OsmID)>>)
    ensures
        match r {
            Some(found) => roles_decoded(member_records(members@)) && member_views(
                found@,
            ) == members_from(member_records(members@)),
            None => !roles_decoded(member_records(members@)),
        },
{
    let ghost raw = member_records(members@);
    let mut found: Vec<(String, OsmID)> = Vec::new();
    for member in it: members
        invariant
            raw == member_records(members@),
            it.seq() == members@,
            found@.len() == it.index(),
            forall|i: int| 0 <= i < it.index() ==> (#[trigger] raw[i]).role is Some,
            forall|i: int|
                0 <= i < it.index() ==> (#[trigger] found@[i]).0@ == raw[i].role.unwrap()
                    && found@[i].1 == entity_of(raw[i].kind, raw[i].id),
    {
        assert(raw[it.index() as int] == member@);
        let RawMember { role, kind, id } = member;
        match role {
            Some(role) => {
                found.push((role, entity(&kind, id)));
            },
            None => {
                return None;
            },
        }
    }
    assert(member_views(found@) =~= members_from(raw));
    Some(found)
}

/// Names the nodes of a way by adding up the differences between them.
fn nodes_of_deltas(deltas: Vec<i64>) -> (r: Vec<NodeID>)
    ensures
        r@ == nodes_from(deltas@),
{
    let mut ids: Vec<NodeID> = Vec::new();
    let mut current: i64 = 0;
    let mut i: usize = 0;
    assert(deltas@.take(0) =~= Seq::<i64>::empty());
    while i < deltas.len()
        invariant
            i <= deltas.len(),
            ids@.len() == i,
            current == running_sum(deltas@.take(i as int)),
            forall|k: int| 0 <= k < i ==> ids@[k] == NodeID(running_sum(deltas@.take(k + 1))),
        decreases deltas.len() - i,
    {
        assert(deltas@.take(i + 1).drop_last() =~= deltas@.take(i as int));
        current = current.wrapping_add(deltas[i]);
        ids.push(NodeID(current));
        i = i + 1;
    }
    assert(ids@ =~= nodes_from(deltas@));
    ids
}

/// Reads the element that a record of a data block holds.
pub fn normalize_record(record: RawRecord) -> (r: Result<Element, ParseError>)
    ensures
        step_of(r) == record_step(record@),
{
    match record {
        RawRecord::Node { id, lon, lat, tags, version } => Ok(
            Element::Node {
                id: NodeID(id),
                lon: Degrees::Nano(lon),
                lat: Degrees::Nano(lat),
                tags: Tags::from_pairs(tags),
                version,
            },
        ),
        RawRecord::Way { id, ref_deltas, tags, version } => Ok(
            Element::Way {
                id: WayID(id),
                node_ids: nodes_of_deltas(ref_deltas),
                tags: Tags::from_pairs(tags),
                version,
            },
        ),
        RawRecord::Relation { id, members, tags, version } => match members_of_record(members) {
            Some(members) => Ok(
                Element::Relation {
                    id: RelationID(id),
                    tags: Tags::from_pairs(tags),
                    members,
                    version,
                },
            ),
            None => Err(ParseError::Schema(ElementKind::Relation)),
        },
    }
}

/// Makes the element that the bounding box of a header block holds.
pub fn normalize_bounds(bounds: &RawBounds) -> (r: Element)
    ensures
        r@ == header_element(*bounds),
{
    Element::Bounds {
        min_lon: Degrees::Bits(bounds.left),
        min_lat: Degrees::Bits(bounds.bottom),
        max_lon: Degrees::Bits(bounds.right),
        max_lat: Degrees::Bits(bounds.top),
    }
}

/// Reads `records` one after the other and hands each element to the sink.
fn hand_on_records<S: ElementSink>(
    records: Vec<RawRecord>,
    out: &mut Outlet<S>,
    Ghost(earlier): Ghost<Outcome>,
    Ghost(whole): Ghost<Outcome>,
    Ghost(start): Ghost<Outlet<S>>,
) -> (r: Result<(), ParseError>)
    requires
        kept_up(earlier, start.log(), old(out).log()),
        sink_follows(start, *old(out)),
        earlier.plus_all(records_steps(record_views(records@))).grows_to(whole),
    ensures
        sink_follows(start, *final(out)),
        match r {
            Ok(()) => kept_up(
                earlier.plus_all(records_steps(record_views(records@))),
                start.log(),
                final(out).log(),
            ),
            Err(_) => streamed(whole, start.log(), final(out).log(), r),
        },
{
    let ghost steps = records_steps(record_views(records@));
    assert(steps.take(0) =~= Seq::<Step>::empty());
    for record in it: records
        invariant
            it.seq() == records@,
            steps == records_steps(record_views(records@)),
            earlier.plus_all(steps).grows_to(whole),
            sink_follows(start, *out),
            kept_up(earlier.plus_all(steps.take(it.index() as int)), start.log(), out.log()),
    {
        let ghost sofar = earlier.plus_all(steps.take(it.index() as int));
        proof {
            lemma_next_step(earlier, steps, it.index() as int);
            lemma_part_grows(earlier, steps, it.index() + 1);
            lemma_grows_on(
                earlier.plus_all(steps.take(it.index() + 1)),
                earlier.plus_all(steps),
                whole,
            );
            assert(steps[it.index() as int] == record_step(record@));
        }
        let read = match normalize_record(record) {
            Ok(element) => Ok(Some(element)),
            Err(error) => Err(error),
        };
        match hand_on(out, read, Ghost(sofar), Ghost(whole), Ghost(start)) {
            Ok(()) => {},
            Err(error) => {
                return Err(error);
            },
        }
    }
    assert(steps.take(records@.len() as int) =~= steps);
    Ok(())
}

/// Hands the records of a group to the sink: the nodes that are packed in
/// columns, the nodes that stand alone, the ways, the relations.
fn hand_on_group<S: ElementSink>(
    group: RawGroup,
    out: &mut Outlet<S>,
    Ghost(earlier): Ghost<Outcome>,
    Ghost(whole): Ghost<Outcome>,
    Ghost(start): Ghost<Outlet<S>>,
) -> (r: Result<(), ParseError>)
    requires
        kept_up(earlier, start.log(), old(out).log()),
        sink_follows(start, *old(out)),
        earlier.plus_all(group_steps(group@)).grows_to(whole),
    ensures
        sink_follows(start, *final(out)),
        match r {
            Ok(()) => kept_up(earlier.plus_all(group_steps(group@)), start.log(), final(out).log()),
            Err(_) => streamed(whole, start.log(), final(out).log(), r),
        },
{
    let ghost view = group@;
    let ghost dense = records_steps(view.dense_nodes);
    let ghost alone = records_steps(view.nodes);
    let ghost lines = records_steps(view.ways);
    let ghost after_dense = earlier.plus_all(dense);
    let ghost after_nodes = after_dense.plus_all(alone);
    let ghost after_ways = after_nodes.plus_all(lines);
    let ghost after_all = after_ways.plus_all(records_steps(view.relations));
    proof {
        lemma_plus_all_joined(earlier, dense, alone);
        lemma_plus_all_joined(earlier, dense + alone, lines);
        lemma_plus_all_joined(earlier, dense + alone + lines, records_steps(view.relations));
        assert(after_all == earlier.plus_all(group_steps(view)));
        lemma_plus_all_grows(after_dense, alone);
        lemma_plus_all_grows(after_nodes, lines);
        lemma_plus_all_grows(after_ways, records_steps(view.relations));
        lemma_grows_on(after_ways, after_all, whole);
        lemma_grows_on(after_nodes, after_ways, whole);
        lemma_grows_on(after_dense, after_nodes, whole);
    }
    let RawGroup { dense_nodes, nodes, ways, relations } = group;
    match hand_on_records(dense_nodes, out, Ghost(earlier), Ghost(whole), Ghost(start)) {
        Ok(()) => {},
        Err(error) => {
            return Err(error);
        },
    }
    match hand_on_records(nodes, out, Ghost(after_dense), Ghost(whole), Ghost(start)) {
        Ok(()) => {},
        Err(error) => {
            return Err(error);
        },
    }
    match hand_on_records(ways, out, Ghost(after_nodes), Ghost(whole), Ghost(start)) {
        Ok(()) => {},
        Err(error) => {
            return Err(error);
        },
    }
    hand_on_records(relations, out, Ghost(after_ways), Ghost(whole), Ghost(start))
}

/// Hands the records of a data block to the sink, group after group.
fn hand_on_groups<S: ElementSink>(
    groups: Vec<RawGroup>,
    out: &mut Outlet<S>,
    Ghost(earlier): Ghost<Outcome>,
    Ghost(whole): Ghost<Outcome>,
    Ghost(start): Ghost<Outlet<S>>,
) -> (r: Result<(), ParseError>)
    requires
        kept_up(earlier, start.log(), old(out).log()),
        sink_follows(start, *old(out)),
        earlier.plus_all(groups_steps(group_views(groups@))).grows_to(whole),
    ensures
        sink_follows(start, *final(out)),
        match r {
            Ok(()) => kept_up(
                earlier.plus_all(groups_steps(group_views(groups@))),
                start.log(),
                final(out).log(),
            ),
            Err(_) => streamed(whole, start.log(), final(out).log(), r),
        },
{
    let ghost views = group_views(groups@);
    let ghost runs = views.map_values(|group: GroupView| group_steps(group));
    assert(runs.take(0) =~= Seq::<Seq<Step>>::empty());
    for group in it: groups
        invariant
            it.seq() == groups@,
            views == group_views(groups@),
            runs == views.map_values(|group: GroupView| group_steps(group)),
            earlier.plus_all(chain(runs)).grows_to(whole),
            sink_follows(start, *out),
            kept_up(earlier.plus_all(chain(runs.take(it.index() as int))), start.log(), out.log()),
    {
        let ghost sofar = earlier.plus_all(chain(runs.take(it.index() as int)));
        proof {
            lemma_chain_next(runs, it.index() as int);
            lemma_plus_all_joined(earlier, chain(runs.take(it.index() as int)), runs[it.index() as int]);
            lemma_chain_part_grows(earlier, runs, it.index() + 1);
            lemma_grows_on(
                earlier.plus_all(chain(runs.take(it.index() + 1))),
                earlier.plus_all(chain(runs)),
                whole,
            );
            assert(runs[it.index() as int] == group_steps(group@));
        }
        match hand_on_group(group, out, Ghost(sofar), Ghost(whole), Ghost(start)) {
            Ok(()) => {},
            Err(error) => {
                return Err(error);
            },
        }
    }
    assert(runs.take(groups@.len() as int) =~= runs);
    Ok(())
}

/// Hands what one block adds to the stream to the sink.
fn hand_on_block<S: ElementSink>(
    block: RawBlock,
    out: &mut Outlet<S>,
    Ghost(earlier): Ghost<Outcome>,
    Ghost(whole): Ghost<Outcome>,
    Ghost(start): Ghost<Outlet<S>>,
) -> (r: Result<(), ParseError>)
    requires
        kept_up(earlier, start.log(), old(out).log()),
        sink_follows(start, *old(out)),
        earlier.plus_all(block_steps(block@)).grows_to(whole),
    ensures
        sink_follows(start, *final(out)),
        match r {
            Ok(()) => kept_up(earlier.plus_all(block_steps(block@)), start.log(), final(out).log()),
            Err(_) => streamed(whole, start.log(), final(out).log(), r),
        },
{
    proof {
        assert(earlier.plus_all(Seq::<Step>::empty()) == earlier);
    }
    match block {
        RawBlock::Unreadable => {
            let read = Err(ParseError::Decode(DecodeFault::Framing));
            proof {
                lemma_plus_one(earlier, read_step(read));
            }
            hand_on(out, read, Ghost(earlier), Ghost(whole), Ghost(start))
        },
        RawBlock::Undecodable => {
            let read = Err(ParseError::Decode(DecodeFault::Block));
            proof {
                lemma_plus_one(earlier, read_step(read));
            }
            hand_on(out, read, Ghost(earlier), Ghost(whole), Ghost(start))
        },
        RawBlock::Header(Some(bounds)) => {
            let read = Ok(Some(normalize_bounds(&bounds)));
            proof {
                lemma_plus_one(earlier, read_step(read));
            }
            hand_on(out, read, Ghost(earlier), Ghost(whole), Ghost(start))
        },
        RawBlock::Header(None) => Ok(()),
        RawBlock::Data(groups) => hand_on_groups(
            groups,
            out,
            Ghost(earlier),
            Ghost(whole),
            Ghost(start),
        ),
        RawBlock::Other => Ok(()),
    }
}

/// Hands what one block of a binary input holds to the sink: the bounding box
/// of a header block, if it has one; the records of a data block, group after
/// group and, within a group, the nodes that are packed in columns, the nodes
/// that stand alone, the ways and the relations; nothing of a block of a kind
/// that is not known. A block that cannot be read or decoded is an error,
/// and so is a record in error; after an error no further block is to be
/// handed in.
pub fn stream_block<S: ElementSink>(block: RawBlock, out: &mut Outlet<S>) -> (r: Result<
    (),
    ParseError,
>)
    ensures
        parsed(Outcome::empty().plus_all(block_steps(block@)), *old(out), *final(out), r),
{
    let ghost start = *out;
    let ghost whole = Outcome::empty().plus_all(block_steps(block@));
    proof {
        lemma_sink_follows_itself(start);
        assert(start.log().take(start.log().len() as int) =~= start.log());
    }
    match hand_on_block(block, out, Ghost(Outcome::empty()), Ghost(whole), Ghost(start)) {
        Ok(()) => {
            proof {
                lemma_streamed_all(whole, whole, start.log(), out.log());
            }
            Ok(())
        },
        Err(error) => Err(error),
    }
}

/// Hands what the blocks of a binary input hold to the sink, block after
/// block, up to the first error.
pub fn parse_pbf<S: ElementSink>(blocks: Vec<RawBlock>, out: &mut Outlet<S>) -> (r: Result<
    (),
    ParseError,
>)
    ensures
        parsed(binary_outcome(block_views(blocks@)), *old(out), *final(out), r),
{
    let ghost start = *out;
    let ghost views = block_views(blocks@);
    let ghost runs = views.map_values(|block: BlockView| block_steps(block));
    let ghost whole = binary_outcome(views);
    proof {
        lemma_sink_follows_itself(start);
        assert(start.log().take(start.log().len() as int) =~= start.log());
        assert(runs.take(0) =~= Seq::<Seq<Step>>::empty());
    }
    for block in it: blocks
        invariant
            it.seq() == blocks@,
            views == block_views(blocks@),
            runs == views.map_values(|block: BlockView| block_steps(block)),
            whole == Outcome::empty().plus_all(chain(runs)),
            whole == binary_outcome(block_views(blocks@)),
            start == *old(out),
            sink_follows(start, *out),
            kept_up(
                Outcome::empty().plus_all(chain(runs.take(it.index() as int))),
                start.log(),
                out.log(),
            ),
    {
        let ghost sofar = Outcome::empty().plus_all(chain(runs.take(it.index() as int)));
        proof {
            lemma_chain_next(runs, it.index() as int);
            lemma_plus_all_joined(
                Outcome::empty(),
                chain(runs.take(it.index() as int)),
                runs[it.index() as int],
            );
            lemma_chain_part_grows(Outcome::empty(), runs, it.index() + 1);
            assert(runs[it.index() as int] == block_steps(block@));
        }
        match hand_on_block(block, out, Ghost(sofar), Ghost(whole), Ghost(start)) {
            Ok(()) => {},
            Err(error) => {
                return Err(error);
            },
        }
    }
    proof {
        assert(runs.take(blocks@.len() as int) =~= runs);
        lemma_streamed_all(whole, whole, start.log(), out.log());
    }
    Ok(())
}

} // verus!
