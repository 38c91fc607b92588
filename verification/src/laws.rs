//! What holds of every parse: the sink takes the stream, the stream follows
//! the input record by record, it is in the order that the input is in, and
//! it depends on nothing but the input.

use vstd::prelude::*;

use crate::blocks::{BlockView, GroupView, RawBounds, RawRecordView};
use crate::element::{kinds_of, ElementKind, ElementView};
use crate::error::ParseError;
use crate::ids::RelationID;
use crate::markup::{parsed_markup, MarkupNode};
use crate::pbf::{
    binary_outcome, block_steps, blocks_steps, entity_of, group_steps, groups_steps,
    header_element, record_step, records_steps, roles_decoded,
};
use crate::sink::{ElementSink, Outlet};
use crate::stream::{
    chain, delivered, lemma_chain_split, lemma_plus_all_grows, lemma_plus_all_joined,
    lemma_plus_one, parsed, Outcome, Step,
};
use crate::tags::pairs_map;
use crate::xml::{document_steps, markup_outcome, record_at};

verus! {

/// Whether `short` is the start of `long`.
pub open spec fn starts<T>(short: Seq<T>, long: Seq<T>) -> bool {
    short.len() <= long.len() && forall|i: int| 0 <= i < short.len() ==> short[i] == long[i]
}

/// The kinds that are marked, in their order.
pub open spec fn listed(marks: Seq<Option<ElementKind>>) -> Seq<ElementKind>
    decreases marks.len(),
{
    if marks.len() == 0 {
        Seq::empty()
    } else {
        match marks.last() {
            Some(kind) => listed(marks.drop_last()).push(kind),
            None => listed(marks.drop_last()),
        }
    }
}

/// The kind of record that a node of a document is, by its name. `None` for a
/// node that is no record.
pub open spec fn node_mark(node: MarkupNode) -> Option<ElementKind> {
    if !node.element {
        None
    } else if node.name == "bounds"@ {
        Some(ElementKind::Bounds)
    } else if node.name == "node"@ {
        Some(ElementKind::Node)
    } else if node.name == "way"@ {
        Some(ElementKind::Way)
    } else if node.name == "relation"@ {
        Some(ElementKind::Relation)
    } else {
        None
    }
}

/// The kind of record that each node of a document is.
pub open spec fn document_marks(nodes: Seq<MarkupNode>) -> Seq<Option<ElementKind>> {
    Seq::new(nodes.len(), |at: int| node_mark(nodes[at]))
}

/// The kind of a record of a data block.
pub open spec fn record_mark(record: RawRecordView) -> Option<ElementKind> {
    match record {
        RawRecordView::Node { .. } => Some(ElementKind::Node),
        RawRecordView::Way { .. } => Some(ElementKind::Way),
        RawRecordView::Relation { .. } => Some(ElementKind::Relation),
    }
}

/// The kind of each of `records`.
pub open spec fn records_marks(records: Seq<RawRecordView>) -> Seq<Option<ElementKind>> {
    records.map_values(|record: RawRecordView| record_mark(record))
}

/// The kind of each record of a group, in the order in which they are read.
pub open spec fn group_marks(group: GroupView) -> Seq<Option<ElementKind>> {
    records_marks(group.dense_nodes) + records_marks(group.nodes) + records_marks(group.ways)
        + records_marks(group.relations)
}

/// The kind of each record of a block: the bounding box of a header block,
/// the records of a data block.
pub open spec fn block_marks(block: BlockView) -> Seq<Option<ElementKind>> {
    match block {
        BlockView::Unreadable => seq![None],
        BlockView::Undecodable => seq![None],
        BlockView::Header(Some(_)) => seq![Some(ElementKind::Bounds)],
        BlockView::Header(None) => Seq::empty(),
        BlockView::Data(groups) => chain(groups.map_values(|group: GroupView| group_marks(group))),
        BlockView::Other => Seq::empty(),
    }
}

/// The kinds of the records of the markup input `bytes`, in document order.
/// Input that is no document has none.
pub open spec fn markup_kinds(bytes: Seq<u8>) -> Seq<ElementKind> {
    if !vstd::utf8::valid_utf8(bytes) {
        Seq::empty()
    } else {
        match parsed_markup(vstd::utf8::decode_utf8(bytes)) {
            Some(nodes) => listed(document_marks(nodes)),
            None => Seq::empty(),
        }
    }
}

/// The kinds of the records of a binary input whose blocks are `blocks`, in
/// the order of the input.
pub open spec fn binary_kinds(blocks: Seq<BlockView>) -> Seq<ElementKind> {
    listed(chain(blocks.map_values(|block: BlockView| block_marks(block))))
}

/// Whether a bounding box comes first wherever it comes: there is one at
/// most, and nothing before it.
pub open spec fn bounds_lead(kinds: Seq<ElementKind>) -> bool {
    forall|i: int| 0 <= i < kinds.len() && kinds[i] == ElementKind::Bounds ==> i == 0
}

/// The place of a kind in the order of an extract.
pub open spec fn stage(kind: ElementKind) -> int {
    match kind {
        ElementKind::Bounds => 0,
        ElementKind::Node => 1,
        ElementKind::Way => 2,
        ElementKind::Relation => 3,
    }
}

/// Whether every node comes before every way, and every way before every
/// relation.
pub open spec fn nodes_ways_relations(kinds: Seq<ElementKind>) -> bool {
    forall|i: int, j: int|
        0 <= i < j < kinds.len() && kinds[i] != ElementKind::Bounds && kinds[j]
            != ElementKind::Bounds ==> stage(kinds[i]) <= stage(kinds[j])
}

/// The elements that the sink of `after` has received since it was as in
/// `before`.
pub open spec fn taken<S: ElementSink>(before: Outlet<S>, after: Outlet<S>) -> Seq<ElementView> {
    after.inner().received().skip(before.inner().received().len() as int)
}

/// Whether a record that adds `step` to the stream can be of the kind `mark`:
/// an element is of the kind of its record, and what is passed over is no
/// record.
pub open spec fn agrees(step: Step, mark: Option<ElementKind>) -> bool {
    match step {
        Step::Emit(element) => mark == Some(element.kind()),
        Step::Skip => mark is None,
        Step::Fail(_) => true,
    }
}

/// Whether `steps` and `marks` speak of the same records.
pub open spec fn aligned(steps: Seq<Step>, marks: Seq<Option<ElementKind>>) -> bool {
    steps.len() == marks.len() && forall|i: int|
        0 <= i < steps.len() ==> agrees(#[trigger] steps[i], marks[i])
}

/// The kinds listed without the last mark start the kinds listed with it.
proof fn lemma_listed_starts(marks: Seq<Option<ElementKind>>)
    requires
        marks.len() > 0,
    ensures
        starts(listed(marks.drop_last()), listed(marks)),
{
}

/// The elements of records have the kinds that the records are marked with.
proof fn lemma_kinds_follow(steps: Seq<Step>, marks: Seq<Option<ElementKind>>)
    requires
        aligned(steps, marks),
    ensures
        starts(kinds_of(Outcome::empty().plus_all(steps).elements), listed(marks)),
        Outcome::empty().plus_all(steps).error is None ==> kinds_of(
            Outcome::empty().plus_all(steps).elements,
        ) == listed(marks),
    decreases steps.len(),
{
    if steps.len() > 0 {
        let front = Outcome::empty().plus_all(steps.drop_last());
        assert(aligned(steps.drop_last(), marks.drop_last())) by {
            assert forall|i: int| 0 <= i < steps.drop_last().len() implies agrees(
                #[trigger] steps.drop_last()[i],
                marks.drop_last()[i],
            ) by {
                assert(agrees(steps[i], marks[i]));
            }
        }
        lemma_kinds_follow(steps.drop_last(), marks.drop_last());
        lemma_listed_starts(marks);
        assert(agrees(steps[steps.len() - 1], marks[steps.len() - 1]));
        if front.error is None {
            match steps.last() {
                Step::Emit(element) => {
                    assert(kinds_of(front.elements.push(element)) =~= kinds_of(front.elements).push(
                        element.kind(),
                    ));
                },
                _ => {},
            }
        }
    } else {
        assert(kinds_of(Seq::<ElementView>::empty()) =~= Seq::<ElementKind>::empty());
    }
}

/// Two runs that are aligned stay so when they are joined.
proof fn lemma_aligned_joined(
    first: Seq<Step>,
    first_marks: Seq<Option<ElementKind>>,
    second: Seq<Step>,
    second_marks: Seq<Option<ElementKind>>,
)
    requires
        aligned(first, first_marks),
        aligned(second, second_marks),
    ensures
        aligned(first + second, first_marks + second_marks),
{
    assert forall|i: int| 0 <= i < (first + second).len() implies agrees(
        #[trigger] (first + second)[i],
        (first_marks + second_marks)[i],
    ) by {
        if i < first.len() {
            assert(agrees(first[i], first_marks[i]));
        } else {
            assert(agrees(second[i - first.len()], second_marks[i - first.len()]));
        }
    }
}

/// Runs that are aligned one by one are aligned as a chain.
proof fn lemma_aligned_chain(runs: Seq<Seq<Step>>, marks: Seq<Seq<Option<ElementKind>>>)
    requires
        runs.len() == marks.len(),
        forall|i: int| 0 <= i < runs.len() ==> aligned(#[trigger] runs[i], marks[i]),
    ensures
        aligned(chain(runs), chain(marks)),
    decreases runs.len(),
{
    if runs.len() > 0 {
        assert forall|i: int| 0 <= i < runs.drop_last().len() implies aligned(
            #[trigger] runs.drop_last()[i],
            marks.drop_last()[i],
        ) by {
            assert(aligned(runs[i], marks[i]));
        }
        lemma_aligned_chain(runs.drop_last(), marks.drop_last());
        assert(aligned(runs[runs.len() - 1], marks[runs.len() - 1]));
        lemma_aligned_joined(
            chain(runs.drop_last()),
            chain(marks.drop_last()),
            runs.last(),
            marks.last(),
        );
    }
}

/// What a document adds to the stream is aligned with the names of its nodes.
proof fn lemma_document_aligned(nodes: Seq<MarkupNode>)
    ensures
        aligned(document_steps(nodes), document_marks(nodes)),
{
    assert forall|i: int| 0 <= i < nodes.len() implies agrees(
        #[trigger] document_steps(nodes)[i],
        document_marks(nodes)[i],
    ) by {
        assert(document_steps(nodes)[i] == record_at(nodes, i));
    }
}

/// What records add to the stream is aligned with their kinds.
proof fn lemma_records_aligned(records: Seq<RawRecordView>)
    ensures
        aligned(records_steps(records), records_marks(records)),
{
    assert forall|i: int| 0 <= i < records.len() implies agrees(
        #[trigger] records_steps(records)[i],
        records_marks(records)[i],
    ) by {
        assert(records_steps(records)[i] == record_step(records[i]));
    }
}

/// What a group adds to the stream is aligned with the kinds of its records.
proof fn lemma_group_aligned(group: GroupView)
    ensures
        aligned(group_steps(group), group_marks(group)),
{
    lemma_records_aligned(group.dense_nodes);
    lemma_records_aligned(group.nodes);
    lemma_records_aligned(group.ways);
    lemma_records_aligned(group.relations);
    lemma_aligned_joined(
        records_steps(group.dense_nodes),
        records_marks(group.dense_nodes),
        records_steps(group.nodes),
        records_marks(group.nodes),
    );
    lemma_aligned_joined(
        records_steps(group.dense_nodes) + records_steps(group.nodes),
        records_marks(group.dense_nodes) + records_marks(group.nodes),
        records_steps(group.ways),
        records_marks(group.ways),
    );
    lemma_aligned_joined(
        records_steps(group.dense_nodes) + records_steps(group.nodes) + records_steps(group.ways),
        records_marks(group.dense_nodes) + records_marks(group.nodes) + records_marks(group.ways),
        records_steps(group.relations),
        records_marks(group.relations),
    );
}

/// What a block adds to the stream is aligned with the kinds of its records.
proof fn lemma_block_aligned(block: BlockView)
    ensures
        aligned(block_steps(block), block_marks(block)),
{
    match block {
        BlockView::Data(groups) => {
            let runs = groups.map_values(|group: GroupView| group_steps(group));
            let marks = groups.map_values(|group: GroupView| group_marks(group));
            assert forall|i: int| 0 <= i < runs.len() implies aligned(
                #[trigger] runs[i],
                marks[i],
            ) by {
                lemma_group_aligned(groups[i]);
            }
            lemma_aligned_chain(runs, marks);
        },
        BlockView::Header(Some(bounds)) => {
            assert(agrees(block_steps(block)[0], block_marks(block)[0]));
        },
        _ => {},
    }
}

/// The stream of a markup input follows the input record by record. As far
/// as it goes, it has one element of each record of the input, of the kind of
/// the record and in document order; and it goes to the end unless a record
/// is in error.
pub proof fn markup_follows_input(bytes: Seq<u8>)
    ensures
        starts(kinds_of(markup_outcome(bytes).elements), markup_kinds(bytes)),
        markup_outcome(bytes).error is None ==> kinds_of(markup_outcome(bytes).elements)
            == markup_kinds(bytes),
{
    assert(kinds_of(Seq::<ElementView>::empty()) =~= Seq::<ElementKind>::empty());
    if vstd::utf8::valid_utf8(bytes) {
        match parsed_markup(vstd::utf8::decode_utf8(bytes)) {
            Some(nodes) => {
                lemma_document_aligned(nodes);
                lemma_kinds_follow(document_steps(nodes), document_marks(nodes));
            },
            None => {},
        }
    }
}

/// The stream of a binary input follows the input record by record. As far
/// as it goes, it has one element of each bounding box and each record of the
/// input, of its kind and in the order of the input; and it goes to the end
/// unless a block or a record is in error.
pub proof fn binary_follows_input(blocks: Seq<BlockView>)
    ensures
        starts(kinds_of(binary_outcome(blocks).elements), binary_kinds(blocks)),
        binary_outcome(blocks).error is None ==> kinds_of(binary_outcome(blocks).elements)
            == binary_kinds(blocks),
{
    let runs = blocks.map_values(|block: BlockView| block_steps(block));
    let marks = blocks.map_values(|block: BlockView| block_marks(block));
    assert forall|i: int| 0 <= i < runs.len() implies aligned(#[trigger] runs[i], marks[i]) by {
        lemma_block_aligned(blocks[i]);
    }
    lemma_aligned_chain(runs, marks);
    lemma_kinds_follow(chain(runs), chain(marks));
}

/// Whether what a record adds to the stream is well-formed, if it is an
/// element.
pub open spec fn sound(step: Step) -> bool {
    match step {
        Step::Emit(element) => element.wf(),
        _ => true,
    }
}

/// Records that add well-formed elements make a stream of well-formed
/// elements.
proof fn lemma_steps_well_formed(steps: Seq<Step>)
    requires
        forall|i: int| 0 <= i < steps.len() ==> sound(#[trigger] steps[i]),
    ensures
        forall|i: int|
            0 <= i < Outcome::empty().plus_all(steps).elements.len() ==> (
            #[trigger] Outcome::empty().plus_all(steps).elements[i]).wf(),
    decreases steps.len(),
{
    if steps.len() > 0 {
        assert forall|i: int| 0 <= i < steps.drop_last().len() implies sound(
            #[trigger] steps.drop_last()[i],
        ) by {
            assert(sound(steps[i]));
        }
        lemma_steps_well_formed(steps.drop_last());
        assert(sound(steps[steps.len() - 1]));
    }
}

/// What holds of every item of every run holds of every item of the chain.
proof fn lemma_chain_holds<T>(runs: Seq<Seq<T>>, holds: spec_fn(T) -> bool)
    requires
        forall|i: int, j: int|
            0 <= i < runs.len() && 0 <= j < runs[i].len() ==> holds(#[trigger] runs[i][j]),
    ensures
        forall|k: int| 0 <= k < chain(runs).len() ==> holds(#[trigger] chain(runs)[k]),
    decreases runs.len(),
{
    if runs.len() > 0 {
        assert forall|i: int, j: int|
            0 <= i < runs.drop_last().len() && 0 <= j < runs.drop_last()[i].len() implies holds(
            #[trigger] runs.drop_last()[i][j],
        ) by {
            assert(holds(runs[i][j]));
        }
        lemma_chain_holds(runs.drop_last(), holds);
        assert forall|k: int| 0 <= k < chain(runs).len() implies holds(
            #[trigger] chain(runs)[k],
        ) by {
            let front = chain(runs.drop_last());
            if k >= front.len() {
                assert(holds(runs[runs.len() - 1][k - front.len()]));
            }
        }
    }
}

/// Every element of the stream of a markup input is well-formed: each of its
/// angles is text that reads as a floating-point number.
pub proof fn markup_elements_are_well_formed(bytes: Seq<u8>)
    ensures
        forall|i: int|
            0 <= i < markup_outcome(bytes).elements.len() ==> (
            #[trigger] markup_outcome(bytes).elements[i]).wf(),
{
    if vstd::utf8::valid_utf8(bytes) {
        match parsed_markup(vstd::utf8::decode_utf8(bytes)) {
            Some(nodes) => {
                let steps = document_steps(nodes);
                assert forall|i: int| 0 <= i < steps.len() implies sound(#[trigger] steps[i]) by {
                    assert(steps[i] == record_at(nodes, i));
                }
                lemma_steps_well_formed(steps);
            },
            None => {},
        }
    }
}

/// Every element of the stream of a binary input is well-formed.
pub proof fn binary_elements_are_well_formed(blocks: Seq<BlockView>)
    ensures
        forall|i: int|
            0 <= i < binary_outcome(blocks).elements.len() ==> (
            #[trigger] binary_outcome(blocks).elements[i]).wf(),
{
    {
        let runs = blocks.map_values(|block: BlockView| block_steps(block));
        assert forall|i: int, j: int|
            0 <= i < runs.len() && 0 <= j < runs[i].len() implies sound(#[trigger] runs[i][j]) by {
            match blocks[i] {
                BlockView::Data(groups) => {
                    let inner = groups.map_values(|group: GroupView| group_steps(group));
                    assert forall|a: int, b: int|
                        0 <= a < inner.len() && 0 <= b < inner[a].len() implies sound(
                        #[trigger] inner[a][b],
                    ) by {
                        let group = groups[a];
                        let first = records_steps(group.dense_nodes);
                        let second = records_steps(group.nodes);
                        let third = records_steps(group.ways);
                        if b < first.len() {
                            assert(inner[a][b] == record_step(group.dense_nodes[b]));
                        } else if b < first.len() + second.len() {
                            assert(inner[a][b] == record_step(group.nodes[b - first.len()]));
                        } else if b < first.len() + second.len() + third.len() {
                            assert(inner[a][b] == record_step(
                                group.ways[b - first.len() - second.len()],
                            ));
                        } else {
                            assert(inner[a][b] == record_step(
                                group.relations[b - first.len() - second.len() - third.len()],
                            ));
                        }
                    }
                    lemma_chain_holds(inner, |step: Step| sound(step));
                },
                _ => {},
            }
        }
        lemma_chain_holds(runs, |step: Step| sound(step));
        lemma_steps_well_formed(chain(runs));
    }
}


/// The sink takes the stream. What it has received since the parse began is
/// what was handed over in the calls of the parse, and that is the start of
/// what the input holds. If the sink is one that never stops, or if the
/// parse did not end because the sink stopped it, the sink has received all
/// that the input holds, and the parse returned the error of the input, or
/// `Ok` if it has none.
pub proof fn sink_takes_the_stream<S: ElementSink>(
    outcome: Outcome,
    before: Outlet<S>,
    after: Outlet<S>,
    result: Result<(), ParseError>,
)
    requires
        parsed(outcome, before, after, result),
    ensures
        after.inner().received() == before.inner().received() + taken(before, after),
        taken(before, after) == delivered(before.log(), after.log()),
        starts(taken(before, after), outcome.elements),
        before.inner().never_stops() || !(result == Err::<(), ParseError>(ParseError::SinkAborted))
            ==> taken(before, after) == outcome.elements && result == outcome.result(),
{
    let had = before.inner().received();
    let calls = after.log().skip(before.log().len() as int);
    let handed = delivered(before.log(), after.log());
    assert((had + handed).skip(had.len() as int) =~= handed);
    assert forall|i: int| 0 <= i < handed.len() implies handed[i] == outcome.elements[i] by {
        assert(calls[i].element == outcome.elements[i]);
    }
    if before.inner().never_stops() && calls.len() > 0 {
        assert(calls.last() == after.log()[after.log().len() - 1]);
    }
    if before.inner().never_stops() || !(result == Err::<(), ParseError>(ParseError::SinkAborted)) {
        assert(handed =~= outcome.elements);
    }
}

/// The kinds of what the sink has received start the kinds of the input, and
/// are all of them after a parse that returned `Ok`.
proof fn lemma_taken_kinds<S: ElementSink>(
    outcome: Outcome,
    kinds: Seq<ElementKind>,
    before: Outlet<S>,
    after: Outlet<S>,
    result: Result<(), ParseError>,
)
    requires
        parsed(outcome, before, after, result),
        starts(kinds_of(outcome.elements), kinds),
        outcome.error is None ==> kinds_of(outcome.elements) == kinds,
    ensures
        starts(kinds_of(taken(before, after)), kinds),
        result is Ok ==> kinds_of(taken(before, after)) == kinds,
{
    sink_takes_the_stream(outcome, before, after, result);
    let got = kinds_of(taken(before, after));
    let held = kinds_of(outcome.elements);
    assert forall|i: int| 0 <= i < got.len() implies got[i] == kinds[i] by {
        assert(taken(before, after)[i] == outcome.elements[i]);
        assert(held[i] == kinds[i]);
    }
}

/// A start of what has a bounding box first, wherever it has one, has it
/// first too.
proof fn lemma_start_bounds_lead(short: Seq<ElementKind>, long: Seq<ElementKind>)
    requires
        starts(short, long),
        bounds_lead(long),
    ensures
        bounds_lead(short),
{
    assert forall|i: int| 0 <= i < short.len() && short[i] == ElementKind::Bounds implies i
        == 0 by {
        assert(short[i] == long[i]);
    }
}

/// A start of what has its nodes, ways and relations in order has them in
/// order too.
proof fn lemma_start_in_order(short: Seq<ElementKind>, long: Seq<ElementKind>)
    requires
        starts(short, long),
        nodes_ways_relations(long),
    ensures
        nodes_ways_relations(short),
{
    assert forall|i: int, j: int|
        0 <= i < j < short.len() && short[i] != ElementKind::Bounds && short[j]
            != ElementKind::Bounds implies stage(short[i]) <= stage(short[j]) by {
        assert(short[i] == long[i]);
        assert(short[j] == long[j]);
    }
}

/// What a sink receives of a markup input follows the input record by
/// record: it has the kinds of the records of the input, in document order,
/// as far as it goes; and after a parse that returned `Ok` it has them all.
pub proof fn markup_sink_follows_input<S: ElementSink>(
    bytes: Seq<u8>,
    before: Outlet<S>,
    after: Outlet<S>,
    result: Result<(), ParseError>,
)
    requires
        parsed(markup_outcome(bytes), before, after, result),
    ensures
        starts(kinds_of(taken(before, after)), markup_kinds(bytes)),
        result is Ok ==> kinds_of(taken(before, after)) == markup_kinds(bytes),
{
    markup_follows_input(bytes);
    lemma_taken_kinds(markup_outcome(bytes), markup_kinds(bytes), before, after, result);
}

/// What a sink receives of a binary input follows the input record by
/// record: it has the kinds of the records of the input, in the order of the
/// input, as far as it goes; and after a parse that returned `Ok` it has them
/// all.
pub proof fn binary_sink_follows_input<S: ElementSink>(
    blocks: Seq<BlockView>,
    before: Outlet<S>,
    after: Outlet<S>,
    result: Result<(), ParseError>,
)
    requires
        parsed(binary_outcome(blocks), before, after, result),
    ensures
        starts(kinds_of(taken(before, after)), binary_kinds(blocks)),
        result is Ok ==> kinds_of(taken(before, after)) == binary_kinds(blocks),
{
    binary_follows_input(blocks);
    lemma_taken_kinds(binary_outcome(blocks), binary_kinds(blocks), before, after, result);
}

/// Where a markup input has at most one bounding box, and has it before every
/// other record, the sink receives at most one bounding box, and receives it
/// first. The order is the input's and is not mended: after a parse that
/// returned `Ok`, what the sink received is in this order only if the input
/// is.
pub proof fn markup_bounds_come_first<S: ElementSink>(
    bytes: Seq<u8>,
    before: Outlet<S>,
    after: Outlet<S>,
    result: Result<(), ParseError>,
)
    requires
        parsed(markup_outcome(bytes), before, after, result),
        bounds_lead(markup_kinds(bytes)),
    ensures
        bounds_lead(kinds_of(taken(before, after))),
{
    markup_sink_follows_input(bytes, before, after, result);
    lemma_start_bounds_lead(kinds_of(taken(before, after)), markup_kinds(bytes));
}

/// Where a binary input has at most one bounding box, and has it before every
/// record, the sink receives at most one bounding box, and receives it first.
/// The order is the input's and is not mended.
pub proof fn binary_bounds_come_first<S: ElementSink>(
    blocks: Seq<BlockView>,
    before: Outlet<S>,
    after: Outlet<S>,
    result: Result<(), ParseError>,
)
    requires
        parsed(binary_outcome(blocks), before, after, result),
        bounds_lead(binary_kinds(blocks)),
    ensures
        bounds_lead(kinds_of(taken(before, after))),
{
    binary_sink_follows_input(blocks, before, after, result);
    lemma_start_bounds_lead(kinds_of(taken(before, after)), binary_kinds(blocks));
}

/// Where a markup input has its nodes before its ways and its ways before its
/// relations, the sink receives them in that order. The order is the input's
/// and is not mended.
pub proof fn markup_nodes_then_ways_then_relations<S: ElementSink>(
    bytes: Seq<u8>,
    before: Outlet<S>,
    after: Outlet<S>,
    result: Result<(), ParseError>,
)
    requires
        parsed(markup_outcome(bytes), before, after, result),
        nodes_ways_relations(markup_kinds(bytes)),
    ensures
        nodes_ways_relations(kinds_of(taken(before, after))),
{
    markup_sink_follows_input(bytes, before, after, result);
    lemma_start_in_order(kinds_of(taken(before, after)), markup_kinds(bytes));
}

/// Where a binary input has its nodes before its ways and its ways before its
/// relations, the sink receives them in that order. The order is the input's
/// and is not mended.
pub proof fn binary_nodes_then_ways_then_relations<S: ElementSink>(
    blocks: Seq<BlockView>,
    before: Outlet<S>,
    after: Outlet<S>,
    result: Result<(), ParseError>,
)
    requires
        parsed(binary_outcome(blocks), before, after, result),
        nodes_ways_relations(binary_kinds(blocks)),
    ensures
        nodes_ways_relations(kinds_of(taken(before, after))),
{
    binary_sink_follows_input(blocks, before, after, result);
    lemma_start_in_order(kinds_of(taken(before, after)), binary_kinds(blocks));
}

/// Two parses of the same input give their sinks the same elements, as far as
/// both go; and if both sinks never stop, or neither parse ended because its
/// sink stopped it, the sinks have received the same elements and the parses
/// have returned the same.
pub proof fn same_input_same_stream<S: ElementSink, T: ElementSink>(
    outcome: Outcome,
    before_one: Outlet<S>,
    after_one: Outlet<S>,
    result_one: Result<(), ParseError>,
    before_two: Outlet<T>,
    after_two: Outlet<T>,
    result_two: Result<(), ParseError>,
)
    requires
        parsed(outcome, before_one, after_one, result_one),
        parsed(outcome, before_two, after_two, result_two),
    ensures
        forall|i: int|
            0 <= i < taken(before_one, after_one).len() && i < taken(before_two, after_two).len()
                ==> taken(before_one, after_one)[i] == taken(before_two, after_two)[i],
        (before_one.inner().never_stops() || !(result_one == Err::<(), ParseError>(
            ParseError::SinkAborted,
        ))) && (before_two.inner().never_stops() || !(result_two == Err::<(), ParseError>(
            ParseError::SinkAborted,
        ))) ==> taken(before_one, after_one) == taken(before_two, after_two) && result_one
            == result_two,
{
    sink_takes_the_stream(outcome, before_one, after_one, result_one);
    sink_takes_the_stream(outcome, before_two, after_two, result_two);
}

/// The element of a record stands in the stream right after the elements of
/// the records before it, where none of those is in error.
pub proof fn record_is_streamed(before: Seq<Step>, element: ElementView, after: Seq<Step>)
    requires
        Outcome::empty().plus_all(before).error is None,
    ensures
        Outcome::empty().plus_all(before).elements.len() < Outcome::empty().plus_all(
            before + seq![Step::Emit(element)] + after,
        ).elements.len(),
        Outcome::empty().plus_all(before + seq![Step::Emit(element)] + after).elements[Outcome::empty().plus_all(
            before,
        ).elements.len() as int] == element,
{
    let start = Outcome::empty().plus_all(before);
    let step = Step::Emit(element);
    lemma_plus_all_joined(Outcome::empty(), before, seq![step]);
    lemma_plus_one(start, step);
    lemma_plus_all_joined(Outcome::empty(), before + seq![step], after);
    lemma_plus_all_grows(start.plus(step), after);
}

/// The groups of a block; none if it is no data block.
pub open spec fn groups_in(block: BlockView) -> Seq<GroupView> {
    match block {
        BlockView::Data(groups) => groups,
        _ => Seq::empty(),
    }
}

/// What the input adds to the stream before it comes to the relation at place
/// `at` of the group at place `group` of the block at place `block`.
pub open spec fn steps_before_relation(
    blocks: Seq<BlockView>,
    block: int,
    group: int,
    at: int,
) -> Seq<Step> {
    let groups = groups_in(blocks[block]);
    blocks_steps(blocks.take(block)) + groups_steps(groups.take(group)) + records_steps(
        groups[group].dense_nodes,
    ) + records_steps(groups[group].nodes) + records_steps(groups[group].ways) + records_steps(
        groups[group].relations.take(at),
    )
}

/// Whether `record` is a relation whose roles could all be decoded.
pub open spec fn is_whole_relation(record: RawRecordView) -> bool {
    match record {
        RawRecordView::Relation { members, .. } => roles_decoded(members),
        _ => false,
    }
}

/// Whether `element` is the relation that `record` holds, with as many members
/// as the record has, each with its role and named by its kind, in the order
/// of the record.
pub open spec fn keeps_every_member(record: RawRecordView, element: ElementView) -> bool {
    match (record, element) {
        (
            RawRecordView::Relation { id, members, tags, version },
            ElementView::Relation { id: got, tags: got_tags, members: got_members, version: got_version },
        ) => {
            &&& got == RelationID(id)
            &&& got_tags == pairs_map(tags)
            &&& got_version == version
            &&& got_members.len() == members.len()
            &&& forall|j: int|
                0 <= j < members.len() ==> #[trigger] got_members[j] == (
                    members[j].role.unwrap(),
                    entity_of(members[j].kind, members[j].id),
                )
        },
        _ => false,
    }
}

/// Every relation of a binary input whose roles can be decoded is in the
/// stream with every one of its members: none is left out, whatever its
/// kind. It stands right after the elements of the records before it, where
/// none of those is in error.
pub proof fn binary_relation_keeps_every_member(
    blocks: Seq<BlockView>,
    block: int,
    group: int,
    at: int,
)
    requires
        0 <= block < blocks.len(),
        0 <= group < groups_in(blocks[block]).len(),
        0 <= at < groups_in(blocks[block])[group].relations.len(),
        is_whole_relation(groups_in(blocks[block])[group].relations[at]),
        Outcome::empty().plus_all(steps_before_relation(blocks, block, group, at)).error is None,
    ensures
        Outcome::empty().plus_all(
            steps_before_relation(blocks, block, group, at),
        ).elements.len() < binary_outcome(blocks).elements.len(),
        keeps_every_member(
            groups_in(blocks[block])[group].relations[at],
            binary_outcome(blocks).elements[Outcome::empty().plus_all(
                steps_before_relation(blocks, block, group, at),
            ).elements.len() as int],
        ),
{
    let runs = blocks.map_values(|block: BlockView| block_steps(block));
    let groups = groups_in(blocks[block]);
    let inner = groups.map_values(|group: GroupView| group_steps(group));
    let relations = groups[group].relations;
    let record = relations[at];
    let before = steps_before_relation(blocks, block, group, at);
    let after = records_steps(relations.skip(at + 1)) + chain(inner.skip(group + 1)) + chain(
        runs.skip(block + 1),
    );
    lemma_chain_split(runs, block);
    lemma_chain_split(inner, group);
    assert(runs.take(block) =~= blocks.take(block).map_values(
        |block: BlockView| block_steps(block),
    ));
    assert(inner.take(group) =~= groups.take(group).map_values(
        |group: GroupView| group_steps(group),
    ));
    assert(runs[block] == groups_steps(groups));
    assert(records_steps(relations) =~= records_steps(relations.take(at)) + seq![
        record_step(record),
    ] + records_steps(relations.skip(at + 1)));
    match record_step(record) {
        Step::Emit(element) => {
            assert(blocks_steps(blocks) =~= before + seq![Step::Emit(element)] + after);
            record_is_streamed(before, element, after);
        },
        _ => {},
    }
}

/// Every header block of a binary input that has a bounding box gives one
/// element, the box, each time it comes. It stands right after the elements
/// of the blocks before it, where none of those is in error.
pub proof fn binary_header_gives_its_box(blocks: Seq<BlockView>, block: int, bounds: RawBounds)
    requires
        0 <= block < blocks.len(),
        blocks[block] == BlockView::Header(Some(bounds)),
        Outcome::empty().plus_all(blocks_steps(blocks.take(block))).error is None,
    ensures
        Outcome::empty().plus_all(blocks_steps(blocks.take(block))).elements.len()
            < binary_outcome(blocks).elements.len(),
        binary_outcome(blocks).elements[Outcome::empty().plus_all(
            blocks_steps(blocks.take(block)),
        ).elements.len() as int] == header_element(bounds),
{
    let runs = blocks.map_values(|block: BlockView| block_steps(block));
    let before = blocks_steps(blocks.take(block));
    let after = chain(runs.skip(block + 1));
    lemma_chain_split(runs, block);
    assert(runs.take(block) =~= blocks.take(block).map_values(
        |block: BlockView| block_steps(block),
    ));
    assert(blocks_steps(blocks) =~= before + seq![Step::Emit(header_element(bounds))] + after);
    record_is_streamed(before, header_element(bounds), after);
}

/// From an outcome without an error, more records give what they give from
/// the start, behind what the outcome has.
proof fn lemma_plus_all_behind(start: Outcome, steps: Seq<Step>)
    requires
        start.error is None,
    ensures
        start.plus_all(steps).elements == start.elements + Outcome::empty().plus_all(
            steps,
        ).elements,
        start.plus_all(steps).error == Outcome::empty().plus_all(steps).error,
    decreases steps.len(),
{
    if steps.len() > 0 {
        let front = steps.drop_last();
        lemma_plus_all_behind(start, front);
        assert(start.plus_all(steps).elements =~= start.elements + Outcome::empty().plus_all(
            steps,
        ).elements);
    } else {
        assert(start.elements + Seq::<ElementView>::empty() =~= start.elements);
    }
}

/// Two parses in turn are one parse of both inputs: where the first returned
/// `Ok`, the sink has of the two what it would have of their records in one
/// run, and the second's result is the result of the run.
pub proof fn parsed_in_turn<S: ElementSink>(
    first: Seq<Step>,
    second: Seq<Step>,
    before: Outlet<S>,
    between: Outlet<S>,
    after: Outlet<S>,
    result: Result<(), ParseError>,
)
    requires
        parsed(Outcome::empty().plus_all(first), before, between, Ok(())),
        parsed(Outcome::empty().plus_all(second), between, after, result),
    ensures
        parsed(Outcome::empty().plus_all(first + second), before, after, result),
{
    let one = Outcome::empty().plus_all(first);
    let two = Outcome::empty().plus_all(second);
    let both = Outcome::empty().plus_all(first + second);
    let early = between.log().skip(before.log().len() as int);
    let late = after.log().skip(between.log().len() as int);
    let calls = after.log().skip(before.log().len() as int);
    lemma_plus_all_joined(Outcome::empty(), first, second);
    assert(one.error is None);
    lemma_plus_all_behind(one, second);
    assert(after.log().take(before.log().len() as int) =~= before.log()) by {
        assert(after.log().take(between.log().len() as int).take(before.log().len() as int)
            =~= after.log().take(before.log().len() as int));
    }
    assert(calls =~= early + late);
    assert forall|i: int| 0 <= i < early.len() implies (#[trigger] early[i]).accepted by {
        if i == early.len() - 1 {
            assert(early.last() == early[i]);
        }
    }
    assert forall|i: int| 0 <= i < calls.len() implies (#[trigger] calls[i]).element
        == both.elements[i] by {
        if i < early.len() {
            assert(calls[i] == early[i]);
        } else {
            assert(calls[i] == late[i - early.len()]);
        }
    }
    assert forall|i: int| 0 <= i < calls.len() - 1 implies (#[trigger] calls[i]).accepted by {
        if i < early.len() {
            assert(calls[i] == early[i]);
        } else {
            assert(calls[i] == late[i - early.len()]);
        }
    }
    if late.len() > 0 {
        assert(calls.last() == late.last());
    } else if calls.len() > 0 {
        assert(calls.last() == early[early.len() - 1]);
    }
    assert(delivered(before.log(), after.log()) =~= delivered(before.log(), between.log())
        + delivered(between.log(), after.log()));
    assert(before.inner().received() + (delivered(before.log(), between.log()) + delivered(
        between.log(),
        after.log(),
    )) =~= between.inner().received() + delivered(between.log(), after.log()));
    if before.inner().never_stops() {
        assert forall|i: int| before.log().len() <= i < after.log().len() implies (
        #[trigger] after.log()[i]).accepted by {
            if i < between.log().len() {
                assert(after.log()[i] == after.log().take(between.log().len() as int)[i]);
            }
        }
    }
}

/// Handing the blocks of a binary input over one by one is parsing the input:
/// where the blocks so far were parsed with `Ok`, the next block handed over
/// makes a parse of them all.
pub proof fn blocks_in_turn<S: ElementSink>(
    blocks: Seq<BlockView>,
    block: BlockView,
    before: Outlet<S>,
    between: Outlet<S>,
    after: Outlet<S>,
    result: Result<(), ParseError>,
)
    requires
        parsed(binary_outcome(blocks), before, between, Ok(())),
        parsed(Outcome::empty().plus_all(block_steps(block)), between, after, result),
    ensures
        parsed(binary_outcome(blocks.push(block)), before, after, result),
{
    let runs = blocks.push(block).map_values(|block: BlockView| block_steps(block));
    assert(runs.drop_last() =~= blocks.map_values(|block: BlockView| block_steps(block)));
    assert(blocks_steps(blocks.push(block)) == blocks_steps(blocks) + block_steps(block));
    parsed_in_turn(blocks_steps(blocks), block_steps(block), before, between, after, result);
}

} // verus!
