//! The blocks of a binary input, as plain values.
//!
//! The binary format is decoded outside this library, block by block, and
//! each block comes in as a value of the types below. The library reads
//! nothing else of the decoder.

use vstd::prelude::*;

use crate::tags::{text_pairs, TextPair};

verus! {

/// The bounding box of a header block. The decoder hands each side out as a
/// double-precision number of degrees; what is kept is its bit pattern. Left
/// is the west side, right the east, top the north and bottom the south.
#[derive(Clone, Copy, Debug, PartialEq, Eq, Structural)]
pub struct RawBounds {
    pub left: u64,
    pub top: u64,
    pub right: u64,
    pub bottom: u64,
}

/// The three kinds that a member of a relation can be of.
#[derive(Clone, Copy, Debug, PartialEq, Eq, Structural)]
pub enum MemberKind {
    Node,
    Way,
    Relation,
}

/// A member of a relation as a block holds it. The role is `None` where its
/// text cannot be decoded.
#[derive(Debug)]
pub struct RawMember {
    pub role: Option<String>,
    pub kind: MemberKind,
    pub id: i64,
}

/// What a `RawMember` holds.
pub struct RawMemberView {
    pub role: Option<Seq<char>>,
    pub kind: MemberKind,
    pub id: i64,
}

impl View for RawMember {
    type V = RawMemberView;

    open spec fn view(&self) -> RawMemberView {
        RawMemberView {
            role: match self.role {
                Some(role) => Some(role@),
                None => None,
            },
            kind: self.kind,
            id: self.id,
        }
    }
}

/// A record as a data block holds it, whichever way the block packs its
/// nodes. Angles are counted in billionths of a degree. Tags come in the
/// order of the block. A way holds its nodes as differences: the first
/// number is the first node's, and each later one is what is added to the
/// node before to get the next.
#[derive(Debug)]
pub enum RawRecord {
    Node { id: i64, lon: i64, lat: i64, tags: Vec<(String, String)>, version: Option<i32> },
    Way { id: i64, ref_deltas: Vec<i64>, tags: Vec<(String, String)>, version: Option<i32> },
    Relation { id: i64, members: Vec<RawMember>, tags: Vec<(String, String)>, version: Option<i32> },
}

/// What a `RawRecord` holds.
pub enum RawRecordView {
    Node { id: i64, lon: i64, lat: i64, tags: Seq<TextPair>, version: Option<i32> },
    Way { id: i64, ref_deltas: Seq<i64>, tags: Seq<TextPair>, version: Option<i32> },
    Relation { id: i64, members: Seq<RawMemberView>, tags: Seq<TextPair>, version: Option<i32> },
}

/// What each member of `members` holds.
pub open spec fn member_records(members: Seq<RawMember>) -> Seq<RawMemberView> {
    members.map_values(|m: RawMember| m@)
}

impl View for RawRecord {
    type V = RawRecordView;

    open spec fn view(&self) -> RawRecordView {
        match self {
            RawRecord::Node { id, lon, lat, tags, version } => RawRecordView::Node {
                id: *id,
                lon: *lon,
                lat: *lat,
                tags: text_pairs(tags@),
                version: *version,
            },
            RawRecord::Way { id, ref_deltas, tags, version } => RawRecordView::Way {
                id: *id,
                ref_deltas: ref_deltas@,
                tags: text_pairs(tags@),
                version: *version,
            },
            RawRecord::Relation { id, members, tags, version } => RawRecordView::Relation {
                id: *id,
                members: member_records(members@),
                tags: text_pairs(tags@),
                version: *version,
            },
        }
    }
}

/// What each record of `records` holds.
pub open spec fn record_views(records: Seq<RawRecord>) -> Seq<RawRecordView> {
    records.map_values(|r: RawRecord| r@)
}

/// One group of a data block: four lists of records, each in the order of
/// the group. A group holds records of one kind, as a rule, and leaves the
/// other lists empty.
#[derive(Debug)]
pub struct RawGroup {
    /// The nodes that are packed in columns.
    pub dense_nodes: Vec<RawRecord>,
    /// The nodes that stand alone.
    pub nodes: Vec<RawRecord>,
    pub ways: Vec<RawRecord>,
    pub relations: Vec<RawRecord>,
}

/// What a `RawGroup` holds.
pub struct GroupView {
    pub dense_nodes: Seq<RawRecordView>,
    pub nodes: Seq<RawRecordView>,
    pub ways: Seq<RawRecordView>,
    pub relations: Seq<RawRecordView>,
}

impl View for RawGroup {
    type V = GroupView;

    open spec fn view(&self) -> GroupView {
        GroupView {
            dense_nodes: record_views(self.dense_nodes@),
            nodes: record_views(self.nodes@),
            ways: record_views(self.ways@),
            relations: record_views(self.relations@),
        }
    }
}

/// What each group of `groups` holds.
pub open spec fn group_views(groups: Seq<RawGroup>) -> Seq<GroupView> {
    groups.map_values(|g: RawGroup| g@)
}

/// One block of the input, as far as the decoder could read it.
#[derive(Debug)]
pub enum RawBlock {
    /// The input breaks off here, or the frame around the block is malformed.
    Unreadable,
    /// The block cannot be decoded.
    Undecodable,
    /// A header block, with its bounding box if it has one.
    Header(Option<RawBounds>),
    /// A data block, with its groups in the order of the block.
    Data(Vec<RawGroup>),
    /// A block of a kind that is not known.
    Other,
}

/// What a `RawBlock` holds.
pub enum BlockView {
    Unreadable,
    Undecodable,
    Header(Option<RawBounds>),
    Data(Seq<GroupView>),
    Other,
}

impl View for RawBlock {
    type V = BlockView;

    open spec fn view(&self) -> BlockView {
        match self {
            RawBlock::Unreadable => BlockView::Unreadable,
            RawBlock::Undecodable => BlockView::Undecodable,
            RawBlock::Header(bounds) => BlockView::Header(*bounds),
            RawBlock::Data(groups) => BlockView::Data(group_views(groups@)),
            RawBlock::Other => BlockView::Other,
        }
    }
}

/// What each block of `blocks` holds.
pub open spec fn block_views(blocks: Seq<RawBlock>) -> Seq<BlockView> {
    blocks.map_values(|b: RawBlock| b@)
}

} // verus!
