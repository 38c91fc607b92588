//! The elements of a map extract: its bounding box, nodes, ways and relations.

use vstd::prelude::*;

use crate::ids::{NodeID, OsmID, RelationID, WayID};
use crate::tags::Tags;
use crate::text::float_text;

verus! {

/// An angle in degrees, kept as the source gave it, so that nothing is
/// rounded on the way: the markup format writes decimal text, the records of
/// the binary format count billionths of a degree, and the box of a binary
/// header comes as a double-precision number.
#[derive(Debug)]
pub enum Degrees {
    /// Text that reads as a floating-point number.
    Decimal(String),
    /// Billionths of a degree.
    Nano(i64),
    /// The bit pattern of a double-precision number of degrees.
    Bits(u64),
}

/// What a `Degrees` holds.
pub enum DegreesView {
    Decimal(Seq<char>),
    Nano(i64),
    Bits(u64),
}

impl DegreesView {
    /// Whether the text, where there is one, reads as a floating-point number.
    pub open spec fn wf(self) -> bool {
        match self {
            DegreesView::Decimal(text) => float_text(text),
            DegreesView::Nano(_) => true,
            DegreesView::Bits(_) => true,
        }
    }
}

impl View for Degrees {
    type V = DegreesView;

    open spec fn view(&self) -> DegreesView {
        match self {
            Degrees::Decimal(text) => DegreesView::Decimal(text@),
            Degrees::Nano(count) => DegreesView::Nano(*count),
            Degrees::Bits(bits) => DegreesView::Bits(*bits),
        }
    }
}

/// The four kinds of element.
#[derive(Clone, Copy, Debug, PartialEq, Eq, Structural)]
pub enum ElementKind {
    Bounds,
    Node,
    Way,
    Relation,
}

/// One record of an extract. A way names its nodes in the order in which it
/// runs through them; a node may come twice, and need not be part of the
/// extract. A relation names each member with the role it plays.
#[derive(Debug)]
#[allow(inconsistent_fields)]
pub enum Element {
    Bounds { min_lon: Degrees, min_lat: Degrees, max_lon: Degrees, max_lat: Degrees },
    Node { id: NodeID, lon: Degrees, lat: Degrees, tags: Tags, version: Option<i32> },
    Way { id: WayID, node_ids: Vec<NodeID>, tags: Tags, version: Option<i32> },
    Relation { id: RelationID, tags: Tags, members: Vec<(String, OsmID)>, version: Option<i32> },
}

/// A member of a relation: its role and the entity.
pub type MemberView = (Seq<char>, OsmID);

/// What an `Element` holds.
#[allow(inconsistent_fields)]
pub enum ElementView {
    Bounds { min_lon: DegreesView, min_lat: DegreesView, max_lon: DegreesView, max_lat: DegreesView },
    Node {
        id: NodeID,
        lon: DegreesView,
        lat: DegreesView,
        tags: Map<Seq<char>, Seq<char>>,
        version: Option<i32>,
    },
    Way { id: WayID, node_ids: Seq<NodeID>, tags: Map<Seq<char>, Seq<char>>, version: Option<i32> },
    Relation {
        id: RelationID,
        tags: Map<Seq<char>, Seq<char>>,
        members: Seq<MemberView>,
        version: Option<i32>,
    },
}

/// The role of each member, as characters, with the entity.
pub open spec fn member_views(members: Seq<(String, OsmID)>) -> Seq<MemberView> {
    members.map_values(|m: (String, OsmID)| (m.0@, m.1))
}

impl ElementView {
    /// The kind of element.
    pub open spec fn kind(self) -> ElementKind {
        match self {
            ElementView::Bounds { .. } => ElementKind::Bounds,
            ElementView::Node { .. } => ElementKind::Node,
            ElementView::Way { .. } => ElementKind::Way,
            ElementView::Relation { .. } => ElementKind::Relation,
        }
    }

    /// Whether every angle in the element is well-formed.
    pub open spec fn wf(self) -> bool {
        match self {
            ElementView::Bounds { min_lon, min_lat, max_lon, max_lat } => min_lon.wf()
                && min_lat.wf() && max_lon.wf() && max_lat.wf(),
            ElementView::Node { lon, lat, .. } => lon.wf() && lat.wf(),
            ElementView::Way { .. } => true,
            ElementView::Relation { .. } => true,
        }
    }
}

impl View for Element {
    type V = ElementView;

    open spec fn view(&self) -> ElementView {
        match self {
            Element::Bounds { min_lon, min_lat, max_lon, max_lat } => ElementView::Bounds {
                min_lon: min_lon@,
                min_lat: min_lat@,
                max_lon: max_lon@,
                max_lat: max_lat@,
            },
            Element::Node { id, lon, lat, tags, version } => ElementView::Node {
                id: *id,
                lon: lon@,
                lat: lat@,
                tags: tags@,
                version: *version,
            },
            Element::Way { id, node_ids, tags, version } => ElementView::Way {
                id: *id,
                node_ids: node_ids@,
                tags: tags@,
                version: *version,
            },
            Element::Relation { id, tags, members, version } => ElementView::Relation {
                id: *id,
                tags: tags@,
                members: member_views(members@),
                version: *version,
            },
        }
    }
}

impl Element {
    /// The kind of this element.
    pub fn kind(&self) -> (r: ElementKind)
        ensures
            r == self@.kind(),
    {
        match self {
            Element::Bounds { .. } => ElementKind::Bounds,
            Element::Node { .. } => ElementKind::Node,
            Element::Way { .. } => ElementKind::Way,
            Element::Relation { .. } => ElementKind::Relation,
        }
    }
}

/// The kind of each element of `elements`.
pub open spec fn kinds_of(elements: Seq<ElementView>) -> Seq<ElementKind> {
    elements.map_values(|e: ElementView| e.kind())
}

} // verus!
