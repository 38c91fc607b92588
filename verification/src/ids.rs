//! Identifiers of map entities. Nodes, ways and relations are numbered
//! separately: the same number in two namespaces names two entities.

use core::cmp::Ordering;
use vstd::prelude::*;
use vstd::std_specs::cmp::PartialOrdSpecImpl;

use crate::text::{decimal_string, decimal_text_of};

verus! {

/// Identifies a node.
#[derive(Clone, Copy, Debug, PartialEq, Eq, Structural, Hash, Ord)]
pub struct NodeID(pub i64);

/// Identifies a way.
#[derive(Clone, Copy, Debug, PartialEq, Eq, Structural, Hash, Ord)]
pub struct WayID(pub i64);

/// Identifies a relation.
#[derive(Clone, Copy, Debug, PartialEq, Eq, Structural, Hash, Ord)]
pub struct RelationID(pub i64);

/// Identifies an entity of any of the three kinds. A relation's members are
/// named this way; nothing says that the entity named is part of the same
/// stream.
#[derive(Clone, Copy, Debug, PartialEq, Eq, Structural, Hash, PartialOrd, Ord)]
pub enum OsmID {
    Node(NodeID),
    Way(WayID),
    Relation(RelationID),
}

/// How two numbers stand to each other.
pub open spec fn number_order(a: i64, b: i64) -> Ordering {
    if a < b {
        Ordering::Less
    } else if a == b {
        Ordering::Equal
    } else {
        Ordering::Greater
    }
}

/// Compares two numbers.
fn order_numbers(a: i64, b: i64) -> (r: Ordering)
    ensures
        r == number_order(a, b),
{
    if a < b {
        Ordering::Less
    } else if a == b {
        Ordering::Equal
    } else {
        Ordering::Greater
    }
}

impl PartialOrd for NodeID {
    fn partial_cmp(&self, other: &NodeID) -> (r: Option<Ordering>) {
        Some(order_numbers(self.0, other.0))
    }
}

impl PartialOrdSpecImpl for NodeID {
    open spec fn obeys_partial_cmp_spec() -> bool {
        true
    }

    open spec fn partial_cmp_spec(&self, other: &NodeID) -> Option<Ordering> {
        Some(number_order(self.0, other.0))
    }
}

impl PartialOrd for WayID {
    fn partial_cmp(&self, other: &WayID) -> (r: Option<Ordering>) {
        Some(order_numbers(self.0, other.0))
    }
}

impl PartialOrdSpecImpl for WayID {
    open spec fn obeys_partial_cmp_spec() -> bool {
        true
    }

    open spec fn partial_cmp_spec(&self, other: &WayID) -> Option<Ordering> {
        Some(number_order(self.0, other.0))
    }
}

impl PartialOrd for RelationID {
    fn partial_cmp(&self, other: &RelationID) -> (r: Option<Ordering>) {
        Some(order_numbers(self.0, other.0))
    }
}

impl PartialOrdSpecImpl for RelationID {
    open spec fn obeys_partial_cmp_spec() -> bool {
        true
    }

    open spec fn partial_cmp_spec(&self, other: &RelationID) -> Option<Ordering> {
        Some(number_order(self.0, other.0))
    }
}

/// The address under which every node is found.
pub open spec fn node_url_prefix() -> Seq<char> {
    "https://www.openstreetmap.org/node/"@
}

/// The address under which every way is found.
pub open spec fn way_url_prefix() -> Seq<char> {
    "https://www.openstreetmap.org/way/"@
}

/// The address under which every relation is found.
pub open spec fn relation_url_prefix() -> Seq<char> {
    "https://www.openstreetmap.org/relation/"@
}

impl NodeID {
    /// The address of this node.
    pub open spec fn url(self) -> Seq<char> {
        node_url_prefix() + decimal_text_of(self.0)
    }

    /// Writes the address of this node.
    pub fn to_string(&self) -> (r: String)
        ensures
            r@ == self.url(),
    {
        let number = decimal_string(self.0);
        String::from_str("https://www.openstreetmap.org/node/").concat(number.as_str())
    }
}

impl WayID {
    /// The address of this way.
    pub open spec fn url(self) -> Seq<char> {
        way_url_prefix() + decimal_text_of(self.0)
    }

    /// Writes the address of this way.
    pub fn to_string(&self) -> (r: String)
        ensures
            r@ == self.url(),
    {
        let number = decimal_string(self.0);
        String::from_str("https://www.openstreetmap.org/way/").concat(number.as_str())
    }
}

impl RelationID {
    /// The address of this relation.
    pub open spec fn url(self) -> Seq<char> {
        relation_url_prefix() + decimal_text_of(self.0)
    }

    /// Writes the address of this relation.
    pub fn to_string(&self) -> (r: String)
        ensures
            r@ == self.url(),
    {
        let number = decimal_string(self.0);
        String::from_str("https://www.openstreetmap.org/relation/").concat(number.as_str())
    }
}

impl OsmID {
    /// The number inside, whatever the namespace.
    pub open spec fn number(self) -> i64 {
        match self {
            OsmID::Node(id) => id.0,
            OsmID::Way(id) => id.0,
            OsmID::Relation(id) => id.0,
        }
    }

    /// The address of the entity named.
    pub open spec fn url(self) -> Seq<char> {
        match self {
            OsmID::Node(id) => id.url(),
            OsmID::Way(id) => id.url(),
            OsmID::Relation(id) => id.url(),
        }
    }

    /// The number inside, whatever the namespace.
    pub fn inner_id(self) -> (r: i64)
        ensures
            r == self.number(),
    {
        match self {
            OsmID::Node(id) => id.0,
            OsmID::Way(id) => id.0,
            OsmID::Relation(id) => id.0,
        }
    }

    /// Writes the address of the entity named.
    pub fn to_string(&self) -> (r: String)
        ensures
            r@ == self.url(),
    {
        match self {
            OsmID::Node(id) => id.to_string(),
            OsmID::Way(id) => id.to_string(),
            OsmID::Relation(id) => id.to_string(),
        }
    }
}

} // verus!
