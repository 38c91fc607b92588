//! Reads OpenStreetMap extracts, in the binary block format or in the text
//! markup format, and hands their contents on as one stream of typed elements.
//!
//! The two formats are told apart by the first bytes of the input: `is_xml`
//! says which it is. Markup is read by `parse_xml`. Binary input is decoded
//! outside the library, block by block, and each block is handed to
//! `stream_block`. Either way the elements go to the sink one at a time, in
//! the order of the input, and the first error ends the parse.

use vstd::prelude::*;

pub mod blocks;
pub mod element;
pub mod error;
pub mod ids;
pub mod laws;
pub mod markup;
pub mod pbf;
pub mod sink;
pub mod stream;
pub mod tags;
pub mod text;
pub mod xml;

pub use element::{Degrees, Element, ElementKind};
pub use error::{DecodeFault, ParseError};
pub use ids::{NodeID, OsmID, RelationID, WayID};
pub use pbf::{begin_binary, parse_pbf, stream_block};
pub use sink::{Collector, ElementSink, Outlet};
pub use tags::Tags;
pub use xml::parse_xml;

verus! {

/// The byte `byte`, in small if it is a capital letter.
pub open spec fn small(byte: u8) -> u8 {
    if 0x41 <= byte <= 0x5a {
        (byte + 0x20) as u8
    } else {
        byte
    }
}

/// The bytes of `<?xml`, with which a document in the markup format starts.
pub open spec fn markup_mark() -> Seq<u8> {
    seq![0x3c, 0x3f, 0x78, 0x6d, 0x6c]
}

/// Whether `bytes` start with `<?xml`, in small or capital letters.
pub open spec fn starts_as_markup(bytes: Seq<u8>) -> bool {
    bytes.len() >= 5 && forall|i: int| 0 <= i < 5 ==> small(#[trigger] bytes[i]) == markup_mark()[i]
}

/// Turns a capital letter into its small one.
fn to_small(byte: u8) -> (r: u8)
    ensures
        r == small(byte),
{
    if 0x41 <= byte && byte <= 0x5a {
        byte + 0x20
    } else {
        byte
    }
}

/// Whether the input is in the markup format: whether it starts with `<?xml`,
/// in small or capital letters. Any other input, an empty one too, is taken
/// for binary.
pub fn is_xml(input_bytes: &[u8]) -> (r: bool)
    ensures
        r == starts_as_markup(input_bytes@),
{
    if input_bytes.len() < 5 {
        return false;
    }
    let r = to_small(input_bytes[0]) == 0x3c && to_small(input_bytes[1]) == 0x3f && to_small(
        input_bytes[2],
    ) == 0x78 && to_small(input_bytes[3]) == 0x6d && to_small(input_bytes[4]) == 0x6c;
    proof {
        if starts_as_markup(input_bytes@) {
            assert(small(input_bytes@[0]) == markup_mark()[0]);
            assert(small(input_bytes@[1]) == markup_mark()[1]);
            assert(small(input_bytes@[2]) == markup_mark()[2]);
            assert(small(input_bytes@[3]) == markup_mark()[3]);
            assert(small(input_bytes@[4]) == markup_mark()[4]);
        }
    }
    r
}

} // verus!
