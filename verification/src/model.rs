//! The parsed form of a multipart message — ordered headers, parts and the
//! whole message — together with the mathematical model each type is
//! specified against, and the parser's error taxonomy.

use vstd::prelude::*;

verus! {

/// One header's mathematical model: its decoded name and value.
#[verifier::ext_equal]
pub ghost struct HeaderModel {
    pub name: Seq<char>,
    pub value: Seq<char>,
}

/// One part's mathematical model: its headers in encoded order and its
/// exact body bytes.
#[verifier::ext_equal]
pub ghost struct PartModel {
    pub headers: Seq<HeaderModel>,
    pub body: Seq<u8>,
}

/// One decoded header line.  Duplicate names are meaningful, so headers are
/// kept as an ordered sequence, never a map.
#[derive(Debug)]
pub struct Header {
    pub name: String,
    pub value: String,
}

/// One part of a multipart message: its header block and its body, an
/// exact copy of the input bytes between the header terminator and the
/// next delimiter line.
#[derive(Debug)]
pub struct Part {
    pub headers: Vec<Header>,
    pub body: Vec<u8>,
}

/// A decoded multipart message: its parts in order of occurrence.
#[derive(Debug)]
pub struct FormData {
    pub parts: Vec<Part>,
}

/// The headers of a part, seen through the header model.
pub open spec fn headers_view(hs: Seq<Header>) -> Seq<HeaderModel> {
    hs.map_values(|h: Header| h@)
}

/// The parts of a message, seen through the part model.
pub open spec fn parts_view(ps: Seq<Part>) -> Seq<PartModel> {
    ps.map_values(|p: Part| p@)
}

impl View for Header {
    type V = HeaderModel;

    open spec fn view(&self) -> HeaderModel {
        HeaderModel { name: self.name@, value: self.value@ }
    }
}

impl View for Part {
    type V = PartModel;

    open spec fn view(&self) -> PartModel {
        PartModel { headers: headers_view(self.headers@), body: self.body@ }
    }
}

impl View for FormData {
    type V = Seq<PartModel>;

    open spec fn view(&self) -> Seq<PartModel> {
        parts_view(self.parts@)
    }
}

/// Why a parse failed.  Offsets are byte positions in the input buffer;
/// where a part was being parsed, its index comes along.
#[derive(Debug, Clone, Copy, PartialEq, Eq, Structural)]
pub enum ParseError {
    /// No delimiter line for the boundary occurs anywhere in the buffer.
    MalformedInput { offset: usize },
    /// A non-empty line inside a header block lacks the "colon, space"
    /// separator; the offset is the first byte of that line.
    MalformedHeader { offset: usize, part_index: usize },
    /// A header line's name or value is not valid UTF-8; the offset is the
    /// first byte of that line.
    InvalidEncoding { offset: usize, part_index: usize },
    /// The buffer ends in the middle of a delimiter line, or before the
    /// delimiter that would close the final part.
    UnexpectedEndOfInput { offset: usize },
}

} // verus!
