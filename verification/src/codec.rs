//! The header codec: one header line's bytes become a name/value pair,
//! split at the first "colon, space" and decoded as UTF-8.

use vstd::prelude::*;
use vstd::slice::{slice_subrange, slice_to_vec};
use vstd::utf8::{decode_utf8, valid_utf8};

use crate::bytes::{COLON, SPACE};
use crate::model::{Header, HeaderModel, ParseError};

verus! {

/// The least index at or after `from` where the two-byte header separator
/// "colon, space" starts.
pub open spec fn find_colon_space(line: Seq<u8>, from: int) -> Option<int>
    decreases line.len() - from,
{
    if from < 0 || from + 2 > line.len() {
        None
    } else if line[from] == COLON && line[from + 1] == SPACE {
        Some(from)
    } else {
        find_colon_space(line, from + 1)
    }
}

/// What parsing one header line (terminator excluded) yields: the name
/// before the first "colon, space", the value after it, both decoded as
/// UTF-8; `MalformedHeader` without a separator, `InvalidEncoding` on
/// bytes that are not UTF-8.  `off` is the line's byte offset in the
/// whole input and `idx` the index of the part it belongs to; both are
/// carried into the errors.
pub open spec fn parse_header_line(line: Seq<u8>, off: int, idx: int) -> Result<
    HeaderModel,
    ParseError,
> {
    match find_colon_space(line, 0) {
        None => Err(ParseError::MalformedHeader { offset: off as usize, part_index: idx as usize }),
        Some(i) => {
            let nb = line.subrange(0, i);
            let vb = line.subrange(i + 2, line.len() as int);
            if valid_utf8(nb) && valid_utf8(vb) {
                Ok(HeaderModel { name: decode_utf8(nb), value: decode_utf8(vb) })
            } else {
                Err(
                    ParseError::InvalidEncoding {
                        offset: off as usize,
                        part_index: idx as usize,
                    },
                )
            }
        },
    }
}

/// What `find_colon_space` returns: the first separator at or after
/// `from`, or nothing when no separator occurs in the line.
pub proof fn lemma_find_colon_space(line: Seq<u8>, from: int)
    requires
        from >= 0,
    ensures
        match find_colon_space(line, from) {
            Some(j) => from <= j && j + 2 <= line.len() && line[j] == COLON && line[j + 1] == SPACE
                && forall|r: int|
                from <= r < j ==> !(#[trigger] line[r] == COLON && line[r + 1] == SPACE),
            None => forall|r: int|
                from <= r && r + 2 <= line.len() ==> !(#[trigger] line[r] == COLON && line[r + 1]
                    == SPACE),
        },
    decreases line.len() - from,
{
    if from + 2 > line.len() {
    } else if line[from] == COLON && line[from + 1] == SPACE {
    } else {
        lemma_find_colon_space(line, from + 1);
    }
}

/// A separator at `j` with none before it pins the search down.
pub proof fn lemma_find_colon_space_exact(line: Seq<u8>, from: int, j: int)
    requires
        0 <= from <= j,
        j + 2 <= line.len(),
        line[j] == COLON,
        line[j + 1] == SPACE,
        forall|r: int| from <= r < j ==> !(#[trigger] line[r] == COLON && line[r + 1] == SPACE),
    ensures
        find_colon_space(line, from) == Some(j),
    decreases j - from,
{
    if from < j {
        lemma_find_colon_space_exact(line, from + 1, j);
    }
}

/// `Ok` results seen through the header model.
pub open spec fn header_result_view(r: Result<Header, ParseError>) -> Result<
    HeaderModel,
    ParseError,
> {
    match r {
        Ok(h) => Ok(h@),
        Err(e) => Err(e),
    }
}

/// Relies on std's `String::from_utf8`: it returns `Ok` exactly when the
/// bytes are a valid UTF-8 encoding, and then decodes them.
#[verifier::external_body]
fn vec_to_string(b: Vec<u8>) -> (r: Option<String>)
    ensures
        r is Some <==> valid_utf8(b@),
        r matches Some(s) ==> s@ == decode_utf8(b@),
{
    String::from_utf8(b).ok()
}

/// Find the first header separator at or after `from`.
fn scan_colon_space(line: &[u8], from: usize) -> (r: Option<usize>)
    requires
        from <= line@.len(),
    ensures
        match r {
            Some(j) => find_colon_space(line@, from as int) == Some(j as int),
            None => find_colon_space(line@, from as int) is None,
        },
{
    let n = line.len();
    let mut i: usize = from;
    loop
        invariant
            from <= i <= n,
            n == line@.len(),
            find_colon_space(line@, from as int) == find_colon_space(line@, i as int),
        decreases n - i,
    {
        if n - i < 2 {
            return None;
        }
        if line[i] == COLON && line[i + 1] == SPACE {
            return Some(i);
        }
        i = i + 1;
    }
}

/// Parse one header line (its terminator excluded) into a `Header`.
/// `offset` is the line's byte offset in the whole input and
/// `part_index` the index of the part being parsed; failures carry both.
pub fn parse_header(line: &[u8], offset: usize, part_index: usize) -> (r: Result<
    Header,
    ParseError,
>)
    ensures
        header_result_view(r) == parse_header_line(line@, offset as int, part_index as int),
{
    match scan_colon_space(line, 0) {
        None => Err(ParseError::MalformedHeader { offset, part_index }),
        Some(i) => {
            proof {
                lemma_find_colon_space(line@, 0);
            }
            let n = line.len();
            let nb = slice_to_vec(slice_subrange(line, 0, i));
            let vb = slice_to_vec(slice_subrange(line, i + 2, n));
            match (vec_to_string(nb), vec_to_string(vb)) {
                (Some(name), Some(value)) => Ok(Header { name, value }),
                _ => Err(ParseError::InvalidEncoding { offset, part_index }),
            }
        },
    }
}

} // verus!
