//! A verified decoder for multipart/form-data byte buffers.
//!
//! `parse_multipart` splits a fully buffered input into its parts along
//! line-anchored boundary delimiter lines, separates each part's header
//! block from its binary body, and decodes header lines into name/value
//! pairs.  Its contract equates the executable result with the spec-level
//! reference parse `spec_parse`, and the `laws` module proves the
//! parser's round-trip and failure properties from that specification.

use vstd::prelude::*;

pub mod bytes;
pub mod codec;
pub mod laws;
pub mod model;
pub mod scanner;
pub mod segment;

use vstd::slice::slice_subrange;
use vstd::utf8::encode_utf8;

use crate::model::{parts_view, FormData, ParseError, Part, PartModel};
use crate::scanner::{boundary_scan, extents_bounded, extents_view, scan_extents};
use crate::segment::{parse_part, parse_segment, part_result_view};

verus! {

/// What parsing the segments of the given extents yields, from the
/// `k`-th extent on: each extent's bytes become one part, and the first
/// failure aborts the whole parse.
pub open spec fn parse_parts_from(b: Seq<u8>, xs: Seq<(int, int)>, k: int) -> Result<
    Seq<PartModel>,
    ParseError,
>
    decreases xs.len() - k,
{
    if k < 0 || k >= xs.len() {
        Ok(seq![])
    } else {
        match parse_part(b.subrange(xs[k].0, xs[k].1), xs[k].0, k) {
            Ok(p) => match parse_parts_from(b, xs, k + 1) {
                Ok(ps) => Ok(seq![p] + ps),
                Err(e) => Err(e),
            },
            Err(e) => Err(e),
        }
    }
}

/// The reference parse: scan the buffer into extents along the
/// boundary's delimiter lines, then parse each extent into a part.
pub open spec fn spec_parse(b: Seq<u8>, t: Seq<u8>) -> Result<Seq<PartModel>, ParseError> {
    match boundary_scan(b, t) {
        Ok(xs) => parse_parts_from(b, xs, 0),
        Err(e) => Err(e),
    }
}

/// `Ok` results seen through the part models.
pub open spec fn parse_result_view(r: Result<FormData, ParseError>) -> Result<
    Seq<PartModel>,
    ParseError,
> {
    match r {
        Ok(fd) => Ok(fd@),
        Err(e) => Err(e),
    }
}

/// A parsed prefix of the message, prepended to the rest's outcome.
pub open spec fn parts_prepend(
    pre: Seq<PartModel>,
    r: Result<Seq<PartModel>, ParseError>,
) -> Result<Seq<PartModel>, ParseError> {
    match r {
        Ok(ps) => Ok(pre + ps),
        Err(e) => Err(e),
    }
}

/// Decode a multipart/form-data buffer delimited by `boundary` (the bare
/// token, without its leading "--").  Exactly one of a fully populated
/// `FormData` and a single typed error comes back, as `spec_parse` says.
pub fn parse_multipart(input: &[u8], boundary: &str) -> (r: Result<FormData, ParseError>)
    ensures
        parse_result_view(r) == spec_parse(input@, encode_utf8(boundary@)),
{
    let t: &[u8] = boundary.as_bytes();
    let ghost bv = input@;
    let ghost tv = encode_utf8(boundary@);
    assert(t@ == tv);
    match scan_extents(input, t) {
        Err(e) => Err(e),
        Ok(xs) => {
            let ghost xv = extents_view(xs@);
            let nx = xs.len();
            let mut parts: Vec<Part> = Vec::new();
            let mut k: usize = 0;
            proof {
                assert(parts_view(parts@) =~= Seq::<PartModel>::empty());
            }
            loop
                invariant
                    k <= nx,
                    nx == xs@.len(),
                    input@ == bv,
                    tv == encode_utf8(boundary@),
                    xs@.len() == xv.len(),
                    xv == extents_view(xs@),
                    extents_bounded(xs@, bv.len() as int),
                    boundary_scan(bv, tv) == Ok::<Seq<(int, int)>, ParseError>(xv),
                    parts_prepend(parts_view(parts@), parse_parts_from(bv, xv, k as int))
                        == parse_parts_from(bv, xv, 0),
                ensures
                    input@ == bv,
                    parse_parts_from(bv, xv, 0) == Ok::<Seq<PartModel>, ParseError>(
                        parts_view(parts@),
                    ),
                decreases nx - k,
            {
                let ghost pre = parts_view(parts@);
                if k == nx {
                    assert(parse_parts_from(bv, xv, k as int) == Ok::<Seq<PartModel>, ParseError>(
                        seq![],
                    ));
                    assert(pre + seq![] =~= pre);
                    break;
                }
                let pr = xs[k];
                let s = pr.0;
                let e = pr.1;
                assert(xv[k as int] == (s as int, e as int));
                let c = slice_subrange(input, s, e);
                match parse_segment(c, s, k) {
                    Ok(part) => {
                        let ghost pm = part@;
                        parts.push(part);
                        proof {
                            assert(parts_view(parts@) =~= pre.push(pm));
                            assert forall|ps: Seq<PartModel>|
                                pre.push(pm) + ps =~= pre + (seq![pm] + ps) by {}
                        }
                        k = k + 1;
                    },
                    Err(err) => {
                        assert(parse_parts_from(bv, xv, k as int) == Err::<
                            Seq<PartModel>,
                            ParseError,
                        >(err));
                        return Err(err);
                    },
                }
            }
            Ok(FormData { parts })
        },
    }
}

} // verus!
