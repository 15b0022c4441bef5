//! The segment parser: one part's raw bytes (delimiters already excluded)
//! are split into a header block and a body.  The header block ends at the
//! first empty line; a segment without any empty line is all body, since
//! some encoders emit header-less parts.

use vstd::prelude::*;
use vstd::slice::{slice_subrange, slice_to_vec};

use crate::bytes::{crlf_at, find_crlf, lemma_find_crlf, scan_crlf, CR, LF};
use crate::codec::{header_result_view, parse_header, parse_header_line};
use crate::model::{headers_view, Header, HeaderModel, ParseError, Part, PartModel};

verus! {

/// The first index at or after `q` that begins an empty line: a line
/// terminator standing where a line starts.  `at_ls` says whether `q`
/// itself begins a line; the search steps byte by byte and tracks that.
pub open spec fn find_empty_line(c: Seq<u8>, q: int, at_ls: bool) -> Option<int>
    decreases c.len() - q,
{
    if at_ls && crlf_at(c, q) {
        Some(q)
    } else if crlf_at(c, q) {
        find_empty_line(c, q + 2, true)
    } else if 0 <= q && q < c.len() {
        find_empty_line(c, q + 1, false)
    } else {
        None
    }
}

/// Searching from inside a line first skips to the line's end: the search
/// agrees with restarting at the next line start.
pub proof fn lemma_find_empty_line_skip(c: Seq<u8>, q: int, at_ls: bool)
    requires
        0 <= q <= c.len(),
        at_ls ==> !crlf_at(c, q),
    ensures
        find_empty_line(c, q, at_ls) == match find_crlf(c, q) {
            Some(j) => find_empty_line(c, j + 2, true),
            None => None::<int>,
        },
    decreases c.len() - q,
{
    if crlf_at(c, q) {
    } else if q < c.len() {
        lemma_find_empty_line_skip(c, q + 1, false);
    }
}

/// A found empty line lies at or after the search start and carries a
/// line terminator within bounds.
pub proof fn lemma_find_empty_line_some(c: Seq<u8>, q: int, at_ls: bool)
    ensures
        find_empty_line(c, q, at_ls) matches Some(e) ==> q <= e && crlf_at(c, e),
    decreases c.len() - q,
{
    if at_ls && crlf_at(c, q) {
    } else if crlf_at(c, q) {
        lemma_find_empty_line_some(c, q + 2, true);
    } else if 0 <= q && q < c.len() {
        lemma_find_empty_line_some(c, q + 1, false);
    }
}

/// What parsing the header block from line start `q` yields: one header
/// per line until the first empty line.  `base` is the segment's byte
/// offset in the whole input and `idx` its part index; errors carry both.
pub open spec fn parse_headers_from(c: Seq<u8>, q: int, base: int, idx: int) -> Result<
    Seq<HeaderModel>,
    ParseError,
>
    decreases c.len() - q,
{
    if q < 0 || q > c.len() {
        Ok(seq![])
    } else if crlf_at(c, q) {
        Ok(seq![])
    } else {
        match find_crlf(c, q) {
            None => Ok(seq![]),
            Some(j) => if q < j && j + 2 <= c.len() {
                match parse_header_line(c.subrange(q, j), base + q, idx) {
                    Ok(h) => match parse_headers_from(c, j + 2, base, idx) {
                        Ok(hs) => Ok(seq![h] + hs),
                        Err(e) => Err(e),
                    },
                    Err(e) => Err(e),
                }
            } else {
                Ok(seq![])
            },
        }
    }
}

/// What parsing one segment yields.  With no empty line anywhere, the
/// whole segment is a body with no headers; otherwise the lines before
/// the first empty line are the header block and everything after it is
/// the body, byte for byte.
pub open spec fn parse_part(c: Seq<u8>, base: int, idx: int) -> Result<PartModel, ParseError> {
    match find_empty_line(c, 0, true) {
        None => Ok(PartModel { headers: seq![], body: c }),
        Some(e) => match parse_headers_from(c, 0, base, idx) {
            Ok(hs) => Ok(PartModel { headers: hs, body: c.subrange(e + 2, c.len() as int) }),
            Err(err) => Err(err),
        },
    }
}

/// `Ok` results seen through the part model.
pub open spec fn part_result_view(r: Result<Part, ParseError>) -> Result<PartModel, ParseError> {
    match r {
        Ok(p) => Ok(p@),
        Err(e) => Err(e),
    }
}

/// A parsed prefix of the header block, prepended to the rest's outcome.
pub open spec fn headers_prepend(
    pre: Seq<HeaderModel>,
    r: Result<Seq<HeaderModel>, ParseError>,
) -> Result<Seq<HeaderModel>, ParseError> {
    match r {
        Ok(hs) => Ok(pre + hs),
        Err(e) => Err(e),
    }
}

/// Find the first empty line of the segment.
fn scan_empty_line(c: &[u8]) -> (r: Option<usize>)
    ensures
        match r {
            Some(e) => find_empty_line(c@, 0, true) == Some(e as int),
            None => find_empty_line(c@, 0, true) is None,
        },
{
    let n = c.len();
    let mut q: usize = 0;
    loop
        invariant
            q <= n,
            n == c@.len(),
            find_empty_line(c@, 0, true) == find_empty_line(c@, q as int, true),
        decreases n - q,
    {
        if n - q >= 2 && c[q] == CR && c[q + 1] == LF {
            return Some(q);
        }
        assert(!crlf_at(c@, q as int));
        proof {
            lemma_find_empty_line_skip(c@, q as int, true);
            lemma_find_crlf(c@, q as int);
        }
        match scan_crlf(c, q) {
            Some(j) => {
                q = j + 2;
            },
            None => {
                return None;
            },
        }
    }
}

/// Parse one segment — a part's raw bytes between two delimiter lines —
/// into its header block and body.  `base` is the segment's byte offset
/// in the whole input and `part_index` its position among the parts.
pub fn parse_segment(c: &[u8], base: usize, part_index: usize) -> (r: Result<Part, ParseError>)
    requires
        base + c@.len() <= usize::MAX,
    ensures
        part_result_view(r) == parse_part(c@, base as int, part_index as int),
{
    let n = c.len();
    let ghost cv = c@;
    let ghost bi = base as int;
    let ghost idx = part_index as int;
    match scan_empty_line(c) {
        None => {
            let p = Part { headers: Vec::new(), body: slice_to_vec(c) };
            proof {
                assert(p@.headers =~= Seq::<HeaderModel>::empty());
            }
            Ok(p)
        },
        Some(e) => {
            proof {
                lemma_find_empty_line_some(cv, 0, true);
            }
            let mut headers: Vec<Header> = Vec::new();
            let mut q: usize = 0;
            loop
                invariant
                    q <= n,
                    n == cv.len(),
                    c@ == cv,
                    base + n <= usize::MAX,
                    bi == base as int,
                    idx == part_index as int,
                    find_empty_line(cv, 0, true) == Some(e as int),
                    crlf_at(cv, e as int),
                    e + 2 <= n,
                    headers_prepend(
                        headers_view(headers@),
                        parse_headers_from(cv, q as int, bi, idx),
                    ) == parse_headers_from(cv, 0, bi, idx),
                ensures
                    find_empty_line(cv, 0, true) == Some(e as int),
                    e + 2 <= n,
                    c@ == cv,
                    parse_headers_from(cv, 0, bi, idx) == Ok::<Seq<HeaderModel>, ParseError>(
                        headers_view(headers@),
                    ),
                decreases n - q,
            {
                let ghost pre = headers_view(headers@);
                if n - q >= 2 && c[q] == CR && c[q + 1] == LF {
                    assert(parse_headers_from(cv, q as int, bi, idx) == Ok::<
                        Seq<HeaderModel>,
                        ParseError,
                    >(seq![]));
                    assert(pre + seq![] =~= pre);
                    break;
                }
                assert(!crlf_at(cv, q as int));
                proof {
                    lemma_find_crlf(cv, q as int);
                }
                match scan_crlf(c, q) {
                    None => {
                        assert(parse_headers_from(cv, q as int, bi, idx) == Ok::<
                            Seq<HeaderModel>,
                            ParseError,
                        >(seq![]));
                        assert(pre + seq![] =~= pre);
                        break;
                    },
                    Some(j) => {
                        let line = slice_subrange(c, q, j);
                        match parse_header(line, base + q, part_index) {
                            Ok(h) => {
                                let ghost hm = h@;
                                headers.push(h);
                                proof {
                                    assert(headers_view(headers@) =~= pre.push(hm));
                                    assert forall|hs: Seq<HeaderModel>|
                                        pre.push(hm) + hs =~= pre + (seq![hm] + hs) by {}
                                }
                                q = j + 2;
                            },
                            Err(err) => {
                                assert(parse_headers_from(cv, q as int, bi, idx) == Err::<
                                    Seq<HeaderModel>,
                                    ParseError,
                                >(err));
                                return Err(err);
                            },
                        }
                    },
                }
            }
            let body = slice_to_vec(slice_subrange(c, e + 2, n));
            let p = Part { headers, body };
            proof {
                assert(p@ =~= PartModel {
                    headers: headers_view(p.headers@),
                    body: cv.subrange(e + 2, cv.len() as int),
                });
            }
            Ok(p)
        },
    }
}

} // verus!
