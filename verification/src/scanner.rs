//! The boundary scanner: a single left-to-right scan that splits the
//! buffer into one extent per part along delimiter lines.  A delimiter
//! counts only where it begins a line — a boundary-like byte sequence in
//! the middle of a binary body is never a delimiter.

use vstd::prelude::*;

use crate::bytes::{
    bytes_match, crlf_at, find_crlf, lemma_find_crlf, matches_at, scan_crlf, CR, DASH, LF,
};
use crate::model::ParseError;

verus! {

/// "--" followed by the boundary occurs at index `i`.
pub open spec fn delim_at(b: Seq<u8>, t: Seq<u8>, i: int) -> bool {
    &&& 0 <= i
    &&& i + 2 + t.len() <= b.len()
    &&& b[i] == DASH
    &&& b[i + 1] == DASH
    &&& matches_at(b, i + 2, t)
}

/// An opening delimiter line: "--", the boundary, then a line terminator.
pub open spec fn open_delim_at(b: Seq<u8>, t: Seq<u8>, i: int) -> bool {
    delim_at(b, t, i) && crlf_at(b, i + 2 + t.len())
}

/// A closing delimiter: "--", the boundary, then "--".  Whatever follows
/// the trailing "--" is discarded.
pub open spec fn close_delim_at(b: Seq<u8>, t: Seq<u8>, i: int) -> bool {
    &&& delim_at(b, t, i)
    &&& i + 2 + t.len() + 2 <= b.len()
    &&& b[i + 2 + t.len()] == DASH
    &&& b[i + 2 + t.len() + 1] == DASH
}

/// "--" and the boundary matched at `i`, but the buffer ends before the
/// two bytes that decide between the opening and the closing form.
pub open spec fn truncated_delim_at(b: Seq<u8>, t: Seq<u8>, i: int) -> bool {
    delim_at(b, t, i) && i + 2 + t.len() + 2 > b.len()
}

/// The extent a delimiter line at `p` closes for a part opened at
/// `start`: the bytes up to the terminator that precedes the delimiter.
/// A delimiter standing right where the part opened closes an empty
/// extent.
pub open spec fn close_extent(start: int, p: int) -> (int, int) {
    if p - 2 >= start {
        (start, p - 2)
    } else {
        (start, start)
    }
}

/// The scan, from index `p`.  `at_ls` says whether `p` begins a line;
/// delimiters are recognized only there.  `cur` is the start of the
/// currently open extent, `acc` the extents already closed.  A closing
/// delimiter ends the scan; a buffer that runs out first is malformed —
/// with no delimiter found at all the boundary never occurred, and with
/// one found the input ended too early.
pub open spec fn scan_from(
    b: Seq<u8>,
    t: Seq<u8>,
    p: int,
    at_ls: bool,
    cur: Option<int>,
    acc: Seq<(int, int)>,
) -> Result<Seq<(int, int)>, ParseError>
    decreases b.len() - p,
{
    if at_ls && close_delim_at(b, t, p) {
        match cur {
            Some(s) => Ok(acc.push(close_extent(s, p))),
            None => Ok(acc),
        }
    } else if at_ls && open_delim_at(b, t, p) {
        let ns = p + 2 + t.len() + 2;
        match cur {
            Some(s) => scan_from(b, t, ns, true, Some(ns), acc.push(close_extent(s, p))),
            None => scan_from(b, t, ns, true, Some(ns), acc),
        }
    } else if at_ls && truncated_delim_at(b, t, p) {
        Err(ParseError::UnexpectedEndOfInput { offset: p as usize })
    } else if crlf_at(b, p) {
        scan_from(b, t, p + 2, true, cur, acc)
    } else if 0 <= p && p < b.len() {
        scan_from(b, t, p + 1, false, cur, acc)
    } else {
        match cur {
            Some(_) => Err(ParseError::UnexpectedEndOfInput { offset: b.len() as usize }),
            None => Err(ParseError::MalformedInput { offset: b.len() as usize }),
        }
    }
}

/// The whole buffer's extents: the scan started at the buffer's first
/// line.
pub open spec fn boundary_scan(b: Seq<u8>, t: Seq<u8>) -> Result<Seq<(int, int)>, ParseError> {
    scan_from(b, t, 0, true, None, seq![])
}

/// Every extent lies inside the buffer, with its start before its end.
pub open spec fn extents_bounded(v: Seq<(usize, usize)>, n: int) -> bool {
    forall|i: int| 0 <= i < v.len() ==> (#[trigger] v[i]).0 <= v[i].1 <= n
}

/// Extents held as machine integers, seen as the scan's mathematical
/// extents.
pub open spec fn extents_view(v: Seq<(usize, usize)>) -> Seq<(int, int)> {
    v.map_values(|pr: (usize, usize)| (pr.0 as int, pr.1 as int))
}

/// Away from a delimiter line the scan just skips to the next line
/// start: it agrees with itself restarted after the line's terminator.
pub proof fn lemma_scan_line_advance(
    b: Seq<u8>,
    t: Seq<u8>,
    p: int,
    at_ls: bool,
    cur: Option<int>,
    acc: Seq<(int, int)>,
)
    requires
        0 <= p <= b.len(),
        at_ls ==> !close_delim_at(b, t, p) && !open_delim_at(b, t, p) && !truncated_delim_at(
            b,
            t,
            p,
        ),
    ensures
        scan_from(b, t, p, at_ls, cur, acc) == match find_crlf(b, p) {
            Some(j) => scan_from(b, t, j + 2, true, cur, acc),
            None => match cur {
                Some(s) => Err::<Seq<(int, int)>, ParseError>(
                    ParseError::UnexpectedEndOfInput { offset: b.len() as usize },
                ),
                None => Err::<Seq<(int, int)>, ParseError>(
                    ParseError::MalformedInput { offset: b.len() as usize },
                ),
            },
        },
    decreases b.len() - p,
{
    if crlf_at(b, p) {
    } else if p < b.len() {
        lemma_scan_line_advance(b, t, p + 1, false, cur, acc);
    }
}

/// Split the buffer into one extent per part along the boundary's
/// delimiter lines.
pub(crate) fn scan_extents(b: &[u8], t: &[u8]) -> (r: Result<Vec<(usize, usize)>, ParseError>)
    ensures
        match r {
            Ok(v) => boundary_scan(b@, t@) == Ok::<Seq<(int, int)>, ParseError>(extents_view(v@))
                && extents_bounded(v@, b@.len() as int),
            Err(e) => boundary_scan(b@, t@) == Err::<Seq<(int, int)>, ParseError>(e),
        },
{
    let n = b.len();
    let m = t.len();
    let mut p: usize = 0;
    let mut cur: Option<usize> = None;
    let mut acc: Vec<(usize, usize)> = Vec::new();
    proof {
        assert(extents_view(acc@) =~= Seq::<(int, int)>::empty());
    }
    loop
        invariant
            p <= n,
            n == b@.len(),
            m == t@.len(),
            boundary_scan(b@, t@) == scan_from(
                b@,
                t@,
                p as int,
                true,
                match cur {
                    Some(s) => Some(s as int),
                    None => None::<int>,
                },
                extents_view(acc@),
            ),
            match cur {
                Some(s) => s <= p,
                None => true,
            },
            extents_bounded(acc@, n as int),
        decreases n - p,
    {
        let ghost pv = p as int;
        let ghost curv: Option<int> = match cur {
            Some(s) => Some(s as int),
            None => None::<int>,
        };
        let ghost accv = extents_view(acc@);
        let is_delim = n - p >= 2 && b[p] == DASH && b[p + 1] == DASH && m <= n - p - 2
            && bytes_match(b, p + 2, t);
        proof {
            assert(is_delim == delim_at(b@, t@, pv));
        }
        if is_delim {
            let j = p + 2 + m;
            if n - j >= 2 {
                if b[j] == DASH && b[j + 1] == DASH {
                    assert(close_delim_at(b@, t@, pv));
                    match cur {
                        Some(s) => {
                            let end = if p >= s + 2 {
                                p - 2
                            } else {
                                s
                            };
                            acc.push((s, end));
                            proof {
                                assert(extents_view(acc@) =~= accv.push(close_extent(s as int, pv)));
                                assert(extents_bounded(acc@, n as int));
                            }
                            return Ok(acc);
                        },
                        None => {
                            return Ok(acc);
                        },
                    }
                } else if b[j] == CR && b[j + 1] == LF {
                    assert(open_delim_at(b@, t@, pv));
                    assert(!close_delim_at(b@, t@, pv));
                    let ns = j + 2;
                    match cur {
                        Some(s) => {
                            let end = if p >= s + 2 {
                                p - 2
                            } else {
                                s
                            };
                            acc.push((s, end));
                            proof {
                                assert(extents_view(acc@) =~= accv.push(close_extent(s as int, pv)));
                                assert(extents_bounded(acc@, n as int));
                            }
                        },
                        None => {},
                    }
                    cur = Some(ns);
                    p = ns;
                } else {
                    assert(!close_delim_at(b@, t@, pv));
                    assert(!open_delim_at(b@, t@, pv));
                    assert(!truncated_delim_at(b@, t@, pv));
                    proof {
                        lemma_scan_line_advance(b@, t@, pv, true, curv, accv);
                        lemma_find_crlf(b@, pv);
                    }
                    match scan_crlf(b, p) {
                        Some(j2) => {
                            p = j2 + 2;
                        },
                        None => {
                            return Err(
                                match cur {
                                    Some(_) => ParseError::UnexpectedEndOfInput { offset: n },
                                    None => ParseError::MalformedInput { offset: n },
                                },
                            );
                        },
                    }
                }
            } else {
                assert(truncated_delim_at(b@, t@, pv));
                assert(!close_delim_at(b@, t@, pv));
                assert(!open_delim_at(b@, t@, pv));
                return Err(ParseError::UnexpectedEndOfInput { offset: p });
            }
        } else {
            assert(!close_delim_at(b@, t@, pv));
            assert(!open_delim_at(b@, t@, pv));
            assert(!truncated_delim_at(b@, t@, pv));
            proof {
                lemma_scan_line_advance(b@, t@, pv, true, curv, accv);
                lemma_find_crlf(b@, pv);
            }
            match scan_crlf(b, p) {
                Some(j2) => {
                    p = j2 + 2;
                },
                None => {
                    return Err(
                        match cur {
                            Some(_) => ParseError::UnexpectedEndOfInput { offset: n },
                            None => ParseError::MalformedInput { offset: n },
                        },
                    );
                },
            }
        }
    }
}

} // verus!
