//! Byte-level matching primitives shared by the boundary scanner and the
//! segment parser: exact pattern matches and CRLF line-terminator search.

use vstd::prelude::*;

verus! {

/// Carriage return, the first byte of a line terminator.
pub const CR: u8 = 13;

/// Line feed, the second byte of a line terminator.
pub const LF: u8 = 10;

/// ASCII hyphen; two of them prefix every delimiter line.
pub const DASH: u8 = 45;

/// ASCII colon, the first byte of the header name/value separator.
pub const COLON: u8 = 58;

/// ASCII space, the second byte of the header name/value separator.
pub const SPACE: u8 = 32;

/// `pat` occurs in `b` starting exactly at index `i`.
pub open spec fn matches_at(b: Seq<u8>, i: int, pat: Seq<u8>) -> bool {
    &&& 0 <= i
    &&& i + pat.len() <= b.len()
    &&& forall|k: int| 0 <= k < pat.len() ==> b[i + k] == pat[k]
}

/// A CRLF line terminator starts at index `i`.
pub open spec fn crlf_at(b: Seq<u8>, i: int) -> bool {
    &&& 0 <= i
    &&& i + 2 <= b.len()
    &&& b[i] == CR
    &&& b[i + 1] == LF
}

/// Index `i` begins a line: it is the start of the buffer or stands
/// immediately after a line terminator.
pub open spec fn line_start(b: Seq<u8>, i: int) -> bool {
    i == 0 || crlf_at(b, i - 2)
}

/// The least index at or after `from` where a CRLF terminator starts.
pub open spec fn find_crlf(b: Seq<u8>, from: int) -> Option<int>
    decreases b.len() - from,
{
    if from < 0 || from + 2 > b.len() {
        None
    } else if crlf_at(b, from) {
        Some(from)
    } else {
        find_crlf(b, from + 1)
    }
}

/// What `find_crlf` returns: the first line terminator at or after `from`,
/// or nothing when no terminator follows.
pub proof fn lemma_find_crlf(b: Seq<u8>, from: int)
    requires
        from >= 0,
    ensures
        match find_crlf(b, from) {
            Some(j) => from <= j && j + 2 <= b.len() && crlf_at(b, j) && forall|r: int|
                from <= r < j ==> !crlf_at(b, r),
            None => forall|r: int| from <= r ==> !crlf_at(b, r),
        },
    decreases b.len() - from,
{
    if from + 2 > b.len() {
        assert forall|r: int| from <= r implies !crlf_at(b, r) by {}
    } else if crlf_at(b, from) {
    } else {
        lemma_find_crlf(b, from + 1);
    }
}

/// A terminator at `e` bounds the search: `find_crlf` from any index at or
/// before `e` succeeds and stops no later than `e`.
pub proof fn lemma_find_crlf_bounded(b: Seq<u8>, from: int, e: int)
    requires
        0 <= from <= e,
        crlf_at(b, e),
    ensures
        find_crlf(b, from) is Some,
        from <= find_crlf(b, from)->0 <= e,
{
    lemma_find_crlf(b, from);
    if find_crlf(b, from) is None {
        assert(!crlf_at(b, e));
    } else {
        let j = find_crlf(b, from)->0;
        if j > e {
            assert(!crlf_at(b, e));
        }
    }
}

/// A terminator at `j` with none before it pins the search down.
pub proof fn lemma_find_crlf_exact(b: Seq<u8>, from: int, j: int)
    requires
        0 <= from <= j,
        crlf_at(b, j),
        forall|r: int| from <= r < j ==> !crlf_at(b, r),
    ensures
        find_crlf(b, from) == Some(j),
{
    lemma_find_crlf(b, from);
    lemma_find_crlf_bounded(b, from, j);
    let j2 = find_crlf(b, from)->0;
    if j2 < j {
        assert(!crlf_at(b, j2));
    }
}

/// Find the first CRLF line terminator at or after `from`.
pub(crate) fn scan_crlf(b: &[u8], from: usize) -> (r: Option<usize>)
    requires
        from <= b@.len(),
    ensures
        match r {
            Some(j) => find_crlf(b@, from as int) == Some(j as int),
            None => find_crlf(b@, from as int) is None,
        },
{
    let n = b.len();
    let mut i: usize = from;
    loop
        invariant
            from <= i <= n,
            n == b@.len(),
            find_crlf(b@, from as int) == find_crlf(b@, i as int),
        decreases n - i,
    {
        if n - i < 2 {
            return None;
        }
        if b[i] == CR && b[i + 1] == LF {
            return Some(i);
        }
        assert(!crlf_at(b@, i as int));
        i = i + 1;
    }
}

/// Decide whether `pat` occurs in `b` starting exactly at index `i`.
pub(crate) fn bytes_match(b: &[u8], i: usize, pat: &[u8]) -> (r: bool)
    requires
        i <= b@.len(),
    ensures
        r == matches_at(b@, i as int, pat@),
{
    let m = pat.len();
    let n = b.len();
    if n - i < m {
        return false;
    }
    let mut k: usize = 0;
    while k < m
        invariant
            0 <= k <= m,
            m == pat@.len(),
            n == b@.len(),
            i + m <= n,
            forall|q: int| 0 <= q < k ==> b@[i + q] == pat@[q],
        decreases m - k,
    {
        if b[i + k] != pat[k] {
            return false;
        }
        k = k + 1;
    }
    true
}

} // verus!
