//! The parser's laws: a spec-level encoder for multipart messages, the
//! round-trip theorem that parsing an encoded message recovers its parts
//! exactly, and the guaranteed failures on malformed input.

use vstd::prelude::*;
use vstd::utf8::{decode_utf8, encode_utf8, encode_utf8_decode_utf8, encode_utf8_valid_utf8};

use crate::bytes::{
    crlf_at, find_crlf, lemma_find_crlf, lemma_find_crlf_exact, line_start, matches_at, COLON, CR,
    DASH, LF, SPACE,
};
use crate::codec::{
    find_colon_space, lemma_find_colon_space, lemma_find_colon_space_exact, parse_header_line,
};
use crate::model::{HeaderModel, ParseError, PartModel};
use crate::scanner::{
    boundary_scan, close_delim_at, close_extent, delim_at, open_delim_at, scan_from,
};
use crate::segment::{find_empty_line, parse_headers_from, parse_part};
use crate::{parse_parts_from, spec_parse};

verus! {

/// One encoded header line: name, "colon space", value, terminator.
pub open spec fn encode_header(h: HeaderModel) -> Seq<u8> {
    encode_utf8(h.name) + seq![COLON, SPACE] + encode_utf8(h.value) + seq![CR, LF]
}

/// An encoded header block: the headers' lines in order.
pub open spec fn encode_headers(hs: Seq<HeaderModel>) -> Seq<u8>
    decreases hs.len(),
{
    if hs.len() == 0 {
        seq![]
    } else {
        encode_header(hs[0]) + encode_headers(hs.drop_first())
    }
}

/// One encoded part: its header block, the empty line ending it, and its
/// body.
pub open spec fn encode_part(p: PartModel) -> Seq<u8> {
    encode_headers(p.headers) + seq![CR, LF] + p.body
}

/// An opening delimiter line for the boundary.
pub open spec fn delim_line(t: Seq<u8>) -> Seq<u8> {
    seq![DASH, DASH] + t + seq![CR, LF]
}

/// The closing delimiter for the boundary.
pub open spec fn closing_delim(t: Seq<u8>) -> Seq<u8> {
    seq![DASH, DASH] + t + seq![DASH, DASH]
}

/// The encoded parts, each opened by a delimiter line and followed by the
/// terminator that precedes the next delimiter.
pub open spec fn encode_parts(parts: Seq<PartModel>, t: Seq<u8>) -> Seq<u8>
    decreases parts.len(),
{
    if parts.len() == 0 {
        seq![]
    } else {
        delim_line(t) + encode_part(parts[0]) + seq![CR, LF] + encode_parts(parts.drop_first(), t)
    }
}

/// A whole encoded multipart message.
pub open spec fn encode_multipart(parts: Seq<PartModel>, t: Seq<u8>) -> Seq<u8> {
    encode_parts(parts, t) + closing_delim(t)
}

/// A boundary an encoder may choose: non-empty and free of the line
/// terminator's bytes.
pub open spec fn boundary_ok(t: Seq<u8>) -> bool {
    t.len() >= 1 && forall|k: int| 0 <= k < t.len() ==> t[k] != CR && t[k] != LF
}

/// A header an encoder can represent faithfully: name and value encode
/// free of line-terminator bytes, and the name never contains the
/// separator pattern, so the decoder splits exactly where the encoder
/// joined.
pub open spec fn header_encodable(h: HeaderModel) -> bool {
    let n = encode_utf8(h.name);
    let v = encode_utf8(h.value);
    &&& forall|k: int| 0 <= k < n.len() ==> n[k] != CR && n[k] != LF
    &&& forall|k: int| 0 <= k < v.len() ==> v[k] != CR && v[k] != LF
    &&& forall|k: int| 0 <= k < n.len() - 1 ==> !(#[trigger] n[k] == COLON && n[k + 1] == SPACE)
}

/// A part the boundary was chosen for: its headers are encodable and no
/// line of its encoding begins with a delimiter.  Boundary-like bytes
/// away from a line start are allowed — the scanner must pass them
/// through.
pub open spec fn part_encodable(p: PartModel, t: Seq<u8>) -> bool {
    let c = encode_part(p);
    &&& forall|i: int| 0 <= i < p.headers.len() ==> header_encodable(#[trigger] p.headers[i])
    &&& forall|x: int| 0 <= x < c.len() && line_start(c, x) ==> !delim_at(c, t, x)
}

/// Every part of the message is encodable under the boundary.
pub open spec fn parts_encodable(parts: Seq<PartModel>, t: Seq<u8>) -> bool {
    forall|i: int| 0 <= i < parts.len() ==> part_encodable(#[trigger] parts[i], t)
}

/// A header line that nowhere holds the "colon, space" separator fails
/// as a malformed header, and the error's offset is the line's own.
pub proof fn lemma_missing_separator_malformed(line: Seq<u8>, off: int, idx: int)
    requires
        forall|r: int| 0 <= r < line.len() - 1 ==> !(#[trigger] line[r] == COLON && line[r + 1]
            == SPACE),
    ensures
        parse_header_line(line, off, idx) == Err::<HeaderModel, ParseError>(
            ParseError::MalformedHeader { offset: off as usize, part_index: idx as usize },
        ),
{
    lemma_find_colon_space(line, 0);
    if find_colon_space(line, 0) is Some {
        let j = find_colon_space(line, 0)->0;
        assert(!(line[j] == COLON && line[j + 1] == SPACE));
    }
}

/// Through the whole segment parse: when a segment has a header block
/// and its first line lacks the separator, the segment fails with
/// `MalformedHeader` whose offset is that line's own first byte.
pub proof fn lemma_malformed_first_header_line(c: Seq<u8>, base: int, idx: int)
    requires
        find_empty_line(c, 0, true) is Some,
        !crlf_at(c, 0),
        find_crlf(c, 0) is Some,
        forall|r: int|
            0 <= r < find_crlf(c, 0)->0 - 1 ==> !(#[trigger] c[r] == COLON && c[r + 1] == SPACE),
    ensures
        parse_part(c, base, idx) == Err::<PartModel, ParseError>(
            ParseError::MalformedHeader { offset: base as usize, part_index: idx as usize },
        ),
{
    let j = find_crlf(c, 0)->0;
    lemma_find_crlf(c, 0);
    assert(crlf_at(c, j));
    assert(0 < j);
    let line = c.subrange(0, j);
    assert forall|r: int|
        0 <= r < line.len() - 1 implies !(#[trigger] line[r] == COLON && line[r + 1]
        == SPACE) by {
        assert(line[r] == c[r] && line[r + 1] == c[r + 1]);
    }
    lemma_missing_separator_malformed(line, base, idx);
}

/// The scan of a buffer in which the boundary token never occurs.
proof fn lemma_scan_no_match(
    b: Seq<u8>,
    t: Seq<u8>,
    p: int,
    at_ls: bool,
    cur: Option<int>,
    acc: Seq<(int, int)>,
)
    requires
        0 <= p <= b.len(),
        forall|i: int| !matches_at(b, i, t),
    ensures
        scan_from(b, t, p, at_ls, cur, acc) == match cur {
            Some(s) => Err::<Seq<(int, int)>, ParseError>(
                ParseError::UnexpectedEndOfInput { offset: b.len() as usize },
            ),
            None => Err::<Seq<(int, int)>, ParseError>(
                ParseError::MalformedInput { offset: b.len() as usize },
            ),
        },
    decreases b.len() - p,
{
    assert(!matches_at(b, p + 2, t));
    if crlf_at(b, p) {
        lemma_scan_no_match(b, t, p + 2, true, cur, acc);
    } else if p < b.len() {
        lemma_scan_no_match(b, t, p + 1, false, cur, acc);
    }
}

/// A boundary token absent from the buffer fails the parse with
/// `MalformedInput`: there is no delimiter line to anchor any part.
pub proof fn lemma_absent_boundary_malformed(b: Seq<u8>, t: Seq<u8>)
    requires
        forall|i: int| !matches_at(b, i, t),
    ensures
        spec_parse(b, t) == Err::<Seq<PartModel>, ParseError>(
            ParseError::MalformedInput { offset: b.len() as usize },
        ),
{
    lemma_scan_no_match(b, t, 0, true, None, seq![]);
}

/// An opening delimiter line immediately followed by the closing
/// delimiter yields one part with no headers and an empty body — not an
/// error.
pub proof fn lemma_empty_part(t: Seq<u8>)
    requires
        forall|k: int| 0 <= k < t.len() ==> t[k] != CR && t[k] != LF,
    ensures
        spec_parse(delim_line(t) + seq![CR, LF] + closing_delim(t), t) == Ok::<
            Seq<PartModel>,
            ParseError,
        >(seq![PartModel { headers: seq![], body: seq![] }]),
{
    let b = delim_line(t) + seq![CR, LF] + closing_delim(t);
    let m = t.len() as int;
    let ns = 4 + m;
    assert(b.len() == 10 + 2 * m);
    assert forall|k: int| 0 <= k < m implies b[2 + k] == t[k] by {}
    assert(b[0] == DASH && b[1] == DASH);
    assert(crlf_at(b, 2 + m));
    assert(open_delim_at(b, t, 0));
    assert(b[2 + m] == CR);
    assert(!close_delim_at(b, t, 0));
    assert(!delim_at(b, t, ns));
    assert(crlf_at(b, ns));
    assert forall|k: int| 0 <= k < m implies b[ns + 4 + k] == t[k] by {}
    assert(b[ns + 2] == DASH && b[ns + 3] == DASH);
    assert(b[ns + 4 + m] == DASH && b[ns + 5 + m] == DASH);
    assert(close_delim_at(b, t, ns + 2));
    assert(close_extent(ns, ns + 2) == (ns, ns));
    assert(scan_from(b, t, 0, true, None, seq![]) == scan_from(
        b,
        t,
        ns,
        true,
        Some(ns),
        seq![],
    ));
    assert(scan_from(b, t, ns, true, Some(ns), seq![]) == scan_from(
        b,
        t,
        ns + 2,
        true,
        Some(ns),
        seq![],
    ));
    let xs = seq![(ns, ns)];
    assert(Seq::<(int, int)>::empty().push((ns, ns)) =~= xs);
    assert(boundary_scan(b, t) == Ok::<Seq<(int, int)>, ParseError>(xs));
    let c = b.subrange(ns, ns);
    assert(c =~= Seq::<u8>::empty());
    assert(find_empty_line(c, 0, true) is None);
    let pm = PartModel { headers: seq![], body: seq![] };
    assert(parse_part(c, ns, 0) == Ok::<PartModel, ParseError>(
        PartModel { headers: seq![], body: c },
    ));
    assert(PartModel { headers: seq![], body: c } =~= pm);
    assert(parse_parts_from(b, xs, 1) == Ok::<Seq<PartModel>, ParseError>(seq![]));
    assert(seq![pm] + seq![] =~= seq![pm]);
}

/// The bytes of `b` from `p` on are exactly `s`.
pub open spec fn suffix_is(b: Seq<u8>, p: int, s: Seq<u8>) -> bool {
    &&& 0 <= p
    &&& p + s.len() == b.len()
    &&& forall|k: int| 0 <= k < s.len() ==> #[trigger] b[p + k] == s[k]
}

/// With no delimiter beginning any line up to the terminator at `e`, the
/// scan passes the whole region and resumes right after that terminator.
proof fn lemma_scan_to(
    b: Seq<u8>,
    t: Seq<u8>,
    q: int,
    at_ls: bool,
    e: int,
    cur: Option<int>,
    acc: Seq<(int, int)>,
)
    requires
        0 <= q <= e,
        crlf_at(b, e),
        forall|r: int| q <= r <= e && #[trigger] line_start(b, r) ==> !delim_at(b, t, r),
        at_ls ==> line_start(b, q),
    ensures
        scan_from(b, t, q, at_ls, cur, acc) == scan_from(b, t, e + 2, true, cur, acc),
    decreases e - q,
{
    if at_ls {
        assert(!delim_at(b, t, q));
    }
    if q == e {
    } else {
        if crlf_at(b, q) {
            assert(q + 1 != e) by {
                if q + 1 == e {
                    assert(b[e] == CR && b[q + 1] == LF);
                }
            }
            assert(line_start(b, q + 2));
            lemma_scan_to(b, t, q + 2, true, e, cur, acc);
        } else {
            lemma_scan_to(b, t, q + 1, false, e, cur, acc);
        }
    }
}

/// Inside an encoded part's extent no line begins with a delimiter, even
/// where boundary-like bytes stand mid-line: a match crossing the
/// extent's end would need a terminator byte inside the boundary.
proof fn lemma_content_no_delim(b: Seq<u8>, t: Seq<u8>, c: Seq<u8>, s: int)
    requires
        boundary_ok(t),
        1 <= s,
        s + c.len() + 2 <= b.len(),
        forall|k: int| 0 <= k < c.len() ==> #[trigger] b[s + k] == c[k],
        b[s - 1] == LF,
        b[s + c.len()] == CR,
        b[s + c.len() + 1] == LF,
        forall|x: int| 0 <= x < c.len() && #[trigger] line_start(c, x) ==> !delim_at(c, t, x),
    ensures
        forall|r: int| s <= r <= s + c.len() && #[trigger] line_start(b, r) ==> !delim_at(b, t, r),
{
    let e = s + c.len();
    assert forall|r: int| s <= r <= e && line_start(b, r) implies !delim_at(b, t, r) by {
        if r == e {
            assert(b[e] == CR);
        } else if delim_at(b, t, r) {
            if r == s {
                assert(line_start(c, 0));
            } else if r == s + 1 {
                assert(crlf_at(b, r - 2));
                assert(false);
            } else {
                assert(crlf_at(b, r - 2));
                assert(b[s + (r - s - 2)] == c[r - s - 2]);
                assert(b[s + (r - s - 1)] == c[r - s - 1]);
                assert(c[r - s - 2] == CR && c[r - s - 1] == LF);
                assert(line_start(c, r - s));
            }
            assert(matches_at(b, r + 2, t));
            if r + 2 + t.len() <= e {
                assert(delim_at(c, t, r - s)) by {
                    assert(b[s + (r - s)] == c[r - s]);
                    assert(b[s + (r - s + 1)] == c[r - s + 1]);
                    assert(c[r - s] == b[r] && c[r - s + 1] == b[r + 1]);
                    assert forall|k: int| 0 <= k < t.len() implies c[r - s + 2 + k] == t[k] by {
                        assert(b[r + 2 + k] == t[k]);
                        assert(b[s + (r - s + 2 + k)] == c[r - s + 2 + k]);
                    }
                }
                assert(false);
            } else if r + 2 <= e {
                let k = e - (r + 2);
                assert(0 <= k < t.len());
                assert(b[r + 2 + k] == t[k]);
                assert(t[k] == CR);
                assert(false);
            } else {
                assert(r == e - 1);
                assert(b[r + 2 + 0] == t[0]);
                assert(t[0] == LF);
                assert(false);
            }
        }
    }
}

/// Searching for the empty line skips a run of bytes with no terminator
/// in it, and resumes after the terminator that ends the run.
proof fn lemma_find_empty_line_run(c: Seq<u8>, q: int, at_ls: bool, j: int)
    requires
        0 <= q <= j,
        crlf_at(c, j),
        forall|r: int| q <= r < j ==> !#[trigger] crlf_at(c, r),
        at_ls ==> q < j,
    ensures
        find_empty_line(c, q, at_ls) == find_empty_line(c, j + 2, true),
    decreases j - q,
{
    if q == j {
    } else {
        assert(!crlf_at(c, q));
        lemma_find_empty_line_run(c, q + 1, false, j);
    }
}

/// One encoded header line parses back to its header.
proof fn lemma_parse_header_line_encoded(h: HeaderModel, off: int, idx: int)
    requires
        header_encodable(h),
    ensures
        parse_header_line(
            encode_utf8(h.name) + seq![COLON, SPACE] + encode_utf8(h.value),
            off,
            idx,
        ) == Ok::<HeaderModel, ParseError>(h),
{
    let n = encode_utf8(h.name);
    let v = encode_utf8(h.value);
    let line = n + seq![COLON, SPACE] + v;
    let nl = n.len() as int;
    assert(line[nl] == COLON && line[nl + 1] == SPACE);
    assert forall|r: int| 0 <= r < nl implies !(#[trigger] line[r] == COLON && line[r + 1]
        == SPACE) by {
        if r < nl - 1 {
            assert(line[r] == n[r] && line[r + 1] == n[r + 1]);
        } else {
            assert(line[r + 1] == COLON);
        }
    }
    lemma_find_colon_space_exact(line, 0, nl);
    assert(line.subrange(0, nl) =~= n);
    assert(line.subrange(nl + 2, line.len() as int) =~= v);
    encode_utf8_valid_utf8(h.name);
    encode_utf8_valid_utf8(h.value);
    encode_utf8_decode_utf8(h.name);
    encode_utf8_decode_utf8(h.value);
    assert(HeaderModel { name: decode_utf8(n), value: decode_utf8(v) } =~= h);
}

/// An encoded header block parses back to its headers, and the search
/// for the empty line stops exactly at the block's end.
proof fn lemma_parse_encoded_headers(c: Seq<u8>, hs: Seq<HeaderModel>, q: int, base: int, idx: int)
    requires
        0 <= q,
        q + encode_headers(hs).len() + 2 <= c.len(),
        forall|k: int|
            0 <= k < encode_headers(hs).len() ==> #[trigger] c[q + k] == encode_headers(hs)[k],
        crlf_at(c, q + encode_headers(hs).len()),
        forall|i: int| 0 <= i < hs.len() ==> header_encodable(#[trigger] hs[i]),
    ensures
        find_empty_line(c, q, true) == Some(q + encode_headers(hs).len()),
        parse_headers_from(c, q, base, idx) == Ok::<Seq<HeaderModel>, ParseError>(hs),
    decreases hs.len(),
{
    let eh = encode_headers(hs);
    if hs.len() == 0 {
        assert(crlf_at(c, q));
        assert(hs =~= Seq::<HeaderModel>::empty());
    } else {
        let h = hs[0];
        let n = encode_utf8(h.name);
        let v = encode_utf8(h.value);
        let lineb = n + seq![COLON, SPACE] + v;
        let hl = encode_header(h);
        let ll = hl.len() as int;
        assert(hl =~= lineb + seq![CR, LF]);
        assert(eh == hl + encode_headers(hs.drop_first()));
        assert(ll == lineb.len() + 2);
        assert(ll >= 4);
        let j = q + ll - 2;
        assert forall|r: int| q <= r < j implies !crlf_at(c, r) by {
            assert(c[q + (r - q)] == eh[r - q]);
            assert(eh[r - q] == hl[r - q]);
            assert(hl[r - q] == lineb[r - q]);
            assert(lineb[r - q] != CR);
        }
        assert(c[q + (ll - 2)] == eh[ll - 2]);
        assert(c[q + (ll - 1)] == eh[ll - 1]);
        assert(eh[ll - 2] == hl[ll - 2] && eh[ll - 1] == hl[ll - 1]);
        assert(crlf_at(c, j));
        assert(!crlf_at(c, q));
        lemma_find_crlf_exact(c, q, j);
        lemma_find_empty_line_run(c, q, true, j);
        assert(c.subrange(q, j) =~= lineb) by {
            assert forall|m: int| 0 <= m < ll - 2 implies c.subrange(q, j)[m] == lineb[m] by {
                assert(c[q + m] == eh[m]);
                assert(eh[m] == hl[m]);
                assert(hl[m] == lineb[m]);
            }
        }
        lemma_parse_header_line_encoded(h, base + q, idx);
        let rest = hs.drop_first();
        let ehr = encode_headers(rest);
        assert forall|k: int| 0 <= k < ehr.len() implies c[(q + ll) + k] == ehr[k] by {
            assert(c[q + (ll + k)] == eh[ll + k]);
            assert(eh[ll + k] == ehr[k]);
        }
        assert(crlf_at(c, (q + ll) + ehr.len()));
        assert forall|i: int| 0 <= i < rest.len() implies header_encodable(#[trigger] rest[i]) by {
            assert(rest[i] == hs[i + 1]);
        }
        lemma_parse_encoded_headers(c, rest, q + ll, base, idx);
        assert(find_empty_line(c, q, true) == Some(q + eh.len()));
        assert(parse_headers_from(c, q, base, idx) == Ok::<Seq<HeaderModel>, ParseError>(
            seq![h] + rest,
        ));
        assert(seq![h] + rest =~= hs);
    }
}

/// An encoded part parses back to the part, whatever its offset and part
/// index.
proof fn lemma_parse_encoded_part(c: Seq<u8>, p: PartModel, base: int, idx: int)
    requires
        c == encode_part(p),
        forall|i: int| 0 <= i < p.headers.len() ==> header_encodable(#[trigger] p.headers[i]),
    ensures
        parse_part(c, base, idx) == Ok::<PartModel, ParseError>(p),
{
    let eh = encode_headers(p.headers);
    let e = eh.len() as int;
    assert forall|k: int| 0 <= k < eh.len() implies c[0 + k] == eh[k] by {}
    assert(c[e] == CR && c[e + 1] == LF);
    assert(crlf_at(c, e));
    lemma_parse_encoded_headers(c, p.headers, 0, base, idx);
    assert(find_empty_line(c, 0, true) == Some(e));
    assert(c.subrange(e + 2, c.len() as int) =~= p.body);
    assert(PartModel {
        headers: p.headers,
        body: c.subrange(e + 2, c.len() as int),
    } =~= p);
}

/// Where each part's extent falls when the message is encoded from `p`:
/// each part opens right after its delimiter line and closes before the
/// terminator that precedes the next delimiter.
pub open spec fn encoded_extents(parts: Seq<PartModel>, t: Seq<u8>, p: int) -> Seq<(int, int)>
    decreases parts.len(),
{
    if parts.len() == 0 {
        seq![]
    } else {
        let s = p + 2 + t.len() + 2;
        let e = s + encode_part(parts[0]).len();
        seq![(s, e)] + encoded_extents(parts.drop_first(), t, e + 2)
    }
}

/// The extent an open part would close at delimiter position `p`.
spec fn cur_extent(cur: Option<int>, p: int) -> Seq<(int, int)> {
    match cur {
        Some(s) => seq![(s, p - 2)],
        None => seq![],
    }
}

/// An extent lies in bounds and holds exactly the part's encoding.
pub open spec fn extent_holds(b: Seq<u8>, x: (int, int), p: PartModel) -> bool {
    &&& 0 <= x.0 <= x.1 <= b.len()
    &&& b.subrange(x.0, x.1) == encode_part(p)
}

/// Scanning an encoded message finds exactly the encoded extents, each
/// holding its part's bytes.
proof fn lemma_scan_encoded(
    b: Seq<u8>,
    t: Seq<u8>,
    parts: Seq<PartModel>,
    p: int,
    cur: Option<int>,
    acc: Seq<(int, int)>,
)
    requires
        boundary_ok(t),
        parts_encodable(parts, t),
        suffix_is(b, p, encode_multipart(parts, t)),
        match cur {
            Some(s) => 0 <= s <= p - 2,
            None => true,
        },
    ensures
        scan_from(b, t, p, true, cur, acc) == Ok::<Seq<(int, int)>, ParseError>(
            acc + cur_extent(cur, p) + encoded_extents(parts, t, p),
        ),
        encoded_extents(parts, t, p).len() == parts.len(),
        forall|i: int|
            0 <= i < parts.len() ==> extent_holds(
                b,
                encoded_extents(parts, t, p)[i],
                #[trigger] parts[i],
            ),
    decreases parts.len(),
{
    let em = encode_multipart(parts, t);
    let tl = t.len() as int;
    if parts.len() == 0 {
        assert(em =~= closing_delim(t));
        assert(b[p + 0] == em[0] && b[p + 1] == em[1]);
        assert forall|k: int| 0 <= k < tl implies b[(p + 2) + k] == t[k] by {
            assert(b[p + (2 + k)] == em[2 + k]);
            assert(em[2 + k] == t[k]);
        }
        assert(b[p + (2 + tl)] == em[2 + tl] && b[p + (3 + tl)] == em[3 + tl]);
        assert(close_delim_at(b, t, p));
        match cur {
            Some(s) => {
                assert(close_extent(s, p) == (s, p - 2));
                assert(acc.push((s, p - 2)) =~= acc + cur_extent(cur, p) + encoded_extents(
                    parts,
                    t,
                    p,
                ));
            },
            None => {
                assert(acc =~= acc + cur_extent(cur, p) + encoded_extents(parts, t, p));
            },
        }
    } else {
        let c = encode_part(parts[0]);
        let rest = parts.drop_first();
        let emr = encode_multipart(rest, t);
        let dl = 4 + tl;
        let s2 = p + dl;
        let e = s2 + c.len();
        assert(part_encodable(parts[0], t));
        assert(em =~= delim_line(t) + c + seq![CR, LF] + emr);
        assert(em.len() == dl + c.len() + 2 + emr.len());
        assert(b[p + 0] == em[0] && b[p + 1] == em[1]);
        assert forall|k: int| 0 <= k < tl implies b[(p + 2) + k] == t[k] by {
            assert(b[p + (2 + k)] == em[2 + k]);
            assert(em[2 + k] == t[k]);
        }
        assert(b[p + (2 + tl)] == em[2 + tl] && b[p + (3 + tl)] == em[3 + tl]);
        assert(em[2 + tl] == CR && em[3 + tl] == LF);
        assert(open_delim_at(b, t, p));
        assert(!close_delim_at(b, t, p));
        let acc2 = match cur {
            Some(s) => acc.push(close_extent(s, p)),
            None => acc,
        };
        assert(scan_from(b, t, p, true, cur, acc) == scan_from(b, t, s2, true, Some(s2), acc2));
        assert(acc2 =~= acc + cur_extent(cur, p)) by {
            match cur {
                Some(s) => {
                    assert(close_extent(s, p) == (s, p - 2));
                },
                None => {},
            }
        }
        assert forall|k: int| 0 <= k < c.len() implies b[s2 + k] == c[k] by {
            assert(b[p + (dl + k)] == em[dl + k]);
            assert(em[dl + k] == c[k]);
        }
        assert(b[p + (dl + c.len())] == em[dl + c.len()]);
        assert(b[p + (dl + c.len() + 1)] == em[dl + c.len() + 1]);
        assert(em[dl + c.len()] == CR && em[dl + c.len() + 1] == LF);
        assert(crlf_at(b, e));
        assert(b[p + (dl - 1)] == em[dl - 1] && b[p + (dl - 2)] == em[dl - 2]);
        assert(em[dl - 2] == CR && em[dl - 1] == LF);
        assert(line_start(b, s2));
        lemma_content_no_delim(b, t, c, s2);
        lemma_scan_to(b, t, s2, true, e, Some(s2), acc2);
        assert forall|k: int| 0 <= k < emr.len() implies b[(e + 2) + k] == emr[k] by {
            assert(b[p + (dl + c.len() + 2 + k)] == em[dl + c.len() + 2 + k]);
            assert(em[dl + c.len() + 2 + k] == emr[k]);
        }
        assert(suffix_is(b, e + 2, emr));
        assert forall|i: int| 0 <= i < rest.len() implies part_encodable(#[trigger] rest[i], t) by {
            assert(rest[i] == parts[i + 1]);
        }
        lemma_scan_encoded(b, t, rest, e + 2, Some(s2), acc2);
        let eer = encoded_extents(rest, t, e + 2);
        assert(cur_extent(Some(s2), e + 2) =~= seq![(s2, e)]);
        assert(encoded_extents(parts, t, p) == seq![(s2, e)] + eer);
        assert(acc2 + cur_extent(Some(s2), e + 2) + eer =~= acc + cur_extent(cur, p)
            + encoded_extents(parts, t, p));
        assert(b.subrange(s2, e) =~= c) by {
            assert forall|m: int| 0 <= m < c.len() implies b.subrange(s2, e)[m] == c[m] by {
                assert(b[s2 + m] == c[m]);
            }
        }
        assert(extent_holds(b, (s2, e), parts[0]));
        assert forall|i: int|
            0 <= i < parts.len() implies extent_holds(
            b,
            encoded_extents(parts, t, p)[i],
            #[trigger] parts[i],
        ) by {
            if i == 0 {
                assert(encoded_extents(parts, t, p)[0] == (s2, e));
            } else {
                assert(encoded_extents(parts, t, p)[i] == eer[i - 1]);
                assert(parts[i] == rest[i - 1]);
                assert(extent_holds(b, eer[i - 1], rest[i - 1]));
            }
        }
    }
}

/// Extents that hold the parts' encodings parse back to the parts.
proof fn lemma_parse_extents(
    b: Seq<u8>,
    xs: Seq<(int, int)>,
    parts: Seq<PartModel>,
    t: Seq<u8>,
    k: int,
)
    requires
        0 <= k,
        k + parts.len() == xs.len(),
        parts_encodable(parts, t),
        forall|i: int| 0 <= i < parts.len() ==> extent_holds(b, xs[k + i], #[trigger] parts[i]),
    ensures
        parse_parts_from(b, xs, k) == Ok::<Seq<PartModel>, ParseError>(parts),
    decreases parts.len(),
{
    if parts.len() == 0 {
        assert(parts =~= Seq::<PartModel>::empty());
    } else {
        assert(extent_holds(b, xs[k + 0], parts[0]));
        assert(part_encodable(parts[0], t));
        lemma_parse_encoded_part(b.subrange(xs[k].0, xs[k].1), parts[0], xs[k].0, k);
        let rest = parts.drop_first();
        assert forall|i: int| 0 <= i < rest.len() implies extent_holds(
            b,
            xs[(k + 1) + i],
            #[trigger] rest[i],
        ) by {
            assert(rest[i] == parts[i + 1]);
            assert(extent_holds(b, xs[k + (i + 1)], parts[i + 1]));
        }
        assert forall|i: int| 0 <= i < rest.len() implies part_encodable(#[trigger] rest[i], t) by {
            assert(rest[i] == parts[i + 1]);
        }
        lemma_parse_extents(b, xs, rest, t, k + 1);
        assert(seq![parts[0]] + rest =~= parts);
    }
}

/// The round trip: parsing an encoded multipart message recovers the
/// encoded parts exactly — the same count, every header in its order with
/// duplicates kept, and every body byte for byte.  A body may hold
/// boundary-like bytes away from line starts; the line-anchored scan
/// passes them through as content.
pub proof fn lemma_parse_encode_multipart(parts: Seq<PartModel>, t: Seq<u8>)
    requires
        boundary_ok(t),
        parts_encodable(parts, t),
    ensures
        spec_parse(encode_multipart(parts, t), t) == Ok::<Seq<PartModel>, ParseError>(parts),
{
    let b = encode_multipart(parts, t);
    assert(suffix_is(b, 0, b)) by {
        assert forall|k: int| 0 <= k < b.len() implies #[trigger] b[0 + k] == b[k] by {}
    }
    lemma_scan_encoded(b, t, parts, 0, None, seq![]);
    let xs = encoded_extents(parts, t, 0);
    assert(seq![] + cur_extent(None, 0) + xs =~= xs);
    assert(boundary_scan(b, t) == Ok::<Seq<(int, int)>, ParseError>(xs));
    lemma_parse_extents(b, xs, parts, t, 0);
}

} // verus!
