use crate::digits::{all_dec_digits, dec_value, is_dec_digit};
use vstd::prelude::*;
use vstd::string::StringSliceAdditionalSpecFns;
use vstd::utf8::{
    is_leading_byte_width_1, length_of_first_scalar, pop_first_scalar, valid_first_scalar,
    valid_utf8,
};

verus! {

// The grammar accepted for a response head is:
//
//   head        = status-line *( header-line ) CRLF
//   status-line = "HTTP/1." DIGIT SP 3DIGIT [ SP reason ] CRLF
//   header-line = name ":" *( SP / HTAB ) value CRLF
//
// where the head ends at the first CRLF CRLF in the stream. Until that
// terminator has been seen, the head is incomplete; once it is there, the
// block either matches the grammar or the response is malformed. The body
// framing is decided by the first `Content-Length` header, compared without
// regard to case: a plain decimal value that fits a `usize` gives a fixed
// length, anything else leaves the body delimited by connection close.
/// Bytes allowed in a reason phrase: horizontal tab and printable ASCII.
pub open spec fn reason_byte_ok(b: u8) -> bool {
    b == 9 || (0x20 <= b && b <= 0x7e)
}

/// Bytes allowed in a header name: printable ASCII other than `:`.
pub open spec fn name_byte_ok(b: u8) -> bool {
    0x21 <= b <= 0x7e && b != 0x3a
}

/// Bytes allowed in a header value: anything but CR and LF.
pub open spec fn value_byte_ok(b: u8) -> bool {
    b != 13 && b != 10
}

pub open spec fn is_crlf_at(b: Seq<u8>, i: int) -> bool {
    0 <= i && i + 2 <= b.len() && b[i] == 13 && b[i + 1] == 10
}

pub open spec fn is_terminator_at(b: Seq<u8>, i: int) -> bool {
    0 <= i && i + 4 <= b.len() && b[i] == 13 && b[i + 1] == 10 && b[i + 2] == 13 && b[i + 3]
        == 10
}

/// Position of the first CRLF at or after `i`.
pub open spec fn find_crlf_from(b: Seq<u8>, i: int) -> Option<int>
    decreases b.len() - i,
{
    if i + 2 > b.len() {
        None
    } else if is_crlf_at(b, i) {
        Some(i)
    } else {
        find_crlf_from(b, i + 1)
    }
}

/// Position of the first CRLF CRLF at or after `i`.
pub open spec fn find_terminator_from(b: Seq<u8>, i: int) -> Option<int>
    decreases b.len() - i,
{
    if i + 4 > b.len() {
        None
    } else if is_terminator_at(b, i) {
        Some(i)
    } else {
        find_terminator_from(b, i + 1)
    }
}

/// Parsed pieces of a status line.
pub struct StatusParts {
    pub version: u8,
    pub code: u16,
    pub reason: Seq<u8>,
}

pub open spec fn status_code_of(l: Seq<u8>) -> u16 {
    (crate::digits::digit_val(l[9]) * 100 + crate::digits::digit_val(l[10]) * 10
        + crate::digits::digit_val(l[11])) as u16
}

/// Parse one full status line (without its CRLF).
pub open spec fn parse_status_line(l: Seq<u8>) -> Option<StatusParts> {
    if l.len() < 12 {
        None
    } else if !(l[0] == 0x48 && l[1] == 0x54 && l[2] == 0x54 && l[3] == 0x50 && l[4] == 0x2f
        && l[5] == 0x31 && l[6] == 0x2e) {
        None
    } else if !is_dec_digit(l[7]) {
        None
    } else if l[8] != 0x20 {
        None
    } else if !(is_dec_digit(l[9]) && is_dec_digit(l[10]) && is_dec_digit(l[11])) {
        None
    } else if l.len() == 12 {
        Some(
            StatusParts {
                version: (l[7] - 0x30) as u8,
                code: status_code_of(l),
                reason: Seq::empty(),
            },
        )
    } else if l[12] != 0x20 {
        None
    } else if !(forall|k: int| 13 <= k < l.len() ==> reason_byte_ok(#[trigger] l[k])) {
        None
    } else {
        Some(
            StatusParts {
                version: (l[7] - 0x30) as u8,
                code: status_code_of(l),
                reason: l.subrange(13, l.len() as int),
            },
        )
    }
}

/// Position of the first byte `t` at or after `i`.
pub open spec fn find_byte_from(b: Seq<u8>, t: u8, i: int) -> Option<int>
    decreases b.len() - i,
{
    if i < 0 || i >= b.len() {
        None
    } else if b[i] == t {
        Some(i)
    } else {
        find_byte_from(b, t, i + 1)
    }
}

/// Drop leading spaces and horizontal tabs.
pub open spec fn strip_leading_ws(s: Seq<u8>) -> Seq<u8>
    decreases s.len(),
{
    if s.len() > 0 && (s[0] == 0x20 || s[0] == 9) {
        strip_leading_ws(s.subrange(1, s.len() as int))
    } else {
        s
    }
}

/// Name and stripped value of one header line (without its CRLF).
pub open spec fn header_line_parts(l: Seq<u8>) -> Option<(Seq<u8>, Seq<u8>)> {
    match find_byte_from(l, 0x3a, 0) {
        None => None,
        Some(j) => if j < 1 {
            None
        } else if !(forall|k: int| 0 <= k < j ==> name_byte_ok(#[trigger] l[k])) {
            None
        } else {
            let v = strip_leading_ws(l.subrange(j + 1, l.len() as int));
            if forall|k: int| 0 <= k < v.len() ==> value_byte_ok(#[trigger] v[k]) {
                Some((l.subrange(0, j), v))
            } else {
                None
            }
        },
    }
}

/// ASCII lower-casing of one byte.
pub open spec fn lower_byte(b: u8) -> u8 {
    if 0x41 <= b <= 0x5a {
        (b + 0x20) as u8
    } else {
        b
    }
}

/// True when `n` spells `content-length` in any mix of cases.
pub open spec fn is_content_length_name(n: Seq<u8>) -> bool {
    n.len() == 14 && lower_byte(n[0]) == 0x63 && lower_byte(n[1]) == 0x6f && lower_byte(n[2])
        == 0x6e && lower_byte(n[3]) == 0x74 && lower_byte(n[4]) == 0x65 && lower_byte(n[5])
        == 0x6e && lower_byte(n[6]) == 0x74 && lower_byte(n[7]) == 0x2d && lower_byte(n[8])
        == 0x6c && lower_byte(n[9]) == 0x65 && lower_byte(n[10]) == 0x6e && lower_byte(n[11])
        == 0x67 && lower_byte(n[12]) == 0x74 && lower_byte(n[13]) == 0x68
}

/// Walk the header lines of `b[q..end)` (each ending in CRLF, the last one at
/// `end - 2`). The outer `None` means some line is malformed; the inner value
/// is the first `Content-Length` value, when there is one.
pub open spec fn headers_content_length(b: Seq<u8>, q: int, end: int) -> Option<Option<Seq<u8>>>
    decreases end - q,
{
    if q >= end {
        Some(None)
    } else {
        match find_crlf_from(b, q) {
            None => None,
            Some(r) => if r < q || r + 2 > end {
                None
            } else {
                match header_line_parts(b.subrange(q, r)) {
                    None => None,
                    Some((name, value)) => match headers_content_length(b, r + 2, end) {
                        None => None,
                        Some(rest) => Some(
                            if is_content_length_name(name) {
                                Some(value)
                            } else {
                                rest
                            },
                        ),
                    },
                }
            },
        }
    }
}

/// How the body of a response is delimited.
pub enum Framing {
    /// A `Content-Length` header promised exactly `n` body bytes.
    Fixed { n: nat },
    /// No usable `Content-Length`: the body runs until the peer closes.
    Unbounded,
}

pub open spec fn framing_of(cl: Option<Seq<u8>>) -> Framing {
    match cl {
        None => Framing::Unbounded,
        Some(v) => if all_dec_digits(v) && v.len() > 0 && dec_value(v) <= usize::MAX {
            Framing::Fixed { n: dec_value(v) }
        } else {
            Framing::Unbounded
        },
    }
}

/// Result of trying to read a response head from the front of `b`.
pub enum ParseOutcome {
    /// No CRLF CRLF yet: more bytes are needed.
    Incomplete,
    /// The head is there but does not match the grammar.
    Malformed,
    /// A well-formed head occupies `b[0..used)`.
    Complete { used: int, status: StatusParts, framing: Framing },
}

/// The meaning of a byte sequence as a response head.
pub open spec fn parse_response(b: Seq<u8>) -> ParseOutcome {
    match find_terminator_from(b, 0) {
        None => ParseOutcome::Incomplete,
        Some(i) => match find_crlf_from(b, 0) {
            None => ParseOutcome::Malformed,
            Some(s) => match parse_status_line(b.subrange(0, s)) {
                None => ParseOutcome::Malformed,
                Some(st) => match headers_content_length(b, s + 2, i + 2) {
                    None => ParseOutcome::Malformed,
                    Some(cl) => ParseOutcome::Complete {
                        used: i + 4,
                        status: st,
                        framing: framing_of(cl),
                    },
                },
            },
        },
    }
}

// --- facts about the finders ---

pub proof fn lemma_find_crlf_bounds(b: Seq<u8>, i: int)
    ensures
        match find_crlf_from(b, i) {
            Some(r) => i <= r && is_crlf_at(b, r) && forall|k: int|
                i <= k < r ==> !is_crlf_at(b, k),
            None => forall|k: int| i <= k ==> !is_crlf_at(b, k),
        },
    decreases b.len() - i,
{
    if i + 2 > b.len() {
    } else if is_crlf_at(b, i) {
    } else {
        lemma_find_crlf_bounds(b, i + 1);
    }
}

pub proof fn lemma_find_terminator_bounds(b: Seq<u8>, i: int)
    ensures
        match find_terminator_from(b, i) {
            Some(r) => i <= r && is_terminator_at(b, r) && forall|k: int|
                i <= k < r ==> !is_terminator_at(b, k),
            None => forall|k: int| i <= k ==> !is_terminator_at(b, k),
        },
    decreases b.len() - i,
{
    if i + 4 > b.len() {
    } else if is_terminator_at(b, i) {
    } else {
        lemma_find_terminator_bounds(b, i + 1);
    }
}

/// A CRLF at `j` guarantees that the search from `i <= j` finds one at or
/// before `j`.
pub proof fn lemma_find_crlf_exists(b: Seq<u8>, i: int, j: int)
    requires
        i <= j,
        is_crlf_at(b, j),
    ensures
        find_crlf_from(b, i) matches Some(r) && i <= r <= j,
    decreases j - i,
{
    if i + 2 > b.len() {
        assert(false);
    } else if is_crlf_at(b, i) {
    } else {
        lemma_find_crlf_exists(b, i + 1, j);
    }
}

pub proof fn lemma_find_terminator_exists(b: Seq<u8>, i: int, j: int)
    requires
        i <= j,
        is_terminator_at(b, j),
    ensures
        find_terminator_from(b, i) matches Some(r) && i <= r <= j,
    decreases j - i,
{
    if i + 4 > b.len() {
        assert(false);
    } else if is_terminator_at(b, i) {
    } else {
        lemma_find_terminator_exists(b, i + 1, j);
    }
}

pub proof fn lemma_find_byte_bounds(b: Seq<u8>, t: u8, i: int)
    requires
        0 <= i,
    ensures
        match find_byte_from(b, t, i) {
            Some(r) => i <= r < b.len() && b[r] == t && forall|k: int|
                i <= k < r ==> b[k] != t,
            None => forall|k: int| i <= k < b.len() ==> b[k] != t,
        },
    decreases b.len() - i,
{
    if i < 0 || i >= b.len() {
    } else if b[i] == t {
    } else {
        lemma_find_byte_bounds(b, t, i + 1);
    }
}

// --- stability under extension ---

/// A CRLF found within `b` is still the first one when `b` grows.
pub proof fn lemma_find_crlf_extend(b: Seq<u8>, e: Seq<u8>, i: int, r: int)
    requires
        find_crlf_from(b, i) == Some(r),
    ensures
        find_crlf_from(b + e, i) == Some(r),
    decreases b.len() - i,
{
    lemma_find_crlf_bounds(b, i);
    if i + 2 > b.len() {
        assert(false);
    } else if is_crlf_at(b, i) {
        assert(is_crlf_at(b + e, i));
    } else {
        assert(!is_crlf_at(b + e, i));
        lemma_find_crlf_extend(b, e, i + 1, r);
    }
}

pub proof fn lemma_find_terminator_extend(b: Seq<u8>, e: Seq<u8>, i: int, r: int)
    requires
        find_terminator_from(b, i) == Some(r),
    ensures
        find_terminator_from(b + e, i) == Some(r),
    decreases b.len() - i,
{
    lemma_find_terminator_bounds(b, i);
    if i + 4 > b.len() {
        assert(false);
    } else if is_terminator_at(b, i) {
        assert(is_terminator_at(b + e, i));
    } else {
        assert(!is_terminator_at(b + e, i));
        lemma_find_terminator_extend(b, e, i + 1, r);
    }
}

/// The header walk only looks below `end`, so it is unchanged when `b` grows.
pub proof fn lemma_headers_cl_extend(b: Seq<u8>, e: Seq<u8>, q: int, end: int)
    requires
        0 <= q,
        end <= b.len(),
        is_crlf_at(b, end - 2),
        q == end || q <= end - 2,
    ensures
        headers_content_length(b + e, q, end) == headers_content_length(b, q, end),
    decreases end - q,
{
    if q >= end {
    } else {
        lemma_find_crlf_exists(b, q, end - 2);
        let r = find_crlf_from(b, q)->Some_0;
        lemma_find_crlf_extend(b, e, q, r);
        lemma_find_crlf_bounds(b, q);
        assert(b.subrange(q, r) =~= (b + e).subrange(q, r));
        if r < q || r + 2 > end {
        } else {
            // the CRLF at r cannot sit at end - 3: its LF would collide with
            // the CR of the final CRLF
            if r + 2 <= end && r != end - 2 {
                assert(b[end - 2] == 13);
                assert(r + 1 != end - 2 || b[r + 1] == 10);
                assert(r + 2 <= end - 2);
            }
            lemma_headers_cl_extend(b, e, r + 2, end);
        }
    }
}

/// Once a head has been decided — well-formed or malformed — more bytes do
/// not change the decision.
pub proof fn lemma_parse_response_extend(b: Seq<u8>, e: Seq<u8>)
    requires
        !(parse_response(b) is Incomplete),
    ensures
        parse_response(b + e) == parse_response(b),
{
    let i = find_terminator_from(b, 0)->Some_0;
    lemma_find_terminator_bounds(b, 0);
    lemma_find_terminator_extend(b, e, 0, i);
    assert(is_crlf_at(b, i));
    lemma_find_crlf_exists(b, 0, i);
    let s = find_crlf_from(b, 0)->Some_0;
    lemma_find_crlf_extend(b, e, 0, s);
    lemma_find_crlf_bounds(b, 0);
    assert(b.subrange(0, s) =~= (b + e).subrange(0, s));
    match parse_status_line(b.subrange(0, s)) {
        None => {},
        Some(st) => {
            if s == i {
                lemma_headers_cl_extend(b, e, s + 2, i + 2);
            } else {
                // s < i, and s cannot be i - 1 because b[i] is a CR
                assert(s + 2 <= i || s == i - 1);
                assert(s != i - 1 || b[s + 1] == 10);
                lemma_headers_cl_extend(b, e, s + 2, i + 2);
            }
        },
    }
}

/// If `b` is still incomplete and an extension completes it, the head ends
/// beyond `b`.
pub proof fn lemma_incomplete_head_ends_beyond(b: Seq<u8>, e: Seq<u8>)
    requires
        parse_response(b) is Incomplete,
        parse_response(b + e) matches ParseOutcome::Complete { used, .. },
    ensures
        parse_response(b + e)->Complete_used > b.len(),
{
    let i = find_terminator_from(b + e, 0)->Some_0;
    lemma_find_terminator_bounds(b + e, 0);
    if i + 4 <= b.len() {
        assert(is_terminator_at(b, i));
        lemma_find_terminator_exists(b, 0, i);
        assert(false);
    }
}

/// A well-formed head fits inside the bytes that were examined.
pub proof fn lemma_complete_used_bounds(b: Seq<u8>)
    requires
        parse_response(b) matches ParseOutcome::Complete { used, .. },
    ensures
        4 <= parse_response(b)->Complete_used <= b.len(),
{
    lemma_find_terminator_bounds(b, 0);
}

// --- the executable parser ---

proof fn lemma_find_crlf_skip(b: Seq<u8>, i: int, j: int)
    requires
        0 <= i <= j,
        forall|k: int| i <= k < j ==> !is_crlf_at(b, k),
    ensures
        find_crlf_from(b, i) == find_crlf_from(b, j),
    decreases j - i,
{
    if i < j {
        lemma_find_crlf_skip(b, i + 1, j);
    }
}

proof fn lemma_find_terminator_skip(b: Seq<u8>, i: int, j: int)
    requires
        0 <= i <= j,
        forall|k: int| i <= k < j ==> !is_terminator_at(b, k),
    ensures
        find_terminator_from(b, i) == find_terminator_from(b, j),
    decreases j - i,
{
    if i < j {
        lemma_find_terminator_skip(b, i + 1, j);
    }
}

proof fn lemma_find_byte_skip(b: Seq<u8>, t: u8, i: int, j: int)
    requires
        0 <= i <= j,
        forall|k: int| i <= k < j ==> b[k] != t,
    ensures
        find_byte_from(b, t, i) == find_byte_from(b, t, j),
    decreases j - i,
{
    if i < j {
        lemma_find_byte_skip(b, t, i + 1, j);
    }
}

/// Bytes below `0x80` are a valid UTF-8 encoding.
proof fn lemma_ascii_valid_utf8(s: Seq<u8>)
    requires
        forall|i: int| 0 <= i < s.len() ==> #[trigger] s[i] < 0x80,
    ensures
        valid_utf8(s),
    decreases s.len(),
{
    if s.len() != 0 {
        let b0 = s[0];
        assert(is_leading_byte_width_1(b0));
        assert(b0 & 0x7f == b0 && (b0 & 0x7f) < 0x80) by (bit_vector)
            requires
                b0 < 0x80,
        ;
        assert(valid_first_scalar(s));
        assert(length_of_first_scalar(s) == 1);
        let rest = pop_first_scalar(s);
        assert(rest =~= s.subrange(1, s.len() as int));
        lemma_ascii_valid_utf8(rest);
    }
}

/// Relies on `core::str::from_utf8`: succeeds exactly on valid UTF-8, and the
/// returned slice views the same bytes.
#[verifier::external_body]
fn bytes_as_str(b: &[u8]) -> (r: Option<&str>)
    ensures
        r is Some <==> valid_utf8(b@),
        r matches Some(s) ==> s.spec_bytes() == b@,
{
    core::str::from_utf8(b).ok()
}

fn find_crlf_exec(buf: &[u8], from: usize) -> (r: Option<usize>)
    ensures
        match r {
            Some(x) => find_crlf_from(buf@, from as int) == Some(x as int) && from <= x && x + 2
                <= buf@.len(),
            None => find_crlf_from(buf@, from as int) is None,
        },
{
    if buf.len() < 2 || from > buf.len() - 2 {
        proof {
            lemma_find_crlf_bounds(buf@, from as int);
            if find_crlf_from(buf@, from as int) is Some {
                assert(is_crlf_at(buf@, find_crlf_from(buf@, from as int)->Some_0));
            }
        }
        return None;
    }
    let mut i: usize = from;
    while i <= buf.len() - 2
        invariant
            from <= i,
            2 <= buf@.len(),
            i <= buf@.len(),
            forall|k: int| from <= k < i ==> !is_crlf_at(buf@, k),
        decreases buf@.len() - i,
    {
        if buf[i] == 13 && buf[i + 1] == 10 {
            proof {
                lemma_find_crlf_skip(buf@, from as int, i as int);
                assert(is_crlf_at(buf@, i as int));
            }
            return Some(i);
        }
        assert(!is_crlf_at(buf@, i as int));
        i = i + 1;
    }
    proof {
        lemma_find_crlf_skip(buf@, from as int, i as int);
        lemma_find_crlf_bounds(buf@, i as int);
        if find_crlf_from(buf@, i as int) is Some {
            assert(is_crlf_at(buf@, find_crlf_from(buf@, i as int)->Some_0));
        }
    }
    None
}

fn find_terminator_exec(buf: &[u8]) -> (r: Option<usize>)
    ensures
        match r {
            Some(x) => find_terminator_from(buf@, 0) == Some(x as int) && x + 4 <= buf@.len(),
            None => find_terminator_from(buf@, 0) is None,
        },
{
    if buf.len() < 4 {
        proof {
            lemma_find_terminator_bounds(buf@, 0);
            if find_terminator_from(buf@, 0) is Some {
                assert(is_terminator_at(buf@, find_terminator_from(buf@, 0)->Some_0));
            }
        }
        return None;
    }
    let mut i: usize = 0;
    while i <= buf.len() - 4
        invariant
            4 <= buf@.len(),
            i <= buf@.len(),
            forall|k: int| 0 <= k < i ==> !is_terminator_at(buf@, k),
        decreases buf@.len() - i,
    {
        if buf[i] == 13 && buf[i + 1] == 10 && buf[i + 2] == 13 && buf[i + 3] == 10 {
            proof {
                lemma_find_terminator_skip(buf@, 0, i as int);
                assert(is_terminator_at(buf@, i as int));
            }
            return Some(i);
        }
        assert(!is_terminator_at(buf@, i as int));
        i = i + 1;
    }
    proof {
        lemma_find_terminator_skip(buf@, 0, i as int);
        lemma_find_terminator_bounds(buf@, i as int);
        if find_terminator_from(buf@, i as int) is Some {
            assert(is_terminator_at(buf@, find_terminator_from(buf@, i as int)->Some_0));
        }
    }
    None
}

#[verifier::loop_isolation(false)]
fn parse_status_exec<'a>(l: &'a [u8]) -> (r: Option<(u8, u16, &'a str)>)
    ensures
        match r {
            Some((v, c, reason)) => parse_status_line(l@) matches Some(st) && st.version == v
                && st.code == c && reason.spec_bytes() == st.reason,
            None => parse_status_line(l@) is None,
        },
{
    if l.len() < 12 {
        return None;
    }
    if !(l[0] == 0x48 && l[1] == 0x54 && l[2] == 0x54 && l[3] == 0x50 && l[4] == 0x2f && l[5]
        == 0x31 && l[6] == 0x2e) {
        return None;
    }
    if !(0x30 <= l[7] && l[7] <= 0x39) {
        return None;
    }
    if l[8] != 0x20 {
        return None;
    }
    if !(0x30 <= l[9] && l[9] <= 0x39 && 0x30 <= l[10] && l[10] <= 0x39 && 0x30 <= l[11] && l[11]
        <= 0x39) {
        return None;
    }
    let version: u8 = l[7] - 0x30;
    let code: u16 = (l[9] - 0x30) as u16 * 100 + (l[10] - 0x30) as u16 * 10 + (l[11]
        - 0x30) as u16;
    if l.len() == 12 {
        let reason = "";
        proof {
            reveal_strlit("");
            assert(reason.spec_bytes() =~= Seq::<u8>::empty());
        }
        return Some((version, code, reason));
    }
    if l[12] != 0x20 {
        return None;
    }
    let mut k: usize = 13;
    while k < l.len()
        invariant
            13 <= k <= l@.len(),
            12 < l@.len(),
            forall|m: int| 13 <= m < k ==> reason_byte_ok(#[trigger] l@[m]),
        decreases l@.len() - k,
    {
        let b = l[k];
        if !(b == 9 || (0x20 <= b && b <= 0x7e)) {
            assert(!reason_byte_ok(l@[k as int]));
            return None;
        }
        k = k + 1;
    }
    let reason_bytes = &l[13..l.len()];
    proof {
        assert(forall|m: int|
            0 <= m < reason_bytes@.len() ==> #[trigger] reason_bytes@[m] < 0x80);
        lemma_ascii_valid_utf8(reason_bytes@);
    }
    match bytes_as_str(reason_bytes) {
        Some(reason) => Some((version, code, reason)),
        None => {
            // unreachable: the bytes were just checked to be ASCII
            assert(false);
            None
        },
    }
}

fn find_byte_exec(l: &[u8], t: u8) -> (r: Option<usize>)
    ensures
        match r {
            Some(x) => find_byte_from(l@, t, 0) == Some(x as int) && x < l@.len(),
            None => find_byte_from(l@, t, 0) is None,
        },
{
    let mut i: usize = 0;
    while i < l.len()
        invariant
            i <= l@.len(),
            forall|k: int| 0 <= k < i ==> l@[k] != t,
        decreases l@.len() - i,
    {
        if l[i] == t {
            proof {
                lemma_find_byte_skip(l@, t, 0, i as int);
            }
            return Some(i);
        }
        i = i + 1;
    }
    proof {
        lemma_find_byte_skip(l@, t, 0, i as int);
    }
    None
}

proof fn lemma_strip_skip(s: Seq<u8>, k: int)
    requires
        0 <= k <= s.len(),
        forall|m: int| 0 <= m < k ==> (#[trigger] s[m] == 0x20 || s[m] == 9),
    ensures
        strip_leading_ws(s) == strip_leading_ws(s.subrange(k, s.len() as int)),
    decreases k,
{
    if k > 0 {
        assert(s[0] == 0x20 || s[0] == 9);
        let tail = s.subrange(1, s.len() as int);
        assert(forall|m: int| 0 <= m < k - 1 ==> (#[trigger] tail[m] == 0x20 || tail[m] == 9))
            by {
            assert(forall|m: int| 0 <= m < k - 1 ==> #[trigger] tail[m] == s[m + 1]);
        }
        lemma_strip_skip(tail, k - 1);
        assert(tail.subrange(k - 1, tail.len() as int) =~= s.subrange(k, s.len() as int));
        assert(strip_leading_ws(s) == strip_leading_ws(tail));
    } else {
        assert(s.subrange(k, s.len() as int) =~= s);
    }
}

#[verifier::loop_isolation(false)]
fn header_line_exec<'a>(l: &'a [u8]) -> (r: Option<(&'a [u8], &'a [u8])>)
    ensures
        match r {
            Some((name, value)) => header_line_parts(l@) matches Some(p) && p.0 == name@ && p.1
                == value@,
            None => header_line_parts(l@) is None,
        },
{
    let j = match find_byte_exec(l, 0x3a) {
        None => {
            return None;
        },
        Some(j) => j,
    };
    if j < 1 {
        return None;
    }
    let mut k: usize = 0;
    while k < j
        invariant
            k <= j,
            j < l@.len(),
            forall|m: int| 0 <= m < k ==> name_byte_ok(#[trigger] l@[m]),
        decreases j - k,
    {
        let b = l[k];
        if !(0x21 <= b && b <= 0x7e && b != 0x3a) {
            assert(!name_byte_ok(l@[k as int]));
            return None;
        }
        k = k + 1;
    }
    let llen = l.len();
    assert(j < llen);
    let tail = &l[j + 1..llen];
    let ghost tail_seq = l@.subrange(j + 1, l@.len() as int);
    let mut w: usize = 0;
    while w < tail.len() && (tail[w] == 0x20 || tail[w] == 9)
        invariant
            w <= tail@.len(),
            tail@ == tail_seq,
            forall|m: int| 0 <= m < w ==> (#[trigger] tail@[m] == 0x20 || tail@[m] == 9),
        decreases tail@.len() - w,
    {
        w = w + 1;
    }
    proof {
        lemma_strip_skip(tail_seq, w as int);
        if w < tail_seq.len() {
            assert(tail_seq.subrange(w as int, tail_seq.len() as int)[0] == tail_seq[w as int]);
        }
        assert(strip_leading_ws(tail_seq) == tail_seq.subrange(w as int, tail_seq.len() as int));
    }
    let value = &tail[w..tail.len()];
    let mut v: usize = 0;
    while v < value.len()
        invariant
            v <= value@.len(),
            forall|m: int| 0 <= m < v ==> value_byte_ok(#[trigger] value@[m]),
        decreases value@.len() - v,
    {
        let b = value[v];
        if b == 13 || b == 10 {
            assert(!value_byte_ok(value@[v as int]));
            return None;
        }
        v = v + 1;
    }
    let name = &l[0..j];
    Some((name, value))
}

fn is_content_length_exec(n: &[u8]) -> (r: bool)
    ensures
        r == is_content_length_name(n@),
{
    if n.len() != 14 {
        return false;
    }
    lower_exec(n[0]) == 0x63 && lower_exec(n[1]) == 0x6f && lower_exec(n[2]) == 0x6e && lower_exec(
        n[3],
    ) == 0x74 && lower_exec(n[4]) == 0x65 && lower_exec(n[5]) == 0x6e && lower_exec(n[6]) == 0x74
        && lower_exec(n[7]) == 0x2d && lower_exec(n[8]) == 0x6c && lower_exec(n[9]) == 0x65
        && lower_exec(n[10]) == 0x6e && lower_exec(n[11]) == 0x67 && lower_exec(n[12]) == 0x74
        && lower_exec(n[13]) == 0x68
}

fn lower_exec(b: u8) -> (r: u8)
    ensures
        r == lower_byte(b),
{
    if 0x41 <= b && b <= 0x5a {
        b + 0x20
    } else {
        b
    }
}

/// Result of feeding the scratch buffer to the parser.
pub enum Parsed<'a> {
    Incomplete,
    Malformed,
    Complete { used: usize, version: u8, code: u16, reason: &'a str, content_length: Option<usize> },
}

/// Read a response head from the front of `buf`, as [`parse_response`]
/// describes it.
#[verifier::loop_isolation(false)]
pub fn parse_response_exec<'a>(buf: &'a [u8]) -> (r: Parsed<'a>)
    ensures
        match r {
            Parsed::Incomplete => parse_response(buf@) is Incomplete,
            Parsed::Malformed => parse_response(buf@) is Malformed,
            Parsed::Complete { used, version, code, reason, content_length } => parse_response(
                buf@,
            ) matches ParseOutcome::Complete { used: su, status, framing } && used as int == su
                && version == status.version && code == status.code && reason.spec_bytes()
                == status.reason && (match framing {
                Framing::Fixed { n } => content_length == Some(n as usize),
                Framing::Unbounded => content_length is None,
            }),
        },
{
    let i = match find_terminator_exec(buf) {
        None => {
            return Parsed::Incomplete;
        },
        Some(i) => i,
    };
    proof {
        lemma_find_terminator_bounds(buf@, 0);
        assert(is_terminator_at(buf@, i as int));
        assert(is_crlf_at(buf@, i as int));
    }
    let s = match find_crlf_exec(buf, 0) {
        None => {
            return Parsed::Malformed;
        },
        Some(s) => s,
    };
    let blen = buf.len();
    assert(i + 4 <= blen);
    assert(s + 2 <= blen);
    let line = &buf[0..s];
    let (version, code, reason) = match parse_status_exec(line) {
        None => {
            proof {
                assert(line@ == buf@.subrange(0, s as int));
            }
            return Parsed::Malformed;
        },
        Some(t) => t,
    };
    let end: usize = i + 2;
    let ghost start: int = s + 2;
    let mut q: usize = s + 2;
    let mut cl_seen: bool = false;
    let mut cl_num: Option<usize> = None;
    let ghost mut cl_bytes: Option<Seq<u8>> = None;
    proof {
        lemma_find_crlf_bounds(buf@, 0);
        assert(s <= i) by {
            lemma_find_crlf_exists(buf@, 0, i as int);
        }
        if s != i {
            assert(buf@[i as int] == 13);
            assert(s as int != i - 1 || buf@[s + 1] == 10);
        }
    }
    while q < end
        invariant
            start <= q <= end,
            end == i + 2,
            i + 4 <= buf@.len(),
            is_crlf_at(buf@, end - 2),
            q == end || q <= end - 2,
            cl_seen <==> cl_bytes is Some,
            !cl_seen ==> cl_num is None,
            cl_seen ==> (match framing_of(cl_bytes) {
                Framing::Fixed { n } => cl_num == Some(n as usize),
                Framing::Unbounded => cl_num is None,
            }),
            headers_content_length(buf@, start, end as int) == (match headers_content_length(
                buf@,
                q as int,
                end as int,
            ) {
                None => None::<Option<Seq<u8>>>,
                Some(rest) => Some(
                    if cl_seen {
                        cl_bytes
                    } else {
                        rest
                    },
                ),
            }),
        decreases end - q,
    {
        let r = match find_crlf_exec(buf, q) {
            None => {
                proof {
                    assert(headers_content_length(buf@, q as int, end as int) is None);
                    assert(headers_content_length(buf@, start, end as int) is None);
                    assert(parse_response(buf@) is Malformed);
                }
                return Parsed::Malformed;
            },
            Some(r) => r,
        };
        assert(r + 2 <= blen);
        if r + 2 > end {
            proof {
                assert(headers_content_length(buf@, q as int, end as int) is None);
                assert(headers_content_length(buf@, start, end as int) is None);
                assert(parse_response(buf@) is Malformed);
            }
            return Parsed::Malformed;
        }
        proof {
            lemma_find_crlf_bounds(buf@, q as int);
            assert(is_crlf_at(buf@, r as int));
            if r as int != end - 2 {
                assert(r as int != end - 3 || buf@[r + 1] == 10);
                assert(r + 2 <= end - 2);
            }
        }
        let hline = &buf[q..r];
        let (name, value) = match header_line_exec(hline) {
            None => {
                proof {
                    assert(hline@ == buf@.subrange(q as int, r as int));
                    assert(headers_content_length(buf@, q as int, end as int) is None);
                    assert(headers_content_length(buf@, start, end as int) is None);
                    assert(parse_response(buf@) is Malformed);
                }
                return Parsed::Malformed;
            },
            Some(p) => p,
        };
        proof {
            assert(hline@ == buf@.subrange(q as int, r as int));
        }
        if !cl_seen && is_content_length_exec(name) {
            cl_seen = true;
            proof {
                cl_bytes = Some(value@);
            }
            cl_num = crate::digits::parse_decimal(value);
        }
        q = r + 2;
    }
    proof {
        assert(headers_content_length(buf@, q as int, end as int) == Some(
            None::<Seq<u8>>,
        ));
    }
    let used: usize = i + 4;
    let content_length: Option<usize> = if cl_seen {
        cl_num
    } else {
        None
    };
    proof {
        let cl = if cl_seen {
            cl_bytes
        } else {
            None
        };
        assert(headers_content_length(buf@, start, end as int) == Some(cl));
        assert(line@ == buf@.subrange(0, s as int));
        assert(parse_response(buf@) matches ParseOutcome::Complete { used: su, status, framing }
            && su == i + 4 && framing == framing_of(cl));
    }
    Parsed::Complete { used, version, code, reason, content_length }
}

} // verus!
