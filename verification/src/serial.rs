use crate::buffer::ByteBuffer;
use crate::digits::{dec_digits, push_decimal};
use vstd::prelude::*;
use vstd::string::StringSliceAdditionalSpecFns;

verus! {

// The wire format produced for a request:
//
//   METHOD SP PATH SP "HTTP/1.1" CRLF
//   [ "Content-Length: " decimal CRLF ]     (only when a payload is sent)
//   ( NAME ": " VALUE CRLF )*               (caller headers, in order)
//   CRLF
//   [ payload bytes ]
//
// No other header is added: `Host`, encodings and connection management are
// the caller's business.
pub open spec fn sp() -> Seq<u8> {
    seq![0x20u8]
}

pub open spec fn crlf() -> Seq<u8> {
    seq![13u8, 10u8]
}

/// The bytes of `" HTTP/1.1\r\n"`.
pub open spec fn http_version_tag() -> Seq<u8> {
    seq![0x20u8, 0x48, 0x54, 0x54, 0x50, 0x2f, 0x31, 0x2e, 0x31, 13, 10]
}

/// The bytes of `"Content-Length: "`.
pub open spec fn content_length_label() -> Seq<u8> {
    seq![0x43u8, 0x6f, 0x6e, 0x74, 0x65, 0x6e, 0x74, 0x2d, 0x4c, 0x65, 0x6e, 0x67, 0x74, 0x68,
        0x3a, 0x20]
}

/// The bytes of `": "`.
pub open spec fn header_sep() -> Seq<u8> {
    seq![0x3au8, 0x20]
}

pub open spec fn request_line(method: Seq<u8>, path: Seq<u8>) -> Seq<u8> {
    method + sp() + path + http_version_tag()
}

pub open spec fn content_length_header(len: nat) -> Seq<u8> {
    content_length_label() + dec_digits(len) + crlf()
}

pub open spec fn header_bytes(h: (Seq<u8>, Seq<u8>)) -> Seq<u8> {
    h.0 + header_sep() + h.1 + crlf()
}

pub open spec fn headers_bytes(hs: Seq<(Seq<u8>, Seq<u8>)>) -> Seq<u8>
    decreases hs.len(),
{
    if hs.len() == 0 {
        Seq::empty()
    } else {
        header_bytes(hs[0]) + headers_bytes(hs.skip(1))
    }
}

/// Everything before the payload: request line, the `Content-Length` header
/// when a payload length is given, the caller headers in order, and the
/// blank line.
pub open spec fn serialized_head(
    method: Seq<u8>,
    path: Seq<u8>,
    hs: Seq<(Seq<u8>, Seq<u8>)>,
    content_length: Option<nat>,
) -> Seq<u8> {
    request_line(method, path) + (match content_length {
        Some(n) => content_length_header(n),
        None => Seq::empty(),
    }) + headers_bytes(hs) + crlf()
}

/// The full wire bytes of a request.
pub open spec fn serialized_request(
    method: Seq<u8>,
    path: Seq<u8>,
    hs: Seq<(Seq<u8>, Seq<u8>)>,
    payload: Option<Seq<u8>>,
) -> Seq<u8> {
    serialized_head(
        method,
        path,
        hs,
        match payload {
            Some(p) => Some(p.len()),
            None => None,
        },
    ) + (match payload {
        Some(p) => p,
        None => Seq::empty(),
    })
}

/// The byte view of a caller header list.
pub open spec fn headers_view(hs: Seq<(&str, &str)>) -> Seq<(Seq<u8>, Seq<u8>)> {
    hs.map_values(|h: (&str, &str)| (h.0.spec_bytes(), h.1.spec_bytes()))
}

pub open spec fn opt_headers_view(hs: Option<&[(&str, &str)]>) -> Seq<(Seq<u8>, Seq<u8>)> {
    match hs {
        Some(s) => headers_view(s@),
        None => Seq::empty(),
    }
}

proof fn lemma_headers_bytes_snoc(s: Seq<(Seq<u8>, Seq<u8>)>, i: int)
    requires
        0 <= i < s.len(),
    ensures
        headers_bytes(s.take(i + 1)) == headers_bytes(s.take(i)) + header_bytes(s[i]),
    decreases i,
{
    if i == 0 {
        assert(s.take(0) =~= Seq::<(Seq<u8>, Seq<u8>)>::empty());
        assert(s.take(1).skip(1) =~= Seq::<(Seq<u8>, Seq<u8>)>::empty());
        assert(s.take(1)[0] == s[0]);
        assert(header_bytes(s[0]) + Seq::<u8>::empty() =~= header_bytes(s[0]));
        assert(Seq::<u8>::empty() + header_bytes(s[0]) =~= header_bytes(s[0]));
    } else {
        let t = s.skip(1);
        lemma_headers_bytes_snoc(t, i - 1);
        assert(s.take(i + 1).skip(1) =~= t.take(i));
        assert(s.take(i).skip(1) =~= t.take(i - 1));
        assert(s.take(i + 1)[0] == s[0]);
        assert(s.take(i)[0] == s[0]);
        assert(t[i - 1] == s[i]);
        assert(headers_bytes(s.take(i + 1)) == header_bytes(s[0]) + (headers_bytes(t.take(i - 1))
            + header_bytes(s[i])));
        assert(header_bytes(s[0]) + (headers_bytes(t.take(i - 1)) + header_bytes(s[i])) =~= (
        header_bytes(s[0]) + headers_bytes(t.take(i - 1))) + header_bytes(s[i]));
    }
}

proof fn lemma_headers_bytes_decompose(s: Seq<(Seq<u8>, Seq<u8>)>, i: int)
    requires
        0 <= i < s.len(),
    ensures
        headers_bytes(s) == headers_bytes(s.take(i)) + (header_bytes(s[i]) + headers_bytes(
            s.skip(i + 1),
        )),
    decreases i,
{
    if i == 0 {
        assert(s.take(0) =~= Seq::<(Seq<u8>, Seq<u8>)>::empty());
        assert(headers_bytes(s) =~= headers_bytes(s.take(0)) + (header_bytes(s[0])
            + headers_bytes(s.skip(1))));
    } else {
        let t = s.skip(1);
        lemma_headers_bytes_decompose(t, i - 1);
        assert(s.take(i).skip(1) =~= t.take(i - 1));
        assert(s.take(i)[0] == s[0]);
        assert(t[i - 1] == s[i]);
        assert(t.skip(i) =~= s.skip(i + 1));
        assert(headers_bytes(s) =~= headers_bytes(s.take(i)) + (header_bytes(s[i])
            + headers_bytes(s.skip(i + 1))));
    }
}

fn append_str<const OUT: usize>(out: &mut ByteBuffer<OUT>, s: &str) -> (ok: bool)
    ensures
        ok ==> final(out)@ == old(out)@ + s.spec_bytes(),
        !ok ==> old(out)@.len() + s.spec_bytes().len() > OUT,
{
    out.try_extend(s.as_bytes()).is_ok()
}

fn append_sp<const OUT: usize>(out: &mut ByteBuffer<OUT>) -> (ok: bool)
    ensures
        ok ==> final(out)@ == old(out)@ + sp(),
        !ok ==> old(out)@.len() + sp().len() > OUT,
{
    let r = out.try_push(0x20).is_ok();
    proof {
        if r {
            assert(old(out)@.push(0x20u8) =~= old(out)@ + sp());
        }
    }
    r
}

fn append_crlf<const OUT: usize>(out: &mut ByteBuffer<OUT>) -> (ok: bool)
    ensures
        ok ==> final(out)@ == old(out)@ + crlf(),
        !ok ==> old(out)@.len() + crlf().len() > OUT,
{
    if out.try_push(13).is_err() {
        return false;
    }
    if out.try_push(10).is_err() {
        return false;
    }
    proof {
        assert(old(out)@.push(13u8).push(10u8) =~= old(out)@ + crlf());
    }
    true
}

#[verifier::loop_isolation(false)]
fn append_http_version_tag<const OUT: usize>(out: &mut ByteBuffer<OUT>) -> (ok: bool)
    ensures
        ok ==> final(out)@ == old(out)@ + http_version_tag(),
        !ok ==> old(out)@.len() + http_version_tag().len() > OUT,
{
    let bytes: [u8; 11] = [0x20, 0x48, 0x54, 0x54, 0x50, 0x2f, 0x31, 0x2e, 0x31, 13, 10];
    let mut k: usize = 0;
    while k < 11
        invariant
            k <= 11,
            out@ == old(out)@ + http_version_tag().take(k as int),
            bytes@ =~= http_version_tag(),
        decreases 11 - k,
    {
        let b = bytes[k];
        if out.try_push(b).is_err() {
            return false;
        }
        proof {
            assert(http_version_tag().take(k as int).push(b) =~= http_version_tag().take(
                k + 1,
            ));
        }
        k = k + 1;
    }
    proof {
        assert(http_version_tag().take(11int) =~= http_version_tag());
    }
    true
}

#[verifier::loop_isolation(false)]
fn append_content_length_label<const OUT: usize>(out: &mut ByteBuffer<OUT>) -> (ok: bool)
    ensures
        ok ==> final(out)@ == old(out)@ + content_length_label(),
        !ok ==> old(out)@.len() + content_length_label().len() > OUT,
{
    let bytes: [u8; 16] = [0x43, 0x6f, 0x6e, 0x74, 0x65, 0x6e, 0x74, 0x2d, 0x4c, 0x65, 0x6e,
        0x67, 0x74, 0x68, 0x3a, 0x20];
    let mut k: usize = 0;
    while k < 16
        invariant
            k <= 16,
            out@ == old(out)@ + content_length_label().take(k as int),
            bytes@ =~= content_length_label(),
        decreases 16 - k,
    {
        let b = bytes[k];
        if out.try_push(b).is_err() {
            return false;
        }
        proof {
            assert(content_length_label().take(k as int).push(b) =~= content_length_label().take(
                k + 1,
            ));
        }
        k = k + 1;
    }
    proof {
        assert(content_length_label().take(16int) =~= content_length_label());
    }
    true
}

fn append_header_sep<const OUT: usize>(out: &mut ByteBuffer<OUT>) -> (ok: bool)
    ensures
        ok ==> final(out)@ == old(out)@ + header_sep(),
        !ok ==> old(out)@.len() + header_sep().len() > OUT,
{
    if out.try_push(0x3a).is_err() {
        return false;
    }
    if out.try_push(0x20).is_err() {
        return false;
    }
    proof {
        assert(old(out)@.push(0x3au8).push(0x20u8) =~= old(out)@ + header_sep());
    }
    true
}

/// Serialize the request head into `out`; false when it does not fit.
#[verifier::loop_isolation(false)]
#[verifier::rlimit(60)]
pub fn write_head<const OUT: usize>(
    out: &mut ByteBuffer<OUT>,
    method: &str,
    path: &str,
    headers: Option<&[(&str, &str)]>,
    content_length: Option<usize>,
) -> (ok: bool)
    ensures
        ok ==> final(out)@ == old(out)@ + serialized_head(
            method.spec_bytes(),
            path.spec_bytes(),
            opt_headers_view(headers),
            match content_length {
                Some(n) => Some(n as nat),
                None => None,
            },
        ),
        !ok ==> old(out)@.len() + serialized_head(
            method.spec_bytes(),
            path.spec_bytes(),
            opt_headers_view(headers),
            match content_length {
                Some(n) => Some(n as nat),
                None => None,
            },
        ).len() > OUT,
{
    let ghost whole = serialized_head(
        method.spec_bytes(),
        path.spec_bytes(),
        opt_headers_view(headers),
        match content_length {
            Some(n) => Some(n as nat),
            None => None,
        },
    );
    if !append_str(out, method) {
        return false;
    }
    if !append_sp(out) {
        return false;
    }
    if !append_str(out, path) {
        return false;
    }
    if !append_http_version_tag(out) {
        return false;
    }
    match content_length {
        Some(n) => {
            if !append_content_length_label(out) {
                return false;
            }
            if !push_decimal(out, n) {
                return false;
            }
            if !append_crlf(out) {
                return false;
            }
        },
        None => {},
    }
    let ghost head_start = old(out)@ + request_line(method.spec_bytes(), path.spec_bytes())
        + (match content_length {
        Some(n) => content_length_header(n as nat),
        None => Seq::<u8>::empty(),
    });
    proof {
        assert(out@ =~= head_start);
    }
    let ghost hv = opt_headers_view(headers);
    match headers {
        Some(hs) => {
            let mut i: usize = 0;
            while i < hs.len()
                invariant
                    i <= hs@.len(),
                    hv == headers_view(hs@),
                    hv.len() == hs@.len(),
                    out@ == head_start + headers_bytes(hv.take(i as int)),
                decreases hs@.len() - i,
            {
                let (name, value) = hs[i];
                proof {
                    lemma_headers_bytes_decompose(hv, i as int);
                    assert(hv[i as int] == (name.spec_bytes(), value.spec_bytes()));
                }
                if !append_str(out, name) {
                    return false;
                }
                if !append_header_sep(out) {
                    return false;
                }
                if !append_str(out, value) {
                    return false;
                }
                if !append_crlf(out) {
                    return false;
                }
                proof {
                    assert(hv[i as int] == (name.spec_bytes(), value.spec_bytes()));
                    lemma_headers_bytes_snoc(hv, i as int);
                    assert(out@ =~= head_start + headers_bytes(hv.take(i + 1)));
                }
                i = i + 1;
            }
            proof {
                assert(hv.take(i as int) =~= hv);
            }
        },
        None => {
            proof {
                assert(headers_bytes(hv) =~= Seq::<u8>::empty());
                assert(out@ =~= head_start + headers_bytes(hv));
            }
        },
    }
    if !append_crlf(out) {
        return false;
    }
    proof {
        assert(out@ =~= old(out)@ + serialized_head(
            method.spec_bytes(),
            path.spec_bytes(),
            hv,
            match content_length {
                Some(n) => Some(n as nat),
                None => None,
            },
        ));
    }
    true
}

} // verus!
