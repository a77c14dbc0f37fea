//! The connection to the server: how requests are framed, how replies
//! read from the socket are turned into text, the greeting the server
//! opens with, and the requests a controller sends when it connects.
use vstd::prelude::*;
use vstd::utf8::{
    decode_utf8, encode_utf8, encode_utf8_decode_utf8, encode_utf8_valid_utf8, valid_utf8,
};
use crate::text::{
    chars_eq, chars_of, chars_starts_with, contains, lacks, occurs_at, piece_of, starts_with,
};
use crate::request::{
    lemma_minify_push, lemma_xform_request, method_call, minify, minify_request,
    plain_value, request_fits, xform_defined, xform_spec, Param, Value,
};

verus! {

/// The four bytes of a 32-bit number, least significant first.
pub open spec fn le_bytes(x: u32) -> Seq<u8> {
    seq![
        (x % 256) as u8,
        ((x / 256) % 256) as u8,
        ((x / 65536) % 256) as u8,
        ((x / 16777216) % 256) as u8,
    ]
}

/// The handle that every request is sent with.
pub open spec fn request_handle() -> u32 {
    0x8000_0000
}

/// A request as it goes on the wire: the length of the payload (cut to 32
/// bits), the request handle, both little-endian, then the payload.
pub open spec fn frame_spec(payload: Seq<u8>) -> Seq<u8> {
    le_bytes(payload.len() as u32) + le_bytes(request_handle()) + payload
}

fn push_le_bytes(out: &mut Vec<u8>, x: u32)
    ensures
        final(out)@ == old(out)@ + le_bytes(x),
{
    out.push((x % 256) as u8);
    out.push(((x / 256) % 256) as u8);
    out.push(((x / 65536) % 256) as u8);
    out.push(((x / 16777216) % 256) as u8);
    assert(final(out)@ =~= old(out)@ + le_bytes(x));
}

/// Frames a request for the wire.
pub fn frame_request(toSend: &[u8]) -> (res: Vec<u8>)
    ensures
        res@ == frame_spec(toSend@),
{
    let mut out: Vec<u8> = Vec::new();
    let len = toSend.len() as u32;
    push_le_bytes(&mut out, len);
    push_le_bytes(&mut out, 0x8000_0000u32);
    let mut k: usize = 0;
    while k < toSend.len()
        invariant
            k <= toSend@.len(),
            out@ == le_bytes(toSend@.len() as u32) + le_bytes(request_handle()) + toSend@.subrange(
                0,
                k as int,
            ),
        decreases toSend@.len() - k,
    {
        out.push(toSend[k]);
        assert(toSend@.subrange(0, k + 1) =~= toSend@.subrange(0, k as int).push(toSend@[k as int]));
        k = k + 1;
    }
    assert(toSend@.subrange(0, toSend@.len() as int) =~= toSend@);
    out
}

/// `std::str::from_utf8`: the text that the bytes encode, when they are
/// valid UTF-8, and nothing otherwise.
#[verifier::external_body]
fn utf8_text(v: &[u8]) -> (res: Option<&str>)
    ensures
        res is Some <==> valid_utf8(v@),
        res matches Some(t) ==> encode_utf8(t@) == v@,
{
    match std::str::from_utf8(v) {
        Ok(t) => Some(t),
        Err(_) => None,
    }
}

/// `s` without the prefix `p`, if it starts with it.
pub open spec fn strip_prefix(s: Seq<char>, p: Seq<char>) -> Seq<char> {
    if starts_with(s, p) {
        s.subrange(p.len() as int, s.len() as int)
    } else {
        s
    }
}

fn strip(s: String, p: &str) -> (res: String)
    ensures
        res@ == strip_prefix(s@, p@),
{
    let cs = chars_of(s.as_str());
    let ps = chars_of(p);
    if chars_starts_with(cs.as_slice(), ps.as_slice()) {
        piece_of(s.as_str(), ps.len(), cs.len())
    } else {
        s
    }
}

/// The text of a reply buffer: what its bytes encode, or `None` when they
/// are not valid UTF-8.
pub open spec fn buffer_text(buf: Seq<u8>) -> Seq<char> {
    if valid_utf8(buf) {
        decode_utf8(buf)
    } else {
        "None"@
    }
}

/// The text of a reply buffer without the transport's framing bytes.
pub open spec fn reply_text(buf: Seq<u8>) -> Seq<char> {
    strip_prefix(
        strip_prefix(buffer_text(buf), "\u{1}\0\0\u{2}\0\0\0"@),
        "V\u{1}\0\0\u{2}\0\0\0"@,
    )
}

/// Turns the bytes read from the server into text, without the framing
/// bytes that come before a callback.
pub fn decode_reply(buf: &[u8]) -> (res: String)
    ensures
        res@ == reply_text(buf@),
{
    let text = match utf8_text(buf) {
        Some(t) => {
            proof {
                encode_utf8_decode_utf8(t@);
            }
            t.to_owned()
        },
        None => "None".to_owned(),
    };
    let once = strip(text, "\u{1}\0\0\u{2}\0\0\0");
    strip(once, "V\u{1}\0\0\u{2}\0\0\0")
}

/// Reading back the bytes of a text gives the text, unless it starts with
/// one of the framing prefixes.
pub proof fn lemma_reply_of_text(t: Seq<char>)
    requires
        !starts_with(t, "\u{1}\0\0\u{2}\0\0\0"@),
        !starts_with(t, "V\u{1}\0\0\u{2}\0\0\0"@),
    ensures
        reply_text(encode_utf8(t)) == t,
{
    encode_utf8_valid_utf8(t);
    encode_utf8_decode_utf8(t);
}

/// `s` without the leading elements equal to `c`.
pub open spec fn trim_start(s: Seq<char>, c: char) -> Seq<char>
    decreases s.len(),
{
    if s.len() > 0 && s[0] == c {
        trim_start(s.drop_first(), c)
    } else {
        s
    }
}

/// `s` without the trailing elements equal to `c`.
pub open spec fn trim_end(s: Seq<char>, c: char) -> Seq<char>
    decreases s.len(),
{
    if s.len() > 0 && s.last() == c {
        trim_end(s.drop_last(), c)
    } else {
        s
    }
}

/// `s.trim_matches(c)`.
pub open spec fn trim_matches(s: Seq<char>, c: char) -> Seq<char> {
    trim_end(trim_start(s, c), c)
}

/// The greeting is valid UTF-8 that reads `GBXRemote 2` once the NUL
/// padding is taken off both ends.
pub open spec fn greeting_spec(ver: Seq<u8>) -> bool {
    valid_utf8(ver) && trim_matches(decode_utf8(ver), '\0') == "GBXRemote 2"@
}

/// Whether the server greeted with the protocol this controller speaks.
pub fn greeting_ok(ver: &[u8]) -> (res: bool)
    ensures
        res == greeting_spec(ver@),
{
    let t = match utf8_text(ver) {
        Some(t) => t,
        None => {
            return false;
        },
    };
    proof {
        encode_utf8_decode_utf8(t@);
    }
    let cs = chars_of(t);
    let n = cs.len();
    let mut i: usize = 0;
    assert(cs@.subrange(0, n as int) =~= cs@);
    while i < n && cs[i] == '\0'
        invariant
            n == cs@.len(),
            i <= n,
            trim_start(cs@, '\0') == trim_start(cs@.subrange(i as int, n as int), '\0'),
        decreases n - i,
    {
        assert(cs@.subrange(i as int, n as int).drop_first() =~= cs@.subrange(i + 1, n as int));
        i = i + 1;
    }
    let ghost st = cs@.subrange(i as int, n as int);
    assert(trim_start(st, '\0') == st);
    let mut j: usize = n;
    assert(st.subrange(0, (j - i) as int) =~= st);
    while j > i && cs[j - 1] == '\0'
        invariant
            i <= j <= n,
            n == cs@.len(),
            st == cs@.subrange(i as int, n as int),
            trim_end(st, '\0') == trim_end(cs@.subrange(i as int, j as int), '\0'),
        decreases j,
    {
        assert(cs@.subrange(i as int, j as int).drop_last() =~= cs@.subrange(i as int, j - 1));
        j = j - 1;
    }
    let trimmed = vstd::slice::slice_subrange(cs.as_slice(), i, j);
    assert(trimmed@ =~= cs@.subrange(i as int, j as int));
    let expected = chars_of("GBXRemote 2");
    chars_eq(trimmed, expected.as_slice())
}

/// The request that authenticates the controller as `SuperAdmin`.
pub open spec fn authenticate_spec(password: Seq<char>) -> Seq<char> {
    minify("Authenticate"@, seq![Param::Str("SuperAdmin"@), Param::Str(password)])
}

/// The minified request that authenticates the controller as
/// `SuperAdmin` with a password: the password always goes as a string.
pub fn authenticate_request(password: &str) -> (res: String)
    ensures
        res@ == authenticate_spec(password@),
        res@ == "\nmc\nmn Authenticate\npa\npaa va str SuperAdmin\npaa va str "@ + password@,
{
    let params = vec![Value::Str("SuperAdmin".to_owned()), Value::Str(password.to_owned())];
    assert(params@.map_values(|v: Value| v@) =~= seq![
        Param::Str("SuperAdmin"@),
        Param::Str(password@),
    ]);
    proof {
        lemma_authenticate_text(password@);
    }
    minify_request("Authenticate", params.as_slice())
}

/// The authenticate request, written out.
proof fn lemma_authenticate_text(password: Seq<char>)
    ensures
        authenticate_spec(password)
            == "\nmc\nmn Authenticate\npa\npaa va str SuperAdmin\npaa va str "@ + password,
{
    let m = "Authenticate"@;
    let first = seq![Param::Str("SuperAdmin"@)];
    lemma_minify_push(m, Seq::empty(), Param::Str("SuperAdmin"@));
    lemma_minify_push(m, first, Param::Str(password));
    assert(Seq::<Param>::empty().push(Param::Str("SuperAdmin"@)) =~= first);
    assert(first.push(Param::Str(password)) =~= seq![
        Param::Str("SuperAdmin"@),
        Param::Str(password),
    ]);
    reveal_strlit("\nmc\nmn ");
    reveal_strlit("Authenticate");
    reveal_strlit("\npa");
    reveal_strlit("\n");
    reveal_strlit("paa va ");
    reveal_strlit("str ");
    reveal_strlit("SuperAdmin");
    reveal_strlit("\nmc\nmn Authenticate\npa\npaa va str SuperAdmin\npaa va str ");
    assert(authenticate_spec(password) =~= "\nmc\nmn Authenticate\npa\npaa va str SuperAdmin\npaa va str "@
        + password);
}

/// Text that lacks one element of a pattern does not hold the pattern.
proof fn lemma_lacks_piece(s: Seq<char>, p: Seq<char>, j: int)
    requires
        0 <= j < p.len(),
        lacks(s, p[j]),
    ensures
        !contains(s, p),
{
    assert forall|i: int| !occurs_at(s, p, i) by {
        if occurs_at(s, p, i) {
            assert(s.subrange(i, i + p.len())[j] == s[i + j]);
        }
    }
}

/// Whatever the password (without a line break, `str ` or `paa va `), the
/// authenticate request expands to the call of `Authenticate` with two
/// string parameters, `SuperAdmin` and the password unchanged.
pub proof fn lemma_authenticate_expands(password: Seq<char>)
    requires
        plain_value(password, "str "@),
    ensures
        xform_defined(authenticate_spec(password)),
        xform_spec(authenticate_spec(password)) == method_call(
            "Authenticate"@,
            seq![Param::Str("SuperAdmin"@), Param::Str(password)],
        ),
{
    reveal_strlit("Authenticate");
    reveal_strlit("SuperAdmin");
    reveal_strlit("\n");
    reveal_strlit("mn ");
    reveal_strlit("str ");
    reveal_strlit("paa va ");
    let params = seq![Param::Str("SuperAdmin"@), Param::Str(password)];
    assert(lacks("Authenticate"@, '\n'));
    lemma_lacks_piece("Authenticate"@, "\n"@, 0);
    assert(lacks("Authenticate"@, 'm'));
    lemma_lacks_piece("Authenticate"@, "mn "@, 0);
    assert(lacks("SuperAdmin"@, '\n'));
    lemma_lacks_piece("SuperAdmin"@, "\n"@, 0);
    assert(lacks("SuperAdmin"@, 's'));
    lemma_lacks_piece("SuperAdmin"@, "str "@, 0);
    assert(lacks("SuperAdmin"@, 'v'));
    lemma_lacks_piece("SuperAdmin"@, "paa va "@, 4);
    assert(request_fits("Authenticate"@, params));
    lemma_xform_request("Authenticate"@, params);
}

/// The request that asks the server for callbacks.
pub open spec fn enable_callbacks_spec() -> Seq<char> {
    minify("EnableCallbacks"@, seq![Param::Bool(true)])
}

/// The minified request that asks the server for callbacks.
pub fn enable_callbacks_request() -> (res: String)
    ensures
        res@ == enable_callbacks_spec(),
{
    let params = vec![Value::Bool(true)];
    assert(params@.map_values(|v: Value| v@) =~= seq![Param::Bool(true)]);
    minify_request("EnableCallbacks", params.as_slice())
}


/// The number that four little-endian bytes stand for.
pub open spec fn le_value(b: Seq<u8>) -> int {
    b[0] + 256 * b[1] + 65536 * b[2] + 16777216 * b[3]
}

proof fn lemma_le_roundtrip(x: u32)
    ensures
        le_value(le_bytes(x)) == x,
{
    let b = le_bytes(x);
    assert(b[0] == x % 256);
    assert(b[1] == (x / 256) % 256);
    assert(b[2] == (x / 65536) % 256);
    assert(b[3] == (x / 16777216) % 256);
    assert(x % 256 + 256 * ((x / 256) % 256) + 65536 * ((x / 65536) % 256) + 16777216 * ((x
        / 16777216) % 256) == x) by (nonlinear_arith);
}

/// A framed request carries the payload after an eight-byte header whose
/// first four bytes, read little-endian, give the payload's length cut to
/// 32 bits and whose last four give the request handle.
pub proof fn lemma_frame_header(payload: Seq<u8>)
    ensures
        frame_spec(payload).len() == payload.len() + 8,
        frame_spec(payload).subrange(8, frame_spec(payload).len() as int) == payload,
        le_value(frame_spec(payload).subrange(0, 4)) == payload.len() as u32,
        le_value(frame_spec(payload).subrange(4, 8)) == request_handle(),
{
    let f = frame_spec(payload);
    lemma_le_roundtrip(payload.len() as u32);
    lemma_le_roundtrip(request_handle());
    assert(f.subrange(0, 4) =~= le_bytes(payload.len() as u32));
    assert(f.subrange(4, 8) =~= le_bytes(request_handle()));
    assert(f.subrange(8, f.len() as int) =~= payload);
}

} // verus!
