//! Binary framing of mutation records.
//!
//! A record is one tag byte followed by length-prefixed UTF-8 fields; every
//! length is a little-endian `u64`. Records concatenate with no separator, and
//! the decoder reports where the next record begins.
use crate::error::TError;
use vstd::bytes::{spec_u64_from_le_bytes, spec_u64_to_le_bytes, u64_from_le_bytes, u64_to_le_bytes};
use vstd::prelude::*;
use vstd::slice::{slice_subrange, slice_to_vec};
use vstd::utf8::{decode_utf8, encode_utf8, valid_utf8};

verus! {

broadcast use vstd::utf8::encode_utf8_decode_utf8, vstd::utf8::encode_utf8_valid_utf8;

pub const TAG_PUT: u8 = 0;

pub const TAG_GET: u8 = 1;

pub const TAG_RM: u8 = 2;

/// A mutation record. `Get` belongs to the vocabulary but is never written by the store.
pub enum Actions {
    Put { key: String, value: String },
    Get { key: String },
    Rm { key: String },
}

/// Mathematical model of a record.
pub enum ActionView {
    Put { key: Seq<char>, value: Seq<char> },
    Get { key: Seq<char> },
    Rm { key: Seq<char> },
}

impl View for Actions {
    type V = ActionView;

    open spec fn view(&self) -> ActionView {
        match self {
            Actions::Put { key, value } => ActionView::Put { key: key@, value: value@ },
            Actions::Get { key } => ActionView::Get { key: key@ },
            Actions::Rm { key } => ActionView::Rm { key: key@ },
        }
    }
}

impl Actions {
    pub fn set(key: String, value: String) -> (r: Actions)
        ensures
            r@ == (ActionView::Put { key: key@, value: value@ }),
    {
        Actions::Put { key, value }
    }

    pub fn get(key: String) -> (r: Actions)
        ensures
            r@ == (ActionView::Get { key: key@ }),
    {
        Actions::Get { key }
    }

    pub fn rm(key: String) -> (r: Actions)
        ensures
            r@ == (ActionView::Rm { key: key@ }),
    {
        Actions::Rm { key }
    }
}

/// A text field: its UTF-8 length as eight little-endian bytes, then its UTF-8 bytes.
pub open spec fn spec_field(s: Seq<char>) -> Seq<u8> {
    spec_u64_to_le_bytes(encode_utf8(s).len() as u64) + encode_utf8(s)
}

pub open spec fn spec_encode(a: ActionView) -> Seq<u8> {
    match a {
        ActionView::Put { key, value } => seq![TAG_PUT] + spec_field(key) + spec_field(value),
        ActionView::Get { key } => seq![TAG_GET] + spec_field(key),
        ActionView::Rm { key } => seq![TAG_RM] + spec_field(key),
    }
}

/// A record can be framed when each of its fields has a length that fits in a `u64`.
pub open spec fn encodable(a: ActionView) -> bool {
    match a {
        ActionView::Put { key, value } => encode_utf8(key).len() <= u64::MAX && encode_utf8(value).len()
            <= u64::MAX,
        ActionView::Get { key } => encode_utf8(key).len() <= u64::MAX,
        ActionView::Rm { key } => encode_utf8(key).len() <= u64::MAX,
    }
}

/// What the decoder finds at a position of a byte stream.
pub enum DecodeView {
    /// A whole record, and the position just past it.
    Record(ActionView, int),
    /// The position is the end of the stream.
    End,
    /// The stream ends inside a record.
    Truncated,
    /// The tag byte names no known record.
    BadTag,
    /// A field's bytes are not UTF-8.
    BadText,
}

pub open spec fn read_len(buf: Seq<u8>, at: int) -> int {
    spec_u64_from_le_bytes(buf.subrange(at, at + 8)) as int
}

/// The field starting at `at` lies wholly inside `buf`.
pub open spec fn field_fits(buf: Seq<u8>, at: int) -> bool {
    at + 8 <= buf.len() && at + 8 + read_len(buf, at) <= buf.len()
}

pub open spec fn field_end(buf: Seq<u8>, at: int) -> int {
    at + 8 + read_len(buf, at)
}

pub open spec fn field_bytes(buf: Seq<u8>, at: int) -> Seq<u8> {
    buf.subrange(at + 8, field_end(buf, at))
}

#[verifier::opaque]
pub open spec fn spec_decode(buf: Seq<u8>, start: int) -> DecodeView {
    if start >= buf.len() {
        DecodeView::End
    } else if buf[start] > TAG_RM {
        DecodeView::BadTag
    } else if !field_fits(buf, start + 1) {
        DecodeView::Truncated
    } else {
        let kb = field_bytes(buf, start + 1);
        let at = field_end(buf, start + 1);
        if buf[start] == TAG_PUT {
            if !field_fits(buf, at) {
                DecodeView::Truncated
            } else if !valid_utf8(kb) || !valid_utf8(field_bytes(buf, at)) {
                DecodeView::BadText
            } else {
                DecodeView::Record(
                    ActionView::Put {
                        key: decode_utf8(kb),
                        value: decode_utf8(field_bytes(buf, at)),
                    },
                    field_end(buf, at),
                )
            }
        } else if !valid_utf8(kb) {
            DecodeView::BadText
        } else if buf[start] == TAG_GET {
            DecodeView::Record(ActionView::Get { key: decode_utf8(kb) }, at)
        } else {
            DecodeView::Record(ActionView::Rm { key: decode_utf8(kb) }, at)
        }
    }
}

/// Relies on `String::from_utf8`: `Ok` exactly when the bytes are valid UTF-8,
/// and then the string holds the characters they encode.
#[verifier::external_body]
fn string_from_utf8(bytes: Vec<u8>) -> (r: Option<String>)
    ensures
        r is Some <==> valid_utf8(bytes@),
        r is Some ==> r->Some_0@ == decode_utf8(bytes@),
{
    String::from_utf8(bytes).ok()
}

fn append_bytes(out: &mut Vec<u8>, b: &[u8])
    ensures
        final(out)@ == old(out)@ + b@,
{
    let mut i: usize = 0;
    while i < b.len()
        invariant
            i <= b@.len(),
            out@ == old(out)@ + b@.subrange(0, i as int),
        decreases b@.len() - i,
    {
        out.push(b[i]);
        i = i + 1;
        assert(out@ =~= old(out)@ + b@.subrange(0, i as int));
    }
    assert(b@.subrange(0, i as int) =~= b@);
}

fn append_field(out: &mut Vec<u8>, s: &String)
    requires
        encode_utf8(s@).len() <= u64::MAX,
    ensures
        final(out)@ == old(out)@ + spec_field(s@),
{
    let b = s.as_str().as_bytes();
    let n = u64_to_le_bytes(b.len() as u64);
    append_bytes(out, n.as_slice());
    append_bytes(out, b);
    assert(final(out)@ =~= old(out)@ + spec_field(s@));
}

/// Encodes a record into its byte form.
pub fn encode(a: &Actions) -> (r: Vec<u8>)
    requires
        encodable(a@),
    ensures
        r@ == spec_encode(a@),
{
    let mut out: Vec<u8> = Vec::new();
    match a {
        Actions::Put { key, value } => {
            out.push(TAG_PUT);
            append_field(&mut out, key);
            append_field(&mut out, value);
            assert(out@ =~= spec_encode(a@));
        },
        Actions::Get { key } => {
            out.push(TAG_GET);
            append_field(&mut out, key);
            assert(out@ =~= spec_encode(a@));
        },
        Actions::Rm { key } => {
            out.push(TAG_RM);
            append_field(&mut out, key);
            assert(out@ =~= spec_encode(a@));
        },
    }
    out
}

/// Where a field that starts at `at` ends, if it lies wholly inside `buf`.
fn field_span(buf: &[u8], at: usize) -> (r: Option<usize>)
    ensures
        r is Some <==> field_fits(buf@, at as int),
        r is Some ==> r->Some_0 == field_end(buf@, at as int),
{
    if at > buf.len() || buf.len() - at < 8 {
        return None;
    }
    let n = u64_from_le_bytes(slice_subrange(buf, at, at + 8));
    let room = buf.len() - at - 8;
    if n > room as u64 {
        None
    } else {
        Some(at + 8 + n as usize)
    }
}

/// Reads the text of a field known to lie inside `buf`.
fn field_text(buf: &[u8], at: usize, end: usize) -> (r: Option<String>)
    requires
        field_fits(buf@, at as int),
        end == field_end(buf@, at as int),
    ensures
        r is Some <==> valid_utf8(field_bytes(buf@, at as int)),
        r is Some ==> r->Some_0@ == decode_utf8(field_bytes(buf@, at as int)),
{
    let bytes = slice_to_vec(slice_subrange(buf, at + 8, end));
    string_from_utf8(bytes)
}

/// Exec form of what the decoder finds.
pub enum Decoded {
    Record(Actions, usize),
    End,
    Truncated,
}

/// Decodes the record that starts at `start`.
///
/// Fails with `FaultyCommandInLog` on an unknown tag and with `Codec` when a
/// field is not UTF-8.
pub fn decode(buf: &[u8], start: usize) -> (r: Result<Decoded, TError>)
    ensures
        match spec_decode(buf@, start as int) {
            DecodeView::Record(a, end) => r matches Ok(Decoded::Record(x, e)) && x@ == a && e == end,
            DecodeView::End => r matches Ok(Decoded::End),
            DecodeView::Truncated => r matches Ok(Decoded::Truncated),
            DecodeView::BadTag => r matches Err(TError::FaultyCommandInLog),
            DecodeView::BadText => r matches Err(TError::Codec),
        },
{
    proof {
        reveal(spec_decode);
    }
    if start >= buf.len() {
        return Ok(Decoded::End);
    }
    let tag = buf[start];
    if tag > TAG_RM {
        return Err(TError::FaultyCommandInLog);
    }
    let at = match field_span(buf, start + 1) {
        Some(e) => e,
        None => return Ok(Decoded::Truncated),
    };
    if tag == TAG_PUT {
        let end = match field_span(buf, at) {
            Some(e) => e,
            None => return Ok(Decoded::Truncated),
        };
        let key = field_text(buf, start + 1, at);
        let value = field_text(buf, at, end);
        match (key, value) {
            (Some(key), Some(value)) => Ok(Decoded::Record(Actions::Put { key, value }, end)),
            _ => Err(TError::Codec),
        }
    } else {
        match field_text(buf, start + 1, at) {
            Some(key) => {
                if tag == TAG_GET {
                    Ok(Decoded::Record(Actions::Get { key }, at))
                } else {
                    Ok(Decoded::Record(Actions::Rm { key }, at))
                }
            },
            None => Err(TError::Codec),
        }
    }
}

proof fn lemma_field_decode(pre: Seq<u8>, s: Seq<char>, rest: Seq<u8>)
    requires
        encode_utf8(s).len() <= u64::MAX,
    ensures
        field_fits(pre + spec_field(s) + rest, pre.len() as int),
        field_end(pre + spec_field(s) + rest, pre.len() as int) == pre.len() + spec_field(s).len(),
        field_bytes(pre + spec_field(s) + rest, pre.len() as int) == encode_utf8(s),
        spec_field(s).len() == 8 + encode_utf8(s).len(),
{
    vstd::bytes::lemma_auto_spec_u64_to_from_le_bytes();
    let buf = pre + spec_field(s) + rest;
    let p = pre.len() as int;
    let n = encode_utf8(s).len();
    assert(buf.subrange(p, p + 8) =~= spec_u64_to_le_bytes(n as u64));
    assert(buf.subrange(p + 8, p + 8 + n) =~= encode_utf8(s));
}

/// Decoding the bytes of an encoded record, whatever precedes and follows
/// them, gives back that record and the position just past it.
pub proof fn lemma_decode_encode(pre: Seq<u8>, a: ActionView, rest: Seq<u8>)
    requires
        encodable(a),
    ensures
        spec_decode(pre + spec_encode(a) + rest, pre.len() as int) == DecodeView::Record(
            a,
            pre.len() + spec_encode(a).len() as int,
        ),
{
    reveal(spec_decode);
    let buf = pre + spec_encode(a) + rest;
    let p = pre.len() as int;
    match a {
        ActionView::Put { key, value } => {
            lemma_field_decode(pre + seq![TAG_PUT], key, spec_field(value) + rest);
            assert(buf =~= pre + seq![TAG_PUT] + spec_field(key) + (spec_field(value) + rest));
            lemma_field_decode(pre + seq![TAG_PUT] + spec_field(key), value, rest);
            assert(buf =~= pre + seq![TAG_PUT] + spec_field(key) + spec_field(value) + rest);
            assert(buf[p] == TAG_PUT);
        },
        ActionView::Get { key } => {
            lemma_field_decode(pre + seq![TAG_GET], key, rest);
            assert(buf =~= pre + seq![TAG_GET] + spec_field(key) + rest);
            assert(buf[p] == TAG_GET);
        },
        ActionView::Rm { key } => {
            lemma_field_decode(pre + seq![TAG_RM], key, rest);
            assert(buf =~= pre + seq![TAG_RM] + spec_field(key) + rest);
            assert(buf[p] == TAG_RM);
        },
    }
}

proof fn lemma_field_sound(buf: Seq<u8>, at: int)
    requires
        0 <= at,
        field_fits(buf, at),
        valid_utf8(field_bytes(buf, at)),
    ensures
        buf.subrange(at, field_end(buf, at)) == spec_field(decode_utf8(field_bytes(buf, at))),
        encode_utf8(decode_utf8(field_bytes(buf, at))).len() <= u64::MAX,
{
    vstd::bytes::lemma_auto_spec_u64_to_from_le_bytes();
    vstd::utf8::decode_utf8_encode_utf8(field_bytes(buf, at));
    let len_bytes = buf.subrange(at, at + 8);
    assert(spec_u64_to_le_bytes(spec_u64_from_le_bytes(len_bytes)) == len_bytes);
    assert(buf.subrange(at, field_end(buf, at)) =~= len_bytes + field_bytes(buf, at));
}

/// Whatever the decoder returns as a record is exactly the encoding of that
/// record, found at the start position.
pub proof fn lemma_decode_sound(buf: Seq<u8>, start: int)
    requires
        0 <= start,
        spec_decode(buf, start) is Record,
    ensures
        ({
            let (a, end) = (spec_decode(buf, start)->Record_0, spec_decode(buf, start)->Record_1);
            &&& start < end <= buf.len()
            &&& buf.subrange(start, end) == spec_encode(a)
            &&& encodable(a)
        }),
{
    reveal(spec_decode);
    let at = field_end(buf, start + 1);
    lemma_field_sound(buf, start + 1);
    if buf[start] == TAG_PUT {
        lemma_field_sound(buf, at);
        let end = field_end(buf, at);
        assert(buf.subrange(start, end) =~= seq![buf[start]] + buf.subrange(start + 1, at)
            + buf.subrange(at, end));
    } else {
        assert(buf.subrange(start, at) =~= seq![buf[start]] + buf.subrange(start + 1, at));
    }
}

/// At or past the end of a stream the decoder finds its end.
pub proof fn lemma_decode_at_end(buf: Seq<u8>, start: int)
    requires
        start >= buf.len(),
    ensures
        spec_decode(buf, start) == DecodeView::End,
{
    reveal(spec_decode);
}

/// A record that lies whole inside `buf` decodes the same whatever follows `buf`.
pub proof fn lemma_decode_extend(buf: Seq<u8>, ext: Seq<u8>, start: int)
    requires
        0 <= start,
        spec_decode(buf, start) is Record,
    ensures
        spec_decode(buf + ext, start) == spec_decode(buf, start),
{
    lemma_decode_sound(buf, start);
    let a = spec_decode(buf, start)->Record_0;
    let end = spec_decode(buf, start)->Record_1;
    let pre = buf.subrange(0, start);
    let rest = buf.subrange(end, buf.len() as int) + ext;
    assert(buf + ext =~= pre + spec_encode(a) + rest);
    lemma_decode_encode(pre, a, rest);
}

} // verus!
