//! Trusted boundary to the `encoding_rs` charset codec.
//!
//! The decoding itself is done by `encoding_rs`; this module declares the two
//! opaque codec types and gives each call the library makes a contract, stated
//! over a handful of uninterpreted spec functions that name what the codec
//! computes: the text a whole byte stream decodes to, and the running state of
//! one streaming decoder (which encoding it decodes for, which bytes it has
//! consumed, which text it has produced).

use vstd::prelude::*;

verus! {

use vstd::utf8::valid_utf8;

#[verifier::external_type_specification]
#[verifier::external_body]
pub struct ExEncoding(encoding_rs::Encoding);

#[verifier::external_type_specification]
#[verifier::external_body]
pub struct ExDecoder(encoding_rs::Decoder);

/// The text that decoding `bytes` as one complete stream under encoding `e`
/// yields, with malformed sequences replaced by U+FFFD.
pub uninterp spec fn decode_full(e: &'static encoding_rs::Encoding, bytes: Seq<u8>) -> Seq<char>;

/// The encoding a streaming decoder was created for.
pub uninterp spec fn decoder_encoding(d: encoding_rs::Decoder) -> &'static encoding_rs::Encoding;

/// The bytes a streaming decoder has consumed so far in its stream.
pub uninterp spec fn decoder_fed(d: encoding_rs::Decoder) -> Seq<u8>;

/// The text a streaming decoder has produced so far in its stream.
pub uninterp spec fn decoder_emitted(d: encoding_rs::Decoder) -> Seq<char>;

/// Whether `encoding_rs` reports `e` as ASCII-compatible.
pub uninterp spec fn enc_ascii_compatible(e: &'static encoding_rs::Encoding) -> bool;

/// Whether a streaming decoder has finished its stream (a finishing call was
/// made); `encoding_rs` refuses further use of such a decoder.
pub uninterp spec fn decoder_finished(d: encoding_rs::Decoder) -> bool;

/// The registry member (if any) that `Encoding::for_label` resolves a label
/// to.
pub uninterp spec fn for_label_of(label: Seq<u8>) -> Option<&'static encoding_rs::Encoding>;

/// A byte sequence made of ASCII byte values only.
pub open spec fn is_ascii_bytes(b: Seq<u8>) -> bool {
    forall|k: int| 0 <= k < b.len() ==> b[k] < 0x80
}

/// Relies on the `encoding_rs::UTF_8` registry member: it is
/// ASCII-compatible; its label resolves back to it; its decoder, without BOM
/// handling, maps valid UTF-8 input to exactly the text those bytes encode;
/// and — because valid UTF-8 ends at a scalar boundary, after which the
/// decoder is back in its initial state — decoding distributes over a valid
/// prefix.
#[verifier::external_body]
pub fn utf8_encoding() -> (r: &'static encoding_rs::Encoding)
    ensures
        enc_ascii_compatible(r),
        for_label_of(vstd::utf8::encode_utf8("UTF-8"@)) == Some(r),
        decode_full(r, Seq::<u8>::empty()) == Seq::<char>::empty(),
        forall|b: Seq<u8>| valid_utf8(b) ==> #[trigger] decode_full(r, b) == vstd::utf8::decode_utf8(b),
        forall|a: Seq<u8>, b: Seq<u8>|
            valid_utf8(a) ==> #[trigger] decode_full(r, a + b) == vstd::utf8::decode_utf8(a)
                + decode_full(r, b),
{
    encoding_rs::UTF_8
}

/// Relies on `Encoding::is_ascii_compatible`. An ASCII-compatible encoding
/// decodes a stream made of ASCII byte values to exactly those characters
/// (bytes 0x00..=0x7F map to U+0000..=U+007F; no escape sequence or
/// multi-byte lead falls in that range).
#[verifier::external_body]
pub fn encoding_is_ascii_compatible(e: &'static encoding_rs::Encoding) -> (r: bool)
    ensures
        r == enc_ascii_compatible(e),
        r ==> decode_full(e, Seq::<u8>::empty()) == Seq::<char>::empty(),
        r ==> forall|b: Seq<u8>|
            is_ascii_bytes(b) ==> #[trigger] decode_full(e, b) == b.map_values(|x: u8| x as char),
        r ==> forall|a: Seq<u8>, b: Seq<u8>|
            is_ascii_bytes(a) ==> #[trigger] decode_full(e, a + b) == a.map_values(|x: u8| x as char)
                + decode_full(e, b),
        r ==> exists|i: int|
            0 <= i < 36 && #[trigger] for_label_of(
                vstd::utf8::encode_utf8(crate::encoding::registry_label(i)),
            ) == Some(e),
{
    e.is_ascii_compatible()
}

/// Relies on `Encoding`'s `PartialEq`: registry members are singletons, so
/// reference equality coincides with equality of the descriptors.
#[verifier::external_body]
pub fn encodings_equal(a: &'static encoding_rs::Encoding, b: &'static encoding_rs::Encoding) -> (r:
    bool)
    ensures
        r == (a == b),
{
    a == b
}

/// Relies on `Encoding::for_label`: its result depends on the label alone.
#[verifier::external_body]
pub fn lookup_encoding(label: &[u8]) -> (r: Option<&'static encoding_rs::Encoding>)
    ensures
        r == for_label_of(label@),
{
    encoding_rs::Encoding::for_label(label)
}

/// Relies on `Encoding::new_decoder_without_bom_handling`: a fresh streaming
/// decoder for `e` that has consumed no input and produced no output.
#[verifier::external_body]
pub fn new_stream_decoder(e: &'static encoding_rs::Encoding) -> (d: encoding_rs::Decoder)
    ensures
        decoder_encoding(d) == e,
        decoder_fed(d) == Seq::<u8>::empty(),
        decoder_emitted(d) == Seq::<char>::empty(),
        !decoder_finished(d),
{
    e.new_decoder_without_bom_handling()
}

/// Relies on `Encoding::utf8_valid_up_to`: the index of the first byte that
/// makes the input malformed as UTF-8, or the length of the slice if it is
/// entirely valid; that is, the length of the longest valid UTF-8 prefix.
#[verifier::external_body]
pub fn utf8_valid_up_to(b: &[u8]) -> (r: usize)
    ensures
        r <= b@.len(),
        valid_utf8(b@.take(r as int)),
        forall|m: int| r < m <= b@.len() ==> !valid_utf8(b@.take(m)),
{
    encoding_rs::Encoding::utf8_valid_up_to(b)
}

/// Relies on `core::str::from_utf8`: succeeds exactly on valid UTF-8 and
/// returns the string viewing those same bytes.
#[verifier::external_body]
pub fn bytes_as_utf8(b: &[u8]) -> (r: Option<&str>)
    ensures
        r is Some <==> valid_utf8(b@),
        r matches Some(s) ==> vstd::utf8::encode_utf8(s@) == b@,
{
    core::str::from_utf8(b).ok()
}

/// Relies on `Decoder::decode_to_str`, called here on a fresh all-zero buffer
/// of `cap` bytes. Per its documentation it consumes input and appends
/// replacement-decoded text until the input is exhausted (`finished`) or the
/// output buffer is nearly full; the bytes consumed and text produced extend
/// the decoder's stream; a finishing call with `last` completes the stream,
/// so the text produced over the whole stream is the decode of all bytes fed.
/// A decoder buffers at most a handful of bytes between calls, so with the
/// required buffer space a not-`finished` return has consumed at least one
/// byte, and an empty `src` always finishes. A finishing call (`last` and
/// `finished`) ends the decoder's life cycle: `encoding_rs` refuses any
/// further call on it, so one must not be passed in here again.
#[verifier::external_body]
pub fn decode_step(d: &mut encoding_rs::Decoder, src: &[u8], cap: usize, last: bool) -> (r: (
    bool,
    usize,
    String,
))
    requires
        cap >= 32,
        !decoder_finished(*old(d)),
    ensures
        decoder_encoding(*final(d)) == decoder_encoding(*old(d)),
        decoder_finished(*final(d)) == (r.0 && last),
        vstd::utf8::encode_utf8(r.2@).len() <= cap,
        r.1 <= src@.len(),
        decoder_fed(*final(d)) == decoder_fed(*old(d)) + src@.take(r.1 as int),
        decoder_emitted(*final(d)) == decoder_emitted(*old(d)) + r.2@,
        r.0 ==> r.1 == src@.len(),
        !r.0 ==> r.1 >= 1,
        src@.len() == 0 ==> r.0,
        r.0 && last ==> decoder_emitted(*final(d)) == decode_full(
            decoder_encoding(*old(d)),
            decoder_fed(*final(d)),
        ),
{
    let mut buffer = String::from_utf8(vec![0u8; cap]).unwrap();
    let (status, read, written, _) = d.decode_to_str(src, buffer.as_mut_str(), last);
    let finished = status == encoding_rs::CoderResult::InputEmpty;
    let text = buffer.get(..written).unwrap_or_default().to_owned();
    (finished, read, text)
}

/// Relies on `AtomicUsize::load` (relaxed): returns a value some store put
/// there; nothing is assumed about which.
#[verifier::external_body]
pub fn slot_load(a: &std::sync::atomic::AtomicUsize) -> (r: usize) {
    a.load(std::sync::atomic::Ordering::Relaxed)
}

/// Relies on `AtomicUsize::store` (relaxed): replaces the stored value in one
/// atomic step; never blocks, never fails.
#[verifier::external_body]
pub fn slot_store(a: &std::sync::atomic::AtomicUsize, v: usize) {
    a.store(v, std::sync::atomic::Ordering::Relaxed)
}

} // verus!
