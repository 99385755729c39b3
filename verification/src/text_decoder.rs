//! The per-segment streaming decoder: raw byte chunks in, UTF-8 text chunks
//! out through a caller-supplied sink.

use vstd::prelude::*;

verus! {

use crate::codec::{
    bytes_as_utf8, decode_full, decode_step, decoder_emitted, decoder_encoding, decoder_fed,
    is_ascii_bytes, new_stream_decoder, utf8_valid_up_to,
};
use crate::encoding::{AsciiCompatibleEncoding, SharedEncoding};
use vstd::utf8::{encode_utf8, valid_utf8};

/// The error a sink raises to abort decoding; it crosses `feed_text` and
/// `flush_pending` verbatim.
#[derive(Clone, Copy, PartialEq, Eq, Structural, Debug)]
pub struct SinkError {
    pub code: u64,
}

/// One sink invocation, as recorded in a sink's ghost log: the text handed
/// over, the end-of-segment flag, and the charset reported for it.
pub ghost struct SinkEvent {
    pub text: Seq<char>,
    pub last: bool,
    pub encoding: AsciiCompatibleEncoding,
}

/// The texts of a run of sink invocations, in order.
pub open spec fn texts_concat(evs: Seq<SinkEvent>) -> Seq<char>
    decreases evs.len(),
{
    if evs.len() == 0 {
        Seq::empty()
    } else {
        texts_concat(evs.drop_last()) + evs.last().text
    }
}

/// The consumer of decoded text. Implementations keep a ghost log of the
/// invocations they accepted, so that the decoder's contracts can speak about
/// the whole run of texts a segment produced.
pub trait TextSink {
    spec fn log(&self) -> Seq<SinkEvent>;

    /// Whether this sink currently accepts every chunk. While it does,
    /// `accept` is bound to succeed, which in turn obliges the decoder to
    /// succeed on its behalf.
    spec fn accepting(&self) -> bool;

    /// Consumes one decoded text chunk. `last` marks the end of a segment.
    /// On success the chunk is appended to the log; on failure the log is
    /// unchanged and the decoder aborts the current call.
    fn accept(&mut self, text: &str, last: bool, encoding: AsciiCompatibleEncoding) -> (r: Result<
        (),
        SinkError,
    >)
        ensures
            r is Ok ==> final(self).log() == old(self).log().push(
                SinkEvent { text: text@, last, encoding },
            ),
            r is Err ==> final(self).log() == old(self).log(),
            old(self).accepting() ==> r is Ok,
            final(self).accepting() == old(self).accepting(),
    ;
}

/// The state of one in-progress streaming decode: its charset descriptor,
/// the bytes it has consumed, and the text it has produced so far.
pub ghost struct DecView {
    pub enc: &'static encoding_rs::Encoding,
    pub fed: Seq<u8>,
    pub emitted: Seq<char>,
}

pub open spec fn dec_view(d: encoding_rs::Decoder) -> DecView {
    DecView { enc: decoder_encoding(d), fed: decoder_fed(d), emitted: decoder_emitted(d) }
}

/// A streaming decode state just created for `enc`.
pub open spec fn fresh_view(enc: AsciiCompatibleEncoding) -> DecView {
    DecView { enc: enc.raw, fed: Seq::empty(), emitted: Seq::empty() }
}

/// What one slow-path run guarantees: every event carries the snapshot
/// charset; only a finishing run marks its final event as last; and the text
/// handed out extends the decode state so that a finished segment's total
/// output is exactly the full decode of all bytes the segment fed.
pub open spec fn slow_post(
    d0: DecView,
    input: Seq<u8>,
    last: bool,
    enc: AsciiCompatibleEncoding,
    cap: int,
    evs: Seq<SinkEvent>,
    post: Option<DecView>,
) -> bool {
    &&& (forall|k: int| 0 <= k < evs.len() ==> (#[trigger] evs[k]).encoding == enc)
    &&& (forall|k: int| 0 <= k < evs.len() - 1 ==> !(#[trigger] evs[k]).last)
    &&& (forall|k: int|
        0 <= k < evs.len() ==> encode_utf8((#[trigger] evs[k]).text).len() <= cap)
    &&& if last {
        &&& evs.len() >= 1
        &&& evs.last().last
        &&& post is None
        &&& d0.emitted + texts_concat(evs) == decode_full(d0.enc, d0.fed + input)
    } else {
        &&& (forall|k: int| 0 <= k < evs.len() ==> !(#[trigger] evs[k]).last)
        &&& match post {
            Some(d1) => d1.enc == d0.enc && d1.fed == d0.fed + input && d1.emitted == d0.emitted
                + texts_concat(evs),
            None => false,
        }
    }
}

/// The fast path's split point: for UTF-8, the longest valid UTF-8 prefix;
/// for any other (ASCII-compatible) charset, the longest ASCII prefix.
pub open spec fn fast_prefix(utf8: bool, b: Seq<u8>, v: int) -> bool {
    if utf8 {
        &&& 0 <= v <= b.len()
        &&& valid_utf8(b.take(v))
        &&& (forall|m: int| v < m <= b.len() ==> !valid_utf8(b.take(m)))
    } else {
        &&& 0 <= v <= b.len()
        &&& is_ascii_bytes(b.take(v))
        &&& (v < b.len() ==> b[v] >= 0x80)
    }
}

/// What one successful `feed_text` call guarantees, given the charset
/// snapshot `enc` taken at its entry and the events `evs` it appended to the
/// sink's log.
pub open spec fn feed_post(
    pre: Option<DecView>,
    post: Option<DecView>,
    input: Seq<u8>,
    last: bool,
    enc: AsciiCompatibleEncoding,
    cap: int,
    evs: Seq<SinkEvent>,
) -> bool {
    match pre {
        // A pending decode forgoes the fast path entirely.
        Some(d0) => slow_post(d0, input, last, enc, cap, evs, post),
        None => if input.len() == 0 {
            // An empty chunk with nothing pending is a no-op.
            evs.len() == 0 && post is None
        } else {
            exists|v: int|
                #[trigger] fast_prefix(enc.utf8, input, v) && feed_post_fast_case(
                    post,
                    input,
                    last,
                    enc,
                    cap,
                    evs,
                    v,
                )
        },
    }
}

/// What a call that found fast-path split point `v` guarantees.
pub open spec fn feed_post_fast_case(
    post: Option<DecView>,
    input: Seq<u8>,
    last: bool,
    enc: AsciiCompatibleEncoding,
    cap: int,
    evs: Seq<SinkEvent>,
    v: int,
) -> bool {
    if v == input.len() {
        // Zero-copy fast path over the whole chunk.
        &&& evs.len() >= 1
        &&& encode_utf8(evs[0].text) == input
        &&& evs[0].last == last
        &&& evs[0].encoding == enc
        &&& if last {
            evs.len() == 1 && post is None
        } else {
            slow_post(fresh_view(enc), Seq::empty(), false, enc, cap, evs.skip(1), post)
        }
    } else if cap <= v {
        // Emit the matched prefix, stream the remainder.
        &&& evs.len() >= 1
        &&& encode_utf8(evs[0].text) == input.take(v)
        &&& !evs[0].last
        &&& evs[0].encoding == enc
        &&& slow_post(fresh_view(enc), input.skip(v), last, enc, cap, evs.skip(1), post)
    } else {
        // A short partial match declines the fast path, preserving the slow
        // path's observable chunking.
        slow_post(fresh_view(enc), input, last, enc, cap, evs, post)
    }
}

/// An ASCII-only byte sequence is valid UTF-8, and decodes to its bytes
/// read as characters.
pub proof fn lemma_ascii_is_valid_utf8(b: Seq<u8>)
    requires
        is_ascii_bytes(b),
    ensures
        valid_utf8(b),
        vstd::utf8::decode_utf8(b) == b.map_values(|x: u8| x as char),
    decreases b.len(),
{
    if b.len() == 0 {
        assert(b.map_values(|x: u8| x as char) =~= Seq::<char>::empty());
    } else {
        let rest = b.subrange(1, b.len() as int);
        assert(vstd::utf8::is_leading_byte_width_1(b[0]));
        assert(vstd::utf8::valid_first_scalar(b));
        assert(vstd::utf8::length_of_first_scalar(b) == 1);
        assert(vstd::utf8::pop_first_scalar(b) == rest);
        assert(is_ascii_bytes(rest));
        lemma_ascii_is_valid_utf8(rest);
        let x = b[0];
        assert(x & 0x7F == x) by (bit_vector)
            requires
                x < 0x80,
        ;
        assert(vstd::utf8::decode_first_scalar(b) == x as u32);
        assert((vstd::utf8::decode_first_scalar(b) as char) == x as char);
        assert(vstd::utf8::decode_utf8(b) == seq![x as char] + vstd::utf8::decode_utf8(rest));
        assert(b.map_values(|y: u8| y as char) =~= seq![x as char] + rest.map_values(
            |y: u8| y as char,
        ));
    }
}

/// Longest prefix of `bytes` made of ASCII byte values only (what the
/// non-UTF-8 fast path may emit as-is, by ASCII compatibility).
pub fn ascii_valid_up_to(bytes: &[u8]) -> (r: usize)
    ensures
        r <= bytes@.len(),
        is_ascii_bytes(bytes@.take(r as int)),
        r < bytes@.len() ==> bytes@[r as int] >= 0x80,
{
    let mut i: usize = 0;
    while i < bytes.len()
        invariant
            i <= bytes@.len(),
            forall|j: int| 0 <= j < i ==> bytes@[j] < 0x80,
        decreases bytes@.len() - i,
    {
        if bytes[i] >= 0x80 {
            assert(is_ascii_bytes(bytes@.take(i as int)));
            return i;
        }
        i = i + 1;
    }
    assert(is_ascii_bytes(bytes@.take(i as int)));
    i
}

/// Owns one text segment's decode state: the shared charset slot, the
/// optional in-progress streaming decode, and the scratch chunking capacity
/// of the slow path.
pub struct TextDecoder {
    pub encoding: SharedEncoding,
    pub pending_text_streaming_decoder: Option<encoding_rs::Decoder>,
    pub scratch_capacity: usize,
}

impl TextDecoder {
    pub open spec fn wf(self) -> bool {
        &&& self.encoding.wf()
        &&& self.scratch_capacity >= 32
        &&& match self.pending_text_streaming_decoder {
            Some(d) => !crate::codec::decoder_finished(d),
            None => true,
        }
    }

    /// The in-progress decode, if one is pending, as its abstract state.
    pub open spec fn pending_view(self) -> Option<DecView> {
        match self.pending_text_streaming_decoder {
            Some(d) => Some(dec_view(d)),
            None => None,
        }
    }

    pub fn new(encoding: SharedEncoding) -> (r: Self)
        requires
            encoding.wf(),
        ensures
            r.wf(),
            r.pending_view() is None,
            r.encoding == encoding,
            r.scratch_capacity == 1024,
    {
        TextDecoder { encoding, pending_text_streaming_decoder: None, scratch_capacity: 1024 }
    }

    /// Feeds one chunk of a segment. Decodes as much as possible, invoking
    /// `output_handler` zero or more times, and propagates the first sink
    /// error verbatim, aborting the call.
    #[verifier::rlimit(60)]
    pub fn feed_text<S: TextSink>(
        &mut self,
        raw_input: &[u8],
        last_in_text_node: bool,
        output_handler: &mut S,
    ) -> (r: Result<(), SinkError>)
        requires
            old(self).wf(),
        ensures
            final(self).wf(),
            final(self).encoding == old(self).encoding,
            final(self).scratch_capacity == old(self).scratch_capacity,
            final(output_handler).log().len() >= old(output_handler).log().len(),
            final(output_handler).log().take(old(output_handler).log().len() as int) == old(
                output_handler,
            ).log(),
            raw_input@.len() == 0 && old(self).pending_view() is None ==> r is Ok,
            old(output_handler).accepting() ==> r is Ok,
            final(output_handler).accepting() == old(output_handler).accepting(),
            r matches Ok(()) ==> exists|enc: AsciiCompatibleEncoding|
                enc.wf() && #[trigger] feed_post(
                    old(self).pending_view(),
                    final(self).pending_view(),
                    raw_input@,
                    last_in_text_node,
                    enc,
                    old(self).scratch_capacity as int,
                    final(output_handler).log().skip(old(output_handler).log().len() as int),
                ),
            r is Err ==> exists|enc: AsciiCompatibleEncoding|
                #![auto]
                enc.wf() && (forall|k: int|
                    old(output_handler).log().len() <= k < final(output_handler).log().len() ==> (
                    #[trigger] final(output_handler).log()[k]).encoding == enc
                        && !(final(output_handler).log()[k].last)),
    {
        let ghost pre_log = output_handler.log();
        let encoding = self.encoding.get();
        let mut input: &[u8] = raw_input;

        if input.len() == 0 && self.pending_text_streaming_decoder.is_none() {
            proof {
                assert(output_handler.log().skip(pre_log.len() as int) =~= Seq::<
                    SinkEvent,
                >::empty());
                assert(output_handler.log().take(pre_log.len() as int) =~= pre_log);
                assert(feed_post(
                    old(self).pending_view(),
                    self.pending_view(),
                    raw_input@,
                    last_in_text_node,
                    old(self).encoding.initial,
                    old(self).scratch_capacity as int,
                    output_handler.log().skip(pre_log.len() as int),
                ));
            }
            return Ok(());
        }

        let taken = self.pending_text_streaming_decoder.take();
        let ghost mut fast_evs: Seq<SinkEvent> = Seq::empty();
        let ghost mut split: int = 0;
        let mut decoder: encoding_rs::Decoder;
        match taken {
            Some(d) => {
                decoder = d;
            },
            None => {
                let v: usize = if encoding.utf8 {
                    utf8_valid_up_to(input)
                } else {
                    ascii_valid_up_to(input)
                };
                proof {
                    split = v as int;
                    if !encoding.utf8 {
                        lemma_ascii_is_valid_utf8(input@.take(v as int));
                    }
                    assert(fast_prefix(encoding.utf8, input@, split));
                }
                if v == input.len() {
                    assert(input@.take(v as int) =~= input@);
                    let text = match bytes_as_utf8(input) {
                        Some(t) => t,
                        None => {
                            proof {
                                assert(false);
                            }
                            ""
                        },
                    };
                    let really_last = last_in_text_node;
                    match output_handler.accept(text, really_last, encoding) {
                        Ok(()) => {},
                        Err(e) => {
                            proof {
                                assert(output_handler.log().take(pre_log.len() as int)
                                    =~= pre_log);
                                assert(encoding.wf() && forall|k: int|
                                    pre_log.len() <= k < output_handler.log().len() ==> (
                                    #[trigger] output_handler.log()[k]).encoding == encoding && !(
                                    output_handler.log()[k]).last);
                            }
                            return Err(e);
                        },
                    }
                    proof {
                        fast_evs = seq![
                            SinkEvent { text: text@, last: really_last, encoding },
                        ];
                        assert(output_handler.log() =~= pre_log + fast_evs);
                    }
                    if really_last {
                        proof {
                            assert(output_handler.log().take(pre_log.len() as int) =~= pre_log);
                            let evs = output_handler.log().skip(pre_log.len() as int);
                            assert(evs =~= fast_evs);
                            assert(feed_post(
                                old(self).pending_view(),
                                self.pending_view(),
                                raw_input@,
                                last_in_text_node,
                                encoding,
                                old(self).scratch_capacity as int,
                                evs,
                            ));
                        }
                        return Ok(());
                    }
                    input = vstd::slice::slice_subrange(input, v, input.len());
                } else if self.scratch_capacity <= v {
                    let prefix = vstd::slice::slice_subrange(input, 0, v);
                    let text = match bytes_as_utf8(prefix) {
                        Some(t) => t,
                        None => {
                            proof {
                                assert(false);
                            }
                            ""
                        },
                    };
                    match output_handler.accept(text, false, encoding) {
                        Ok(()) => {},
                        Err(e) => {
                            proof {
                                assert(output_handler.log().take(pre_log.len() as int)
                                    =~= pre_log);
                                assert(encoding.wf() && forall|k: int|
                                    pre_log.len() <= k < output_handler.log().len() ==> (
                                    #[trigger] output_handler.log()[k]).encoding == encoding && !(
                                    output_handler.log()[k]).last);
                            }
                            return Err(e);
                        },
                    }
                    proof {
                        fast_evs = seq![SinkEvent { text: text@, last: false, encoding }];
                        assert(output_handler.log() =~= pre_log + fast_evs);
                    }
                    input = vstd::slice::slice_subrange(input, v, input.len());
                } else {
                    // Partial match below the scratch capacity: decline the
                    // fast path for this call.
                }
                decoder = new_stream_decoder(encoding.raw);
            },
        }

        let ghost d0 = dec_view(decoder);
        let ghost slow_input = input@;
        let ghost mut slow_evs: Seq<SinkEvent> = Seq::empty();
        let mut cur: &[u8] = input;
        proof {
            assert(output_handler.log() =~= pre_log + fast_evs + slow_evs);
            assert(dec_view(decoder).fed + cur@ =~= d0.fed + slow_input);
            assert(dec_view(decoder).emitted =~= d0.emitted + texts_concat(slow_evs));
        }
        #[verifier::loop_isolation(false)]
        loop
            invariant
                self.wf(),
                self.encoding == old(self).encoding,
                self.scratch_capacity == old(self).scratch_capacity,
                self.pending_text_streaming_decoder is None,
                encoding.wf(),
                output_handler.log() == pre_log + fast_evs + slow_evs,
                dec_view(decoder).enc == d0.enc,
                dec_view(decoder).fed + cur@ == d0.fed + slow_input,
                dec_view(decoder).emitted == d0.emitted + texts_concat(slow_evs),
                forall|k: int| 0 <= k < slow_evs.len() ==> !(#[trigger] slow_evs[k]).last,
                forall|k: int|
                    0 <= k < slow_evs.len() ==> (#[trigger] slow_evs[k]).encoding == encoding,
                forall|k: int|
                    0 <= k < slow_evs.len() ==> encode_utf8((#[trigger] slow_evs[k]).text).len()
                        <= self.scratch_capacity,
                !crate::codec::decoder_finished(decoder),
                output_handler.accepting() == old(output_handler).accepting(),
            decreases cur@.len(),
        {
            let (finished, read, text) = decode_step(
                &mut decoder,
                cur,
                self.scratch_capacity,
                last_in_text_node,
            );
            if !text.as_str().is_empty() || last_in_text_node {
                let really_last = last_in_text_node && finished;
                match output_handler.accept(text.as_str(), really_last, encoding) {
                    Ok(()) => {
                        proof {
                            let prev = slow_evs;
                            let ev = SinkEvent { text: text@, last: really_last, encoding };
                            slow_evs = prev.push(ev);
                            assert(prev.push(ev).drop_last() =~= prev);
                            assert(texts_concat(slow_evs) == texts_concat(prev) + text@);
                            assert(output_handler.log() =~= pre_log + fast_evs + slow_evs);
                            assert(dec_view(decoder).emitted =~= d0.emitted + texts_concat(
                                slow_evs,
                            ));
                        }
                    },
                    Err(e) => {
                        if !(finished && last_in_text_node) {
                            // The decoder can still be driven; keep it, as a
                            // mid-flight state the caller must reset or
                            // flush. A finished decoder must not be kept:
                            // the codec refuses further calls on it.
                            self.pending_text_streaming_decoder = Some(decoder);
                        }
                        proof {
                            assert(output_handler.log().take(pre_log.len() as int) =~= pre_log);
                            assert(encoding.wf() && forall|k: int|
                                pre_log.len() <= k < output_handler.log().len() ==> (
                                #[trigger] output_handler.log()[k]).encoding == encoding && !(
                                output_handler.log()[k]).last) by {
                                assert(forall|k: int|
                                    0 <= k < fast_evs.len() ==> !(#[trigger] fast_evs[k]).last
                                        && (#[trigger] fast_evs[k]).encoding == encoding);
                            }
                        }
                        return Err(e);
                    },
                }
            } else {
                proof {
                    assert(text@ =~= Seq::<char>::empty());
                    assert(dec_view(decoder).emitted =~= d0.emitted + texts_concat(slow_evs));
                }
            }
            if finished {
                assert(cur@.take(read as int) =~= cur@);
                if last_in_text_node {
                    // Segment complete: the pending state is discarded.
                } else {
                    self.pending_text_streaming_decoder = Some(decoder);
                }
                proof {
                    assert(output_handler.log().take(pre_log.len() as int) =~= pre_log);
                    let evs = output_handler.log().skip(pre_log.len() as int);
                    assert(evs =~= fast_evs + slow_evs);
                    assert(dec_view(decoder).fed =~= d0.fed + slow_input);
                    lemma_feed_assemble(
                        old(self).pending_view(),
                        self.pending_view(),
                        raw_input@,
                        last_in_text_node,
                        encoding,
                        old(self).scratch_capacity as int,
                        split,
                        d0,
                        dec_view(decoder),
                        slow_input,
                        fast_evs,
                        slow_evs,
                    );
                }
                return Ok(());
            }
            cur = vstd::slice::slice_subrange(cur, read, cur.len());
            proof {
                assert(dec_view(decoder).fed + cur@ =~= d0.fed + slow_input);
            }
        }
    }

    /// If a previous call left a decode in progress, forces it to completion
    /// by feeding an empty, last chunk; otherwise does nothing.
    pub fn flush_pending<S: TextSink>(&mut self, output_handler: &mut S) -> (r: Result<
        (),
        SinkError,
    >)
        requires
            old(self).wf(),
        ensures
            final(self).wf(),
            final(self).encoding == old(self).encoding,
            final(self).scratch_capacity == old(self).scratch_capacity,
            final(output_handler).log().len() >= old(output_handler).log().len(),
            final(output_handler).log().take(old(output_handler).log().len() as int) == old(
                output_handler,
            ).log(),
            old(output_handler).accepting() ==> r is Ok,
            final(output_handler).accepting() == old(output_handler).accepting(),
            old(self).pending_view() is None ==> r is Ok && final(output_handler).log() == old(
                output_handler,
            ).log() && final(self).pending_view() is None,
            r matches Ok(()) ==> exists|enc: AsciiCompatibleEncoding|
                enc.wf() && #[trigger] feed_post(
                    old(self).pending_view(),
                    final(self).pending_view(),
                    Seq::<u8>::empty(),
                    true,
                    enc,
                    old(self).scratch_capacity as int,
                    final(output_handler).log().skip(old(output_handler).log().len() as int),
                ),
            r is Err ==> forall|k: int|
                old(output_handler).log().len() <= k < final(output_handler).log().len()
                    ==> !(#[trigger] final(output_handler).log()[k]).last,
    {
        if self.pending_text_streaming_decoder.is_some() {
            let empty: Vec<u8> = Vec::new();
            let r = self.feed_text(empty.as_slice(), true, output_handler);
            r
        } else {
            proof {
                let evs = output_handler.log().skip(output_handler.log().len() as int);
                assert(evs =~= Seq::<SinkEvent>::empty());
                assert(output_handler.log().take(output_handler.log().len() as int)
                    =~= output_handler.log());
                assert(feed_post(
                    old(self).pending_view(),
                    self.pending_view(),
                    Seq::<u8>::empty(),
                    true,
                    old(self).encoding.initial,
                    old(self).scratch_capacity as int,
                    evs,
                ));
            }
            Ok(())
        }
    }
}

/// Glues the fast path's events and the slow loop's exit state into the
/// public post-condition of one `feed_text` call.
proof fn lemma_feed_assemble(
    pre: Option<DecView>,
    post: Option<DecView>,
    raw: Seq<u8>,
    last: bool,
    enc: AsciiCompatibleEncoding,
    cap: int,
    split: int,
    d0: DecView,
    dfinal: DecView,
    slow_input: Seq<u8>,
    fast_evs: Seq<SinkEvent>,
    slow_evs: Seq<SinkEvent>,
)
    requires
        !(raw.len() == 0 && pre is None),
        pre matches Some(p) ==> p == d0 && fast_evs.len() == 0 && slow_input == raw,
        pre is None ==> {
            &&& fast_prefix(enc.utf8, raw, split)
            &&& d0 == fresh_view(enc)
            &&& if split == raw.len() {
                &&& fast_evs.len() == 1
                &&& encode_utf8(fast_evs[0].text) == raw
                &&& fast_evs[0].last == false
                &&& !last
                &&& fast_evs[0].encoding == enc
                &&& slow_input == Seq::<u8>::empty()
            } else if cap <= split {
                &&& fast_evs.len() == 1
                &&& encode_utf8(fast_evs[0].text) == raw.take(split)
                &&& fast_evs[0].last == false
                &&& fast_evs[0].encoding == enc
                &&& slow_input == raw.skip(split)
            } else {
                fast_evs.len() == 0 && slow_input == raw
            }
        },
        dfinal.enc == d0.enc,
        dfinal.fed == d0.fed + slow_input,
        dfinal.emitted == d0.emitted + texts_concat(slow_evs),
        forall|k: int| 0 <= k < slow_evs.len() - 1 ==> !(#[trigger] slow_evs[k]).last,
        forall|k: int| 0 <= k < slow_evs.len() ==> (#[trigger] slow_evs[k]).encoding == enc,
        forall|k: int|
            0 <= k < slow_evs.len() ==> encode_utf8((#[trigger] slow_evs[k]).text).len() <= cap,
        last ==> slow_evs.len() >= 1 && slow_evs.last().last && post is None && dfinal.emitted
            == decode_full(dfinal.enc, dfinal.fed),
        !last ==> (forall|k: int| 0 <= k < slow_evs.len() ==> !(#[trigger] slow_evs[k]).last)
            && post == Some(dfinal),
    ensures
        feed_post(pre, post, raw, last, enc, cap, fast_evs + slow_evs),
{
    let evs = fast_evs + slow_evs;
    assert(slow_post(d0, slow_input, last, enc, cap, slow_evs, post)) by {
        if last {
            assert(d0.emitted + texts_concat(slow_evs) == decode_full(d0.enc, d0.fed + slow_input));
        }
    }
    if pre is Some {
        assert(evs =~= slow_evs);
    } else {
        if split == raw.len() || cap <= split {
            assert(evs[0] == fast_evs[0]);
            assert(evs.skip(1) =~= slow_evs);
            assert(evs.len() >= 1);
        } else {
            assert(evs =~= slow_evs);
        }
        assert(fast_prefix(enc.utf8, raw, split));
    }
}

} // verus!
