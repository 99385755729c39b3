//! Segment-level laws, proved from the decoder's public contracts alone.

use vstd::prelude::*;

verus! {

use crate::codec::{decode_full, is_ascii_bytes};
use crate::encoding::AsciiCompatibleEncoding;
use crate::text_decoder::{fast_prefix, feed_post, feed_post_fast_case, texts_concat, DecView, SinkEvent};
use vstd::utf8::{encode_utf8, encode_utf8_decode_utf8, valid_utf8};

/// How many events of a run are flagged as last-of-segment.
pub open spec fn count_last(evs: Seq<SinkEvent>) -> int
    decreases evs.len(),
{
    if evs.len() == 0 {
        0
    } else {
        count_last(evs.drop_last()) + (if evs.last().last {
            1int
        } else {
            0int
        })
    }
}

proof fn lemma_count_last_append(a: Seq<SinkEvent>, b: Seq<SinkEvent>)
    ensures
        count_last(a + b) == count_last(a) + count_last(b),
    decreases b.len(),
{
    if b.len() == 0 {
        assert(a + b =~= a);
    } else {
        assert((a + b).drop_last() =~= a + b.drop_last());
        lemma_count_last_append(a, b.drop_last());
    }
}

proof fn lemma_count_last_none(evs: Seq<SinkEvent>)
    requires
        forall|k: int| 0 <= k < evs.len() ==> !(#[trigger] evs[k]).last,
    ensures
        count_last(evs) == 0,
    decreases evs.len(),
{
    if evs.len() > 0 {
        lemma_count_last_none(evs.drop_last());
    }
}

/// The events one non-final `feed_text` call appends are all non-last.
proof fn lemma_nonfinal_call_events(
    pre: Option<DecView>,
    post: Option<DecView>,
    input: Seq<u8>,
    enc: AsciiCompatibleEncoding,
    cap: int,
    evs: Seq<SinkEvent>,
)
    requires
        feed_post(pre, post, input, false, enc, cap, evs),
    ensures
        forall|k: int| 0 <= k < evs.len() ==> !(#[trigger] evs[k]).last,
{
    match pre {
        Some(_) => {},
        None => {
            if input.len() != 0 {
                let v = choose|v: int|
                    #[trigger] fast_prefix(enc.utf8, input, v) && feed_post_fast_case(
                        post,
                        input,
                        false,
                        enc,
                        cap,
                        evs,
                        v,
                    );
                assert(forall|k: int| 1 <= k < evs.len() ==> evs[k] == evs.skip(1)[k - 1]);
            }
        },
    }
}

/// Law (one call, one charset): every sink invocation of one `feed_text`
/// call reports the same charset — the snapshot taken at the call's entry,
/// before any sink code runs. A switch of the shared slot made from inside
/// the sink therefore never changes how that same call decodes.
pub proof fn lemma_one_call_one_charset(
    pre: Option<DecView>,
    post: Option<DecView>,
    input: Seq<u8>,
    last: bool,
    enc: AsciiCompatibleEncoding,
    cap: int,
    evs: Seq<SinkEvent>,
)
    requires
        feed_post(pre, post, input, last, enc, cap, evs),
    ensures
        forall|k: int| 0 <= k < evs.len() ==> (#[trigger] evs[k]).encoding == enc,
{
    match pre {
        Some(_) => {},
        None => {
            if input.len() != 0 {
                let v: int = choose|v: int|
                    #[trigger] fast_prefix(enc.utf8, input, v) && feed_post_fast_case(
                        post,
                        input,
                        last,
                        enc,
                        cap,
                        evs,
                        v,
                    );
                assert(forall|k: int| 1 <= k < evs.len() ==> evs[k] == evs.skip(1)[k - 1]);
            }
        },
    }
}

/// Law (exactly-once last flag): across one segment — here one non-final
/// `feed_text` call followed by one successful final call that had bytes or
/// a pending decode to finish — the sink sees `last = true` exactly once,
/// and on the very last invocation it observes.
pub proof fn lemma_last_flag_exactly_once(
    enc1: AsciiCompatibleEncoding,
    enc2: AsciiCompatibleEncoding,
    cap: int,
    mid: Option<DecView>,
    post: Option<DecView>,
    b1: Seq<u8>,
    evs1: Seq<SinkEvent>,
    b2: Seq<u8>,
    evs2: Seq<SinkEvent>,
)
    requires
        feed_post(None, mid, b1, false, enc1, cap, evs1),
        feed_post(mid, post, b2, true, enc2, cap, evs2),
        b2.len() > 0 || mid is Some,
    ensures
        count_last(evs1 + evs2) == 1,
        (evs1 + evs2).len() > 0,
        (evs1 + evs2).last().last,
{
    lemma_nonfinal_call_events(None, mid, b1, enc1, cap, evs1);
    lemma_count_last_none(evs1);
    assert(evs2.len() >= 1 && evs2.last().last && forall|k: int|
        0 <= k < evs2.len() - 1 ==> !(#[trigger] evs2[k]).last) by {
        match mid {
            Some(_) => {},
            None => {
                let v = choose|v: int|
                    #[trigger] fast_prefix(enc2.utf8, b2, v) && feed_post_fast_case(
                        post,
                        b2,
                        true,
                        enc2,
                        cap,
                        evs2,
                        v,
                    );
                if v == b2.len() {
                } else if cap <= v {
                    assert(forall|k: int| 1 <= k < evs2.len() ==> evs2[k] == evs2.skip(1)[k - 1]);
                    assert(evs2.skip(1).len() >= 1);
                    assert(evs2.last() == evs2.skip(1).last());
                } else {
                }
            },
        }
    }
    lemma_count_last_none(evs2.drop_last());
    assert(evs2 =~= evs2.drop_last() + seq![evs2.last()]);
    lemma_count_last_append(evs2.drop_last(), seq![evs2.last()]);
    assert(count_last(seq![evs2.last()]) == 1) by {
        assert(seq![evs2.last()].drop_last() =~= Seq::<SinkEvent>::empty());
    }
    lemma_count_last_append(evs1, evs2);
    assert((evs1 + evs2).last() == evs2.last());
}

/// Law (single-chunk fast path): one complete segment — entirely valid
/// UTF-8 under the UTF-8 charset, or ASCII-only under any other charset —
/// fed in one final call yields exactly one sink invocation, carrying
/// exactly the input's text and the last-of-segment flag.
pub proof fn lemma_single_chunk_fast_path(
    enc: AsciiCompatibleEncoding,
    cap: int,
    post: Option<DecView>,
    b: Seq<u8>,
    evs: Seq<SinkEvent>,
)
    requires
        enc.wf(),
        b.len() > 0,
        enc.utf8 ==> valid_utf8(b),
        !enc.utf8 ==> is_ascii_bytes(b),
        feed_post(None, post, b, true, enc, cap, evs),
    ensures
        evs.len() == 1,
        evs[0].last,
        evs[0].encoding == enc,
        evs[0].text == vstd::utf8::decode_utf8(b),
        texts_concat(evs) == vstd::utf8::decode_utf8(b),
{
    let v = choose|v: int|
        #[trigger] fast_prefix(enc.utf8, b, v) && feed_post_fast_case(
            post,
            b,
            true,
            enc,
            cap,
            evs,
            v,
        );
    if !enc.utf8 {
        crate::text_decoder::lemma_ascii_is_valid_utf8(b);
    }
    assert(v == b.len()) by {
        if v < b.len() {
            if enc.utf8 {
                assert(b.take(b.len() as int) =~= b);
            }
        }
    }
    encode_utf8_decode_utf8(evs[0].text);
    assert(texts_concat(evs) == evs[0].text) by {
        reveal_with_fuel(texts_concat, 2);
        assert(evs.drop_last() =~= Seq::<SinkEvent>::empty());
        assert(evs.last() == evs[0]);
        assert(Seq::<char>::empty() + evs[0].text =~= evs[0].text);
    }
}

/// For a fast-path prefix (valid UTF-8 under the UTF-8 charset, ASCII under
/// any other), decoding distributes: the prefix decodes to its own text and
/// the stream continues independently after it.
proof fn lemma_prefix_plus_stream(enc: AsciiCompatibleEncoding, a: Seq<u8>, rest: Seq<u8>)
    requires
        enc.wf(),
        enc.utf8 ==> valid_utf8(a),
        !enc.utf8 ==> is_ascii_bytes(a),
    ensures
        valid_utf8(a),
        decode_full(enc.raw, a + rest) == vstd::utf8::decode_utf8(a) + decode_full(enc.raw, rest),
{
    if !enc.utf8 {
        crate::text_decoder::lemma_ascii_is_valid_utf8(a);
    }
}

/// The texts of a non-empty run are its first text followed by the rest.
proof fn lemma_concat_first(evs: Seq<SinkEvent>)
    requires
        evs.len() >= 1,
    ensures
        texts_concat(evs) == evs[0].text + texts_concat(evs.skip(1)),
    decreases evs.len(),
{
    if evs.len() == 1 {
        reveal_with_fuel(texts_concat, 2);
        assert(evs.drop_last() =~= Seq::<SinkEvent>::empty());
        assert(evs.skip(1) =~= Seq::<SinkEvent>::empty());
        assert(evs.last() == evs[0]);
        assert(Seq::<char>::empty() + evs[0].text =~= evs[0].text);
        assert(evs[0].text + Seq::<char>::empty() =~= evs[0].text);
    } else {
        let dl = evs.drop_last();
        lemma_concat_first(dl);
        assert(dl[0] == evs[0]);
        assert(evs.skip(1).drop_last() =~= dl.skip(1));
        assert(evs.skip(1).last() == evs.last());
        assert(texts_concat(evs.skip(1)) == texts_concat(dl.skip(1)) + evs.last().text);
        assert((evs[0].text + texts_concat(dl.skip(1))) + evs.last().text =~= evs[0].text + (
        texts_concat(dl.skip(1)) + evs.last().text));
    }
}

/// What one successful non-final first call of a segment leaves behind: a
/// pending stream whose future completion — producing `t` for further bytes
/// `rest` — accounts exactly for the chunk's bytes and the texts already
/// handed out.
proof fn lemma_first_call_accounts(
    enc: AsciiCompatibleEncoding,
    cap: int,
    mid: Option<DecView>,
    b1: Seq<u8>,
    evs1: Seq<SinkEvent>,
    rest: Seq<u8>,
    t: Seq<char>,
)
    requires
        enc.wf(),
        b1.len() > 0,
        feed_post(None, mid, b1, false, enc, cap, evs1),
    ensures
        mid is Some,
        mid matches Some(d1) ==> d1.enc == enc.raw && (d1.emitted + t == decode_full(
            d1.enc,
            d1.fed + rest,
        ) ==> texts_concat(evs1) + t == decode_full(enc.raw, b1 + rest)),
{
    let v1: int = choose|v: int|
        #[trigger] fast_prefix(enc.utf8, b1, v) && feed_post_fast_case(
            mid,
            b1,
            false,
            enc,
            cap,
            evs1,
            v,
        );
    let d1 = mid->Some_0;
    if v1 == b1.len() {
        // Whole-chunk fast path, followed by an empty fresh stream.
        assert(b1.take(v1) =~= b1);
        vstd::utf8::encode_utf8_valid_utf8(evs1[0].text);
        encode_utf8_decode_utf8(evs1[0].text);
        lemma_concat_first(evs1);
        assert(d1.fed =~= Seq::<u8>::empty());
        assert(d1.emitted =~= texts_concat(evs1.skip(1)));
        if d1.emitted + t == decode_full(d1.enc, d1.fed + rest) {
            assert(d1.fed + rest =~= rest);
            lemma_prefix_plus_stream(enc, b1, rest);
            assert(vstd::utf8::decode_utf8(b1) == evs1[0].text);
            assert((evs1[0].text + texts_concat(evs1.skip(1))) + t =~= evs1[0].text + (
            texts_concat(evs1.skip(1)) + t));
        }
    } else if cap <= v1 {
        // Prefix emitted, remainder streamed.
        let a = b1.take(v1);
        vstd::utf8::encode_utf8_valid_utf8(evs1[0].text);
        encode_utf8_decode_utf8(evs1[0].text);
        lemma_concat_first(evs1);
        assert(d1.fed =~= b1.skip(v1));
        assert(d1.emitted =~= texts_concat(evs1.skip(1)));
        if d1.emitted + t == decode_full(d1.enc, d1.fed + rest) {
            assert(d1.fed + rest =~= b1.skip(v1) + rest);
            lemma_prefix_plus_stream(enc, a, b1.skip(v1) + rest);
            assert(a + (b1.skip(v1) + rest) =~= b1 + rest);
            assert(vstd::utf8::decode_utf8(a) == evs1[0].text);
            assert((evs1[0].text + texts_concat(evs1.skip(1))) + t =~= evs1[0].text + (
            texts_concat(evs1.skip(1)) + t));
        }
    } else {
        // Declined: the whole chunk is streamed.
        assert(d1.fed =~= b1);
        assert(d1.emitted =~= texts_concat(evs1));
        if d1.emitted + t == decode_full(d1.enc, d1.fed + rest) {
            assert(d1.fed + rest =~= b1 + rest);
        }
    }
}

/// What one successful whole-segment final call hands out in total: exactly
/// the full decode of its bytes.
proof fn lemma_whole_call_total(
    enc: AsciiCompatibleEncoding,
    cap: int,
    post: Option<DecView>,
    w: Seq<u8>,
    evs: Seq<SinkEvent>,
)
    requires
        enc.wf(),
        w.len() > 0,
        feed_post(None, post, w, true, enc, cap, evs),
    ensures
        texts_concat(evs) == decode_full(enc.raw, w),
{
    let vw: int = choose|v: int|
        #[trigger] fast_prefix(enc.utf8, w, v) && feed_post_fast_case(
            post,
            w,
            true,
            enc,
            cap,
            evs,
            v,
        );
    if vw == w.len() {
        assert(w.take(vw) =~= w);
        vstd::utf8::encode_utf8_valid_utf8(evs[0].text);
        encode_utf8_decode_utf8(evs[0].text);
        lemma_concat_first(evs);
        assert(evs.skip(1) =~= Seq::<SinkEvent>::empty());
        lemma_prefix_plus_stream(enc, w, Seq::<u8>::empty());
        assert(w + Seq::<u8>::empty() =~= w);
        assert(evs[0].text + texts_concat(evs.skip(1)) =~= evs[0].text);
        assert(vstd::utf8::decode_utf8(w) + Seq::<char>::empty() =~= vstd::utf8::decode_utf8(w));
    } else if cap <= vw {
        let a = w.take(vw);
        vstd::utf8::encode_utf8_valid_utf8(evs[0].text);
        encode_utf8_decode_utf8(evs[0].text);
        lemma_concat_first(evs);
        // The streamed remainder completes the fresh stream.
        let dw = crate::text_decoder::fresh_view(enc);
        assert(dw.emitted + texts_concat(evs.skip(1)) == decode_full(dw.enc, dw.fed + w.skip(vw)));
        assert(dw.fed + w.skip(vw) =~= w.skip(vw));
        assert(texts_concat(evs.skip(1)) =~= dw.emitted + texts_concat(evs.skip(1)));
        lemma_prefix_plus_stream(enc, a, w.skip(vw));
        assert(a + w.skip(vw) =~= w);
        assert(vstd::utf8::decode_utf8(a) == evs[0].text);
    } else {
        let dw = crate::text_decoder::fresh_view(enc);
        assert(dw.emitted + texts_concat(evs) == decode_full(dw.enc, dw.fed + w));
        assert(dw.fed + w =~= w);
        assert(dw.emitted + texts_concat(evs) =~= texts_concat(evs));
    }
}

/// Law (split multi-byte sequence, and more generally any split): a segment
/// fed as a non-final chunk and then a final chunk — the first chunk may end
/// anywhere, inside a multi-byte character included — hands the sink, in
/// total, exactly the full decode of the concatenated bytes under the
/// snapshot charset, the same text the single final call on the whole bytes
/// hands out.
pub proof fn lemma_split_equals_whole(
    enc: AsciiCompatibleEncoding,
    cap: int,
    mid: Option<DecView>,
    post: Option<DecView>,
    whole_post: Option<DecView>,
    b1: Seq<u8>,
    evs1: Seq<SinkEvent>,
    b2: Seq<u8>,
    evs2: Seq<SinkEvent>,
    whole_evs: Seq<SinkEvent>,
)
    requires
        enc.wf(),
        b1.len() > 0,
        feed_post(None, mid, b1, false, enc, cap, evs1),
        feed_post(mid, post, b2, true, enc, cap, evs2),
        feed_post(None, whole_post, b1 + b2, true, enc, cap, whole_evs),
    ensures
        texts_concat(evs1) + texts_concat(evs2) == decode_full(enc.raw, b1 + b2),
        texts_concat(whole_evs) == decode_full(enc.raw, b1 + b2),
        texts_concat(evs1) + texts_concat(evs2) == texts_concat(whole_evs),
{
    lemma_first_call_accounts(enc, cap, mid, b1, evs1, b2, texts_concat(evs2));
    let d1 = mid->Some_0;
    assert(d1.emitted + texts_concat(evs2) == decode_full(d1.enc, d1.fed + b2));
    assert(texts_concat(evs1) + texts_concat(evs2) == decode_full(enc.raw, b1 + b2));
    assert((b1 + b2).len() > 0);
    lemma_whole_call_total(enc, cap, whole_post, b1 + b2, whole_evs);
}


/// One call of a segment, as its contract describes it: the bytes fed and
/// the events appended.
pub ghost struct SegmentCall {
    pub bytes: Seq<u8>,
    pub events: Seq<SinkEvent>,
}

/// All bytes a run of calls fed, in order.
pub open spec fn segment_bytes(calls: Seq<SegmentCall>) -> Seq<u8>
    decreases calls.len(),
{
    if calls.len() == 0 {
        Seq::empty()
    } else {
        segment_bytes(calls.drop_last()) + calls.last().bytes
    }
}

/// All text a run of calls handed the sink, in order.
pub open spec fn segment_texts(calls: Seq<SegmentCall>) -> Seq<char>
    decreases calls.len(),
{
    if calls.len() == 0 {
        Seq::empty()
    } else {
        segment_texts(calls.drop_last()) + texts_concat(calls.last().events)
    }
}

/// The events a run of calls produced, in order.
pub open spec fn segment_events(calls: Seq<SegmentCall>) -> Seq<SinkEvent>
    decreases calls.len(),
{
    if calls.len() == 0 {
        Seq::empty()
    } else {
        segment_events(calls.drop_last()) + calls.last().events
    }
}

/// A run of successful non-final calls of one segment, with `pends` the
/// chain of pending-decode states between them, starting from none.
pub open spec fn chained_nonfinal(
    calls: Seq<SegmentCall>,
    pends: Seq<Option<DecView>>,
    enc: AsciiCompatibleEncoding,
    cap: int,
) -> bool {
    &&& pends.len() == calls.len() + 1
    &&& pends[0] is None
    &&& forall|i: int|
        0 <= i < calls.len() ==> feed_post(
            pends[i],
            pends[i + 1],
            (#[trigger] calls[i]).bytes,
            false,
            enc,
            cap,
            calls[i].events,
        )
}

/// Like `lemma_first_call_accounts`, quantified over the rest of the
/// stream: after one non-final first call, some already-delivered head text
/// plus the pending stream's future output always makes up the decode of
/// the chunk plus whatever follows.
proof fn lemma_first_call_head(
    enc: AsciiCompatibleEncoding,
    cap: int,
    mid: Option<DecView>,
    b1: Seq<u8>,
    evs1: Seq<SinkEvent>,
)
    requires
        enc.wf(),
        b1.len() > 0,
        feed_post(None, mid, b1, false, enc, cap, evs1),
    ensures
        mid matches Some(d1) ==> d1.enc == enc.raw && exists|head: Seq<char>|
            #![auto]
            texts_concat(evs1) == head + d1.emitted && (forall|rest: Seq<u8>|
                #[trigger] decode_full(enc.raw, b1 + rest) == head + decode_full(
                    d1.enc,
                    d1.fed + rest,
                )),
        mid is Some,
{
    let v1: int = choose|v: int|
        #[trigger] fast_prefix(enc.utf8, b1, v) && feed_post_fast_case(
            mid,
            b1,
            false,
            enc,
            cap,
            evs1,
            v,
        );
    let d1 = mid->Some_0;
    if v1 == b1.len() {
        assert(b1.take(v1) =~= b1);
        vstd::utf8::encode_utf8_valid_utf8(evs1[0].text);
        encode_utf8_decode_utf8(evs1[0].text);
        lemma_concat_first(evs1);
        assert(d1.fed =~= Seq::<u8>::empty());
        assert(d1.emitted =~= texts_concat(evs1.skip(1)));
        let head = evs1[0].text;
        assert(texts_concat(evs1) == head + d1.emitted);
        assert forall|rest: Seq<u8>| #[trigger] decode_full(enc.raw, b1 + rest) == head
            + decode_full(d1.enc, d1.fed + rest) by {
            assert(d1.fed + rest =~= rest);
            lemma_prefix_plus_stream(enc, b1, rest);
            assert(vstd::utf8::decode_utf8(b1) == head);
        }
    } else if cap <= v1 {
        let a = b1.take(v1);
        vstd::utf8::encode_utf8_valid_utf8(evs1[0].text);
        encode_utf8_decode_utf8(evs1[0].text);
        lemma_concat_first(evs1);
        assert(d1.fed =~= b1.skip(v1));
        assert(d1.emitted =~= texts_concat(evs1.skip(1)));
        let head = evs1[0].text;
        assert(texts_concat(evs1) == head + d1.emitted);
        assert forall|rest: Seq<u8>| #[trigger] decode_full(enc.raw, b1 + rest) == head
            + decode_full(d1.enc, d1.fed + rest) by {
            assert(d1.fed + rest =~= b1.skip(v1) + rest);
            lemma_prefix_plus_stream(enc, a, b1.skip(v1) + rest);
            assert(a + (b1.skip(v1) + rest) =~= b1 + rest);
            assert(vstd::utf8::decode_utf8(a) == head);
        }
    } else {
        assert(d1.fed =~= b1);
        assert(d1.emitted =~= texts_concat(evs1));
        let head = Seq::<char>::empty();
        assert(texts_concat(evs1) =~= head + d1.emitted);
        assert forall|rest: Seq<u8>| #[trigger] decode_full(enc.raw, b1 + rest) == head
            + decode_full(d1.enc, d1.fed + rest) by {
            assert(d1.fed + rest =~= b1 + rest);
            assert(head + decode_full(d1.enc, b1 + rest) =~= decode_full(d1.enc, b1 + rest));
        }
    }
}

/// Induction over the non-final calls of a segment: either nothing has
/// happened at all, or the pending stream accounts for everything fed and
/// delivered so far; and no event so far was flagged last.
proof fn lemma_nonfinal_chain(
    calls: Seq<SegmentCall>,
    pends: Seq<Option<DecView>>,
    enc: AsciiCompatibleEncoding,
    cap: int,
)
    requires
        enc.wf(),
        chained_nonfinal(calls, pends, enc, cap),
    ensures
        pends.last() is None ==> segment_bytes(calls) == Seq::<u8>::empty() && segment_texts(calls)
            == Seq::<char>::empty(),
        pends.last() matches Some(d) ==> d.enc == enc.raw && exists|head: Seq<char>|
            #![auto]
            segment_texts(calls) == head + d.emitted && (forall|rest: Seq<u8>|
                #[trigger] decode_full(enc.raw, segment_bytes(calls) + rest) == head + decode_full(
                    d.enc,
                    d.fed + rest,
                )),
        count_last(segment_events(calls)) == 0,
    decreases calls.len(),
{
    if calls.len() == 0 {
        assert(pends.last() == pends[0]);
    } else {
        let init = calls.drop_last();
        let initp = pends.drop_last();
        let c = calls.last();
        let pre = pends[calls.len() - 1];
        let post = pends.last();
        assert(initp[0] == pends[0]);
        assert(forall|i: int|
            0 <= i < init.len() ==> feed_post(
                initp[i],
                initp[i + 1],
                (#[trigger] init[i]).bytes,
                false,
                enc,
                cap,
                init[i].events,
            )) by {
            assert(forall|i: int| 0 <= i < init.len() ==> init[i] == calls[i]);
            assert(forall|i: int| 0 <= i <= init.len() ==> initp[i] == pends[i]);
        }
        lemma_nonfinal_chain(init, initp, enc, cap);
        assert(initp.last() == pre);
        assert(feed_post(pre, post, c.bytes, false, enc, cap, c.events));
        lemma_nonfinal_call_events(pre, post, c.bytes, enc, cap, c.events);
        lemma_count_last_none(c.events);
        lemma_count_last_append(segment_events(init), c.events);
        match pre {
            None => {
                if c.bytes.len() == 0 {
                    assert(post is None);
                    assert(segment_bytes(calls) =~= Seq::<u8>::empty());
                    assert(segment_texts(calls) =~= Seq::<char>::empty());
                } else {
                    lemma_first_call_head(enc, cap, post, c.bytes, c.events);
                    let d = post->Some_0;
                    let head = choose|head: Seq<char>|
                        #![auto]
                        texts_concat(c.events) == head + d.emitted && (forall|rest: Seq<u8>|
                            #[trigger] decode_full(enc.raw, c.bytes + rest) == head + decode_full(
                                d.enc,
                                d.fed + rest,
                            ));
                    assert(segment_bytes(calls) =~= c.bytes);
                    assert(segment_texts(calls) =~= texts_concat(c.events));
                    assert(segment_texts(calls) == head + d.emitted && (forall|rest: Seq<u8>|
                        #[trigger] decode_full(enc.raw, segment_bytes(calls) + rest) == head
                            + decode_full(d.enc, d.fed + rest)));
                }
            },
            Some(d) => {
                let head = choose|head: Seq<char>|
                    #![auto]
                    segment_texts(init) == head + d.emitted && (forall|rest: Seq<u8>|
                        #[trigger] decode_full(enc.raw, segment_bytes(init) + rest) == head
                            + decode_full(d.enc, d.fed + rest));
                // This call runs purely on the pending stream.
                let d2 = post->Some_0;
                assert(d2.enc == d.enc && d2.fed == d.fed + c.bytes && d2.emitted == d.emitted
                    + texts_concat(c.events));
                assert(segment_texts(calls) == head + d2.emitted) by {
                    assert((head + d.emitted) + texts_concat(c.events) =~= head + (d.emitted
                        + texts_concat(c.events)));
                }
                assert forall|rest: Seq<u8>|
                    #[trigger] decode_full(enc.raw, segment_bytes(calls) + rest) == head
                        + decode_full(d2.enc, d2.fed + rest) by {
                    assert(segment_bytes(calls) + rest =~= segment_bytes(init) + (c.bytes + rest));
                    assert(d2.fed + rest =~= d.fed + (c.bytes + rest));
                }
                assert(segment_texts(calls) == head + d2.emitted && (forall|rest: Seq<u8>|
                    #[trigger] decode_full(enc.raw, segment_bytes(calls) + rest) == head
                        + decode_full(d2.enc, d2.fed + rest)));
            },
        }
    }
}

/// Law (whole segment): a segment fed as any number of successful non-final
/// calls followed by one successful final call — chunked anywhere, including
/// inside multi-byte characters — hands the sink, in total, exactly the full
/// decode of all its bytes under the snapshot charset; and across the whole
/// segment the sink sees `last = true` exactly once, on the final event.
pub proof fn lemma_segment_total(
    calls: Seq<SegmentCall>,
    pends: Seq<Option<DecView>>,
    enc: AsciiCompatibleEncoding,
    cap: int,
    bfin: Seq<u8>,
    evfin: Seq<SinkEvent>,
    post: Option<DecView>,
)
    requires
        enc.wf(),
        chained_nonfinal(calls, pends, enc, cap),
        feed_post(pends.last(), post, bfin, true, enc, cap, evfin),
        bfin.len() > 0 || pends.last() is Some,
    ensures
        segment_texts(calls) + texts_concat(evfin) == decode_full(
            enc.raw,
            segment_bytes(calls) + bfin,
        ),
        count_last(segment_events(calls) + evfin) == 1,
        (segment_events(calls) + evfin).len() > 0,
        (segment_events(calls) + evfin).last().last,
{
    lemma_nonfinal_chain(calls, pends, enc, cap);
    match pends.last() {
        None => {
            assert(segment_bytes(calls) + bfin =~= bfin);
            lemma_whole_call_total(enc, cap, post, bfin, evfin);
            assert(segment_texts(calls) + texts_concat(evfin) =~= texts_concat(evfin));
        },
        Some(d) => {
            let head = choose|head: Seq<char>|
                #![auto]
                segment_texts(calls) == head + d.emitted && (forall|rest: Seq<u8>|
                    #[trigger] decode_full(enc.raw, segment_bytes(calls) + rest) == head
                        + decode_full(d.enc, d.fed + rest));
            assert(d.emitted + texts_concat(evfin) == decode_full(d.enc, d.fed + bfin));
            assert(decode_full(enc.raw, segment_bytes(calls) + bfin) == head + decode_full(
                d.enc,
                d.fed + bfin,
            ));
            assert((head + d.emitted) + texts_concat(evfin) =~= head + (d.emitted + texts_concat(
                evfin,
            )));
        },
    }
    // Exactly-once last flag, from the per-call shapes.
    assert(evfin.len() >= 1 && evfin.last().last && forall|k: int|
        0 <= k < evfin.len() - 1 ==> !(#[trigger] evfin[k]).last) by {
        match pends.last() {
            Some(_) => {},
            None => {
                let v: int = choose|v: int|
                    #[trigger] fast_prefix(enc.utf8, bfin, v) && feed_post_fast_case(
                        post,
                        bfin,
                        true,
                        enc,
                        cap,
                        evfin,
                        v,
                    );
                if v == bfin.len() {
                } else if cap <= v {
                    assert(forall|k: int| 1 <= k < evfin.len() ==> evfin[k] == evfin.skip(1)[k - 1]);
                    assert(evfin.skip(1).len() >= 1);
                    assert(evfin.last() == evfin.skip(1).last());
                } else {
                }
            },
        }
    }
    lemma_count_last_none(evfin.drop_last());
    assert(evfin =~= evfin.drop_last() + seq![evfin.last()]);
    lemma_count_last_append(evfin.drop_last(), seq![evfin.last()]);
    assert(count_last(seq![evfin.last()]) == 1) by {
        assert(seq![evfin.last()].drop_last() =~= Seq::<SinkEvent>::empty());
    }
    lemma_count_last_append(segment_events(calls), evfin);
    assert((segment_events(calls) + evfin).last() == evfin.last());
}

} // verus!
