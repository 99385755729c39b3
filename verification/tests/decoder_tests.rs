use text_decoder::{AsciiCompatibleEncoding, RecordingSink, SharedEncoding, TextDecoder};

fn utf8_decoder() -> TextDecoder {
    TextDecoder::new(SharedEncoding::new(AsciiCompatibleEncoding::utf_8()))
}

fn decoder_for(encoding: &'static encoding_rs::Encoding) -> TextDecoder {
    let enc = AsciiCompatibleEncoding::new(encoding).unwrap();
    TextDecoder::new(SharedEncoding::new(enc))
}

fn concat_texts(sink: &RecordingSink) -> String {
    let mut out = String::new();
    for rec in &sink.records {
        out.push_str(&rec.text);
    }
    out
}

fn count_last_flags(sink: &RecordingSink) -> usize {
    sink.records.iter().filter(|r| r.last).count()
}

#[test]
fn single_chunk_ascii_fast_path() {
    let mut decoder = utf8_decoder();
    let mut sink = RecordingSink::new();
    decoder
        .feed_text(b"Hello, world!", true, &mut sink)
        .unwrap();
    assert_eq!(sink.records.len(), 1);
    assert_eq!(sink.records[0].text, "Hello, world!");
    assert!(sink.records[0].last);
}

#[test]
fn single_chunk_utf8_fast_path() {
    let mut decoder = utf8_decoder();
    let mut sink = RecordingSink::new();
    decoder
        .feed_text("héllo — ünïcode".as_bytes(), true, &mut sink)
        .unwrap();
    assert_eq!(sink.records.len(), 1);
    assert_eq!(sink.records[0].text, "héllo — ünïcode");
    assert!(sink.records[0].last);
}

#[test]
fn split_multibyte_sequence_matches_single_call() {
    // "é" encoded as UTF-8 is [0xC3, 0xA9]; split it across two calls.
    let mut decoder = utf8_decoder();
    let mut sink = RecordingSink::new();
    decoder.feed_text(b"caf\xC3", false, &mut sink).unwrap();
    decoder.feed_text(b"\xA9!", true, &mut sink).unwrap();
    let split_text = concat_texts(&sink);

    let mut decoder2 = utf8_decoder();
    let mut sink2 = RecordingSink::new();
    decoder2.feed_text(b"caf\xC3\xA9!", true, &mut sink2).unwrap();
    let whole_text = concat_texts(&sink2);

    assert_eq!(split_text, "café!");
    assert_eq!(split_text, whole_text);
    assert_eq!(count_last_flags(&sink), 1);
    assert!(sink.records.last().unwrap().last);
}

#[test]
fn split_multibyte_sequence_non_utf8() {
    // In Shift_JIS, [0x82, 0xA0] decodes to "あ"; split the pair.
    let mut decoder = decoder_for(encoding_rs::SHIFT_JIS);
    let mut sink = RecordingSink::new();
    decoder.feed_text(b"a\x82", false, &mut sink).unwrap();
    decoder.feed_text(b"\xA0b", true, &mut sink).unwrap();
    assert_eq!(concat_texts(&sink), "aあb");
    assert_eq!(count_last_flags(&sink), 1);
}

#[test]
fn empty_input_no_pending_is_a_no_op() {
    let mut decoder = utf8_decoder();
    let mut sink = RecordingSink::new();
    decoder.feed_text(&[], false, &mut sink).unwrap();
    assert_eq!(sink.records.len(), 0);
    decoder.feed_text(&[], true, &mut sink).unwrap();
    assert_eq!(sink.records.len(), 0);
}

#[test]
fn flush_pending_completes_a_pending_decode() {
    let mut decoder = utf8_decoder();
    let mut sink = RecordingSink::new();
    // Feed only the lead byte of a two-byte sequence, non-last.
    decoder.feed_text(b"\xC3", false, &mut sink).unwrap();
    decoder.flush_pending(&mut sink).unwrap();
    // The incomplete sequence ends the segment as a replacement character.
    assert_eq!(concat_texts(&sink), "\u{FFFD}");
    assert_eq!(count_last_flags(&sink), 1);
    assert!(sink.records.last().unwrap().last);
}

#[test]
fn flush_pending_without_pending_is_a_no_op() {
    let mut decoder = utf8_decoder();
    let mut sink = RecordingSink::new();
    decoder.flush_pending(&mut sink).unwrap();
    assert_eq!(sink.records.len(), 0);
}

#[test]
fn last_flag_exactly_once_across_many_chunks() {
    let mut decoder = utf8_decoder();
    let mut sink = RecordingSink::new();
    decoder.feed_text(b"one ", false, &mut sink).unwrap();
    decoder.feed_text(b"two ", false, &mut sink).unwrap();
    decoder.feed_text("thr\u{00E9}e".as_bytes(), false, &mut sink).unwrap();
    decoder.feed_text(b" four", true, &mut sink).unwrap();
    assert_eq!(concat_texts(&sink), "one two thrée four");
    assert_eq!(count_last_flags(&sink), 1);
    assert!(sink.records.last().unwrap().last);
}

#[test]
fn malformed_bytes_become_replacement_characters() {
    let mut decoder = utf8_decoder();
    let mut sink = RecordingSink::new();
    decoder.feed_text(b"ok\xFF\xFEok", true, &mut sink).unwrap();
    assert_eq!(concat_texts(&sink), "ok\u{FFFD}\u{FFFD}ok");
    assert_eq!(count_last_flags(&sink), 1);
}

#[test]
fn non_utf8_charset_decodes_high_bytes() {
    // 0xE9 is "é" in windows-1252; the ASCII fast path must hand it to the
    // real decoder.
    let mut decoder = decoder_for(encoding_rs::WINDOWS_1252);
    let mut sink = RecordingSink::new();
    decoder.feed_text(b"caf\xE9", true, &mut sink).unwrap();
    assert_eq!(concat_texts(&sink), "café");
    assert_eq!(count_last_flags(&sink), 1);
}

#[test]
fn mid_call_switch_keeps_current_call_decoding() {
    let shared = SharedEncoding::new(AsciiCompatibleEncoding::utf_8());
    let handle = shared.clone();
    let mut decoder = TextDecoder::new(shared);
    let latin = AsciiCompatibleEncoding::new(encoding_rs::WINDOWS_1252).unwrap();

    let mut sink = RecordingSink::new();
    sink.switch = Some((handle, latin));
    // The sink switches the charset during this very call; the bytes of this
    // call are still decoded as UTF-8 (snapshot taken at entry).
    decoder.feed_text("caf\u{00E9}".as_bytes(), true, &mut sink).unwrap();
    assert_eq!(concat_texts(&sink), "café");

    // The next segment picks up the switch: 0xE9 now reads as windows-1252.
    let mut sink2 = RecordingSink::new();
    decoder.feed_text(b"th\xE9", true, &mut sink2).unwrap();
    assert_eq!(concat_texts(&sink2), "thé");
}

#[test]
fn scratch_capacity_boundary_exact_and_one_over() {
    // A segment exactly at the scratch capacity takes the zero-copy path.
    let exact = "a".repeat(1024);
    let mut decoder = utf8_decoder();
    let mut sink = RecordingSink::new();
    decoder.feed_text(exact.as_bytes(), true, &mut sink).unwrap();
    assert_eq!(sink.records.len(), 1);
    assert_eq!(sink.records[0].text, exact);
    assert!(sink.records[0].last);

    // A 1024-byte valid prefix followed by a split two-byte character: the
    // prefix is emitted as-is (non-last) and the rest is stream-decoded.
    let mut over = Vec::new();
    over.extend_from_slice("a".repeat(1024).as_bytes());
    over.push(0xC3);
    let mut decoder2 = utf8_decoder();
    let mut sink2 = RecordingSink::new();
    decoder2.feed_text(&over, false, &mut sink2).unwrap();
    assert_eq!(sink2.records[0].text, "a".repeat(1024));
    assert!(!sink2.records[0].last);
    decoder2.feed_text(b"\xA9", true, &mut sink2).unwrap();
    let mut expected = "a".repeat(1024);
    expected.push('\u{00E9}');
    assert_eq!(concat_texts(&sink2), expected);
    assert_eq!(count_last_flags(&sink2), 1);
    assert!(sink2.records.last().unwrap().last);

    // A 1023-byte valid prefix (below the scratch capacity) declines the
    // fast path entirely, yet decodes to the same complete text.
    let mut short = Vec::new();
    short.extend_from_slice("a".repeat(1023).as_bytes());
    short.extend_from_slice(b"\xC3\xA9");
    let mut decoder3 = utf8_decoder();
    let mut sink3 = RecordingSink::new();
    decoder3.feed_text(&short, false, &mut sink3).unwrap();
    decoder3.flush_pending(&mut sink3).unwrap();
    let mut expected3 = "a".repeat(1023);
    expected3.push('\u{00E9}');
    assert_eq!(concat_texts(&sink3), expected3);
    assert_eq!(count_last_flags(&sink3), 1);
}

#[test]
fn sink_error_aborts_and_propagates_verbatim() {
    let mut decoder = utf8_decoder();
    let mut sink = RecordingSink::new();
    sink.fail_at = Some(0);
    let err = decoder.feed_text(b"hello", true, &mut sink).unwrap_err();
    assert_eq!(err.code, 7);
    assert_eq!(sink.records.len(), 0);
}

#[test]
fn sink_error_mid_stream_stops_further_chunks() {
    // Force the slow path with a leading malformed byte and a large input,
    // so several chunks are emitted; fail on the second one.
    let mut big = vec![0xFF];
    big.extend_from_slice("\u{00E9}".repeat(2000).as_bytes());
    let mut decoder = utf8_decoder();
    let mut sink = RecordingSink::new();
    sink.fail_at = Some(1);
    let err = decoder.feed_text(&big, true, &mut sink).unwrap_err();
    assert_eq!(err.code, 7);
    assert_eq!(sink.records.len(), 1);
    assert!(!sink.records[0].last);
}

#[test]
fn sink_error_on_final_chunk_then_flush_is_safe() {
    // The sink refuses the very last chunk of a finishing call. The decode
    // had already completed, so nothing stays pending: a later flush is a
    // no-op and the decoder is reusable for a fresh segment.
    let mut decoder = utf8_decoder();
    let mut sink = RecordingSink::new();
    sink.fail_at = Some(0);
    let err = decoder.feed_text(b"ab\xC3", true, &mut sink).unwrap_err();
    assert_eq!(err.code, 7);
    assert_eq!(sink.records.len(), 0);

    let mut sink2 = RecordingSink::new();
    decoder.flush_pending(&mut sink2).unwrap();
    assert_eq!(sink2.records.len(), 0);
    decoder.feed_text(b"next", true, &mut sink2).unwrap();
    assert_eq!(concat_texts(&sink2), "next");
}

#[test]
fn sink_error_mid_decode_keeps_pending_state() {
    // The sink refuses a chunk while the decode is still unfinished: the
    // mid-flight state stays pending and a flush completes the segment.
    let mut big = vec![0xFF];
    big.extend_from_slice("\u{00E9}".repeat(2000).as_bytes());
    let mut decoder = utf8_decoder();
    let mut sink = RecordingSink::new();
    sink.fail_at = Some(1);
    decoder.feed_text(&big, true, &mut sink).unwrap_err();

    let mut sink2 = RecordingSink::new();
    decoder.flush_pending(&mut sink2).unwrap();
    assert_eq!(count_last_flags(&sink2), 1);
    assert!(sink2.records.last().unwrap().last);
}
