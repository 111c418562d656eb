use dpi_desync::desync::build_params;
use dpi_desync::desync::desync_plan;
use dpi_desync::desync::first_payload_plan;
use dpi_desync::desync::method_part;
use dpi_desync::desync::Method;
use dpi_desync::desync::SegKind;

fn positions(params: &dpi_desync::desync::Params) -> Vec<usize> {
    params.methods.iter().map(|m| method_part(m).pos).collect()
}

#[test]
fn build_params_sorts_descending() {
    let params = build_params(Some(20), Some(50), Some(80), None);
    assert_eq!(positions(&params), vec![80, 50, 20]);
    assert!(matches!(params.methods[0], Method::Oob(_)));
    assert!(matches!(params.methods[1], Method::Split(_)));
    assert!(matches!(params.methods[2], Method::Disorder(_)));
    assert!(params.tlsrec.is_none());
}

#[test]
fn build_params_keeps_tie_order() {
    let params = build_params(Some(50), Some(50), None, None);
    assert_eq!(positions(&params), vec![50, 50]);
    assert!(matches!(params.methods[0], Method::Disorder(_)));
    assert!(matches!(params.methods[1], Method::Split(_)));
}

#[test]
fn build_params_records_tlsrec() {
    let params = build_params(None, None, None, Some(7));
    assert!(params.methods.is_empty());
    let part = params.tlsrec.expect("tlsrec part");
    assert_eq!(part.pos, 7);
    assert!(part.flag.is_none());
}

#[test]
fn plan_consumes_largest_position_first() {
    // Three methods at 20, 50 and 80: the emitter takes them descending, so
    // the method at 80 covers bytes 0..80 and everything after it breaks the
    // loop; the remainder goes out as the tail.
    let params = build_params(Some(20), Some(50), Some(80), None);
    let payload: Vec<u8> = (0..100u32).map(|i| i as u8).collect();
    let segs = desync_plan(&payload, &params, false);
    assert_eq!(segs.len(), 2);
    assert_eq!(segs[0].kind, SegKind::Oob);
    assert_eq!(segs[0].data.len(), 81);
    assert_eq!(&segs[0].data[..80], &payload[..80]);
    assert_eq!(segs[0].data[80], 0x61);
    assert_eq!(segs[1].kind, SegKind::Tail);
    assert_eq!(&segs[1].data[..], &payload[80..]);
}

#[test]
fn plan_skips_second_equal_position() {
    let params = build_params(Some(50), Some(50), None, None);
    let payload: Vec<u8> = (0..100u32).map(|i| i as u8).collect();
    let segs = desync_plan(&payload, &params, false);
    assert_eq!(segs.len(), 2);
    assert_eq!(segs[0].kind, SegKind::Disorder);
    assert_eq!(&segs[0].data[..], &payload[..50]);
    assert_eq!(segs[1].kind, SegKind::Tail);
    assert_eq!(&segs[1].data[..], &payload[50..]);
}

#[test]
fn plan_disorder_below_split_is_skipped() {
    // disorder at 8 together with split at 20: split is processed first, the
    // disorder cannot advance the offset any more and is skipped.
    let params = build_params(Some(8), Some(20), None, None);
    let payload: Vec<u8> = (0..40u32).map(|i| i as u8).collect();
    let segs = desync_plan(&payload, &params, false);
    assert_eq!(segs.len(), 2);
    assert_eq!(segs[0].kind, SegKind::Split);
    assert_eq!(&segs[0].data[..], &payload[..20]);
    assert_eq!(segs[1].kind, SegKind::Tail);
    assert_eq!(&segs[1].data[..], &payload[20..]);
}

#[test]
fn plan_skips_positions_outside_payload() {
    let params = build_params(None, Some(64), None, None);
    let payload: Vec<u8> = (0..10u32).map(|i| i as u8).collect();
    let segs = desync_plan(&payload, &params, false);
    assert_eq!(segs.len(), 1);
    assert_eq!(segs[0].kind, SegKind::Tail);
    assert_eq!(&segs[0].data[..], &payload[..]);
}

#[test]
fn unclassified_payload_passes_through_verbatim() {
    let params = build_params(Some(8), Some(20), Some(30), Some(1));
    let payload = "hello world, neither http nor a hello".as_bytes();
    let segs = first_payload_plan(payload, &params);
    assert_eq!(segs.len(), 1);
    assert_eq!(segs[0].kind, SegKind::Tail);
    assert_eq!(&segs[0].data[..], payload);
}

#[test]
fn no_flags_forward_unchanged() {
    let params = build_params(None, None, None, None);
    let http = "GET / HTTP/1.1\r\nHost: a.example\r\n\r\n".as_bytes();
    let segs = first_payload_plan(http, &params);
    assert_eq!(segs.len(), 1);
    assert_eq!(segs[0].kind, SegKind::Tail);
    assert_eq!(&segs[0].data[..], http);
    let raw = [9u8, 8, 7, 6, 5];
    let segs = first_payload_plan(&raw, &params);
    assert_eq!(segs.len(), 1);
    assert_eq!(segs[0].kind, SegKind::Tail);
    assert_eq!(&segs[0].data[..], &raw);
}

#[test]
fn split_five_cuts_http_get_after_five_bytes() {
    let params = build_params(None, Some(5), None, None);
    let payload = "GET / HTTP/1.1\r\nHost: a.example\r\n\r\n".as_bytes();
    let segs = first_payload_plan(payload, &params);
    assert_eq!(segs.len(), 2);
    assert_eq!(segs[0].kind, SegKind::Split);
    assert_eq!(&segs[0].data[..], "GET /".as_bytes());
    assert_eq!(segs[1].kind, SegKind::Tail);
    assert_eq!(&segs[1].data[..], &payload[5..]);
}

/// A synthetic 200-byte ClientHello: handshake record header with length
/// 0xC3, a ClientHello handshake byte, and a zero pair right after it so the
/// classifier finds an anchor.
fn synthetic_client_hello() -> Vec<u8> {
    let mut buf = vec![0x16u8, 0x03, 0x01, 0x00, 0xc3, 0x01, 0x00, 0x00];
    for i in 0..192u32 {
        buf.push((1 + i % 250) as u8);
    }
    assert_eq!(buf.len(), 200);
    buf
}

#[test]
fn tlsrec_reframes_hello_into_two_records() {
    let params = build_params(None, None, None, Some(1));
    let hello = synthetic_client_hello();
    let segs = first_payload_plan(&hello, &params);
    assert_eq!(segs.len(), 1);
    assert_eq!(segs[0].kind, SegKind::Tail);
    let out = &segs[0].data;
    assert_eq!(out.len(), 205);
    assert_eq!(&out[0..5], &[0x16, 0x03, 0x01, 0x00, 0x01]);
    assert_eq!(out[5], hello[5]);
    assert_eq!(&out[6..11], &[0x16, 0x03, 0x01, 0x00, 0xc2]);
    assert_eq!(&out[11..], &hello[6..]);
}

#[test]
fn oob_substitutes_urgent_byte_and_keeps_stream() {
    let params = build_params(None, None, Some(10), None);
    let hello = synthetic_client_hello();
    let segs = first_payload_plan(&hello, &params);
    assert_eq!(segs.len(), 2);
    assert_eq!(segs[0].kind, SegKind::Oob);
    assert_eq!(segs[0].data.len(), 11);
    assert_eq!(&segs[0].data[..10], &hello[..10]);
    assert_eq!(segs[0].data[10], 0x61);
    assert_eq!(segs[1].kind, SegKind::Tail);
    assert_eq!(&segs[1].data[..], &hello[10..]);
    // With the urgent byte discarded by the receiver, the stream reassembles
    // to the original payload: byte 10 arrives through the tail, not as 'a'.
    let mut stream = segs[0].data[..10].to_vec();
    stream.extend_from_slice(&segs[1].data);
    assert_eq!(stream, hello);
}

#[test]
fn empty_payload_passes_through() {
    let params = build_params(Some(8), Some(20), None, Some(1));
    let segs = first_payload_plan(&[], &params);
    assert_eq!(segs.len(), 1);
    assert_eq!(segs[0].kind, SegKind::Tail);
    assert!(segs[0].data.is_empty());
}

#[test]
fn tlsrec_out_of_range_is_skipped() {
    let hello = synthetic_client_hello();
    // The record length is 195: a split position at or past it is skipped.
    let params = build_params(None, None, None, Some(195));
    let segs = first_payload_plan(&hello, &params);
    assert_eq!(segs.len(), 1);
    assert_eq!(segs[0].kind, SegKind::Tail);
    assert_eq!(&segs[0].data[..], &hello[..]);
}

#[test]
fn tlsrec_ignored_for_http_payload() {
    let params = build_params(None, None, None, Some(1));
    let payload = "GET / HTTP/1.1\r\nHost: a.example\r\n\r\n".as_bytes();
    let segs = first_payload_plan(payload, &params);
    assert_eq!(segs.len(), 1);
    assert_eq!(segs[0].kind, SegKind::Tail);
    assert_eq!(&segs[0].data[..], payload);
}

#[test]
fn method_positions_out_of_range_leave_payload_whole() {
    // Methods whose positions fall outside the payload are silently skipped.
    let params = build_params(Some(300), Some(400), Some(500), None);
    let hello = synthetic_client_hello();
    let segs = first_payload_plan(&hello, &params);
    assert_eq!(segs.len(), 1);
    assert_eq!(segs[0].kind, SegKind::Tail);
    assert_eq!(&segs[0].data[..], &hello[..]);
}

#[test]
fn disorder_and_split_combined() {
    let params = build_params(Some(8), Some(20), None, None);
    let hello = synthetic_client_hello();
    let segs = first_payload_plan(&hello, &params);
    assert_eq!(segs.len(), 2);
    assert_eq!(segs[0].kind, SegKind::Split);
    assert_eq!(&segs[0].data[..], &hello[..20]);
    assert_eq!(segs[1].kind, SegKind::Tail);
    assert_eq!(&segs[1].data[..], &hello[20..]);
}
