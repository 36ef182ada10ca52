use teamy_fs::chat::take_sse_payloads;

#[test]
fn data_lines_yield_payloads() {
    let mut buffer = String::new();
    let got = take_sse_payloads(&mut buffer, "event: message_start\ndata: {\"a\":1}\r\n\n");
    assert_eq!(got, vec!["{\"a\":1}"]);
    assert_eq!(buffer, "");
}

#[test]
fn partial_line_waits_for_rest() {
    let mut buffer = String::new();
    assert!(take_sse_payloads(&mut buffer, "data: par").is_empty());
    assert_eq!(buffer, "data: par");
    let got = take_sse_payloads(&mut buffer, "tial\ndata: next");
    assert_eq!(got, vec!["partial"]);
    assert_eq!(buffer, "data: next");
}

#[test]
fn done_marker_and_other_fields_skipped() {
    let mut buffer = String::new();
    let got = take_sse_payloads(&mut buffer, "data: [DONE]\n: comment\ndata:x\ndata: [DONE]x\n\r\n");
    assert_eq!(got, vec!["[DONE]x"]);
}

#[test]
fn trailing_carriage_returns_trimmed() {
    let mut buffer = String::new();
    let got = take_sse_payloads(&mut buffer, "data: v\r\r\ndata: [DONE]\r\n");
    assert_eq!(got, vec!["v"]);
}
