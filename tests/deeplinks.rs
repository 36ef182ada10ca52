use teamy_fs::deeplink::{meeting_url, teams_call_url};

#[test]
fn call_link_encodes_email() {
    assert_eq!(
        teams_call_url("jane.doe@example.com"),
        "https://teams.microsoft.com/l/call/0/0?users=jane.doe%40example.com"
    );
}

#[test]
fn call_link_keeps_unreserved_and_encodes_utf8() {
    assert_eq!(
        teams_call_url("a-b_c.d~e+f é"),
        "https://teams.microsoft.com/l/call/0/0?users=a-b_c.d~e%2Bf%20%C3%A9"
    );
}

#[test]
fn web_meeting_link_opened_as_is() {
    assert_eq!(meeting_url("https://teams.live.com/meet/123"), "https://teams.live.com/meet/123");
    assert_eq!(meeting_url("http://x"), "http://x");
}

#[test]
fn meeting_id_becomes_join_link() {
    assert_eq!(
        meeting_url("19:meeting_abc@thread.v2/0"),
        "https://teams.microsoft.com/l/meetup-join/19%3Ameeting_abc%40thread.v2%2F0"
    );
    assert_eq!(meeting_url("htt"), "https://teams.microsoft.com/l/meetup-join/htt");
}
