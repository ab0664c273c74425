use dns_blocker::blocklist::Blocklist;
use dns_blocker::dns::{build_blocked_answer, build_servfail, parse_dns_request};
use dns_blocker::resolver::{handle_query, upstream_server, QueryAction};
use dns_blocker::text::str_less;

fn query(name: &[&str], qtype: u16) -> Vec<u8> {
    let mut q = vec![0x12, 0x34, 1, 0, 0, 1, 0, 0, 0, 0, 0, 0];
    for label in name {
        q.push(label.len() as u8);
        q.extend_from_slice(label.as_bytes());
    }
    q.push(0);
    q.extend_from_slice(&qtype.to_be_bytes());
    q.extend_from_slice(&[0, 1]);
    q
}

#[test]
fn blocked_names_are_answered_locally() {
    let mut b = Blocklist::new();
    b.update_from_text("ads.example\n");
    let bytes = query(&["ads", "example"], 1);
    match handle_query(&b, &bytes) {
        QueryAction::Answer { request, response } => {
            assert_eq!(request.question.qname, "ads.example");
            assert_eq!(response, build_blocked_answer(&bytes, &request));
            assert_eq!(&response[..4], &[0x12, 0x34, 0x85, 0]);
        }
        _ => panic!("expected a local answer"),
    }
}

#[test]
fn other_names_are_forwarded() {
    let mut b = Blocklist::new();
    b.update_from_text("ads.example\n");
    let bytes = query(&["www", "example"], 28);
    match handle_query(&b, &bytes) {
        QueryAction::Forward { request } => {
            assert_eq!(request.question.qname, "www.example");
            assert_eq!(request.question.qtype, 28);
        }
        _ => panic!("expected forwarding"),
    }
}

#[test]
fn unparsable_queries_are_dropped() {
    let b = Blocklist::new();
    assert!(matches!(handle_query(&b, &[1, 2, 3]), QueryAction::Drop));
    let mut bytes = query(&["x"], 1);
    bytes[13] = 0xFF;
    assert!(matches!(handle_query(&b, &bytes), QueryAction::Drop));
}

#[test]
fn str_less_orders_by_code_point() {
    assert!(str_less("a", "b"));
    assert!(str_less("a", "ab"));
    assert!(!str_less("ab", "a"));
    assert!(!str_less("a", "a"));
    assert!(str_less("", "a"));
    assert!(str_less("Z", "a"));
    assert!(str_less("z", "\u{e9}"));
}

#[test]
fn upstream_servers_in_order() {
    assert_eq!(upstream_server(0).as_deref(), Some("8.8.8.8:53"));
    assert_eq!(upstream_server(1).as_deref(), Some("1.1.1.1:53"));
    assert_eq!(upstream_server(2), None);
}

#[test]
fn answers_parse_back_as_responses() {
    let mut b = Blocklist::new();
    b.update_from_text("ads.example\n");
    let bytes = query(&["ads", "example"], 1);
    let QueryAction::Answer { response, .. } = handle_query(&b, &bytes) else {
        panic!("expected a local answer")
    };
    let back = parse_dns_request(&response).unwrap();
    assert!(!back.header.qr);
    assert_eq!(back.header.id, 0x1234);
    assert_eq!(back.question.qname, "ads.example");
    let fail = build_servfail(&bytes, 9);
    let back = parse_dns_request(&fail).unwrap();
    assert!(!back.header.qr);
    assert_eq!(back.header.rcode, 2);
    assert_eq!(back.question.qname, "ads.example");
}

#[test]
fn overrides_hold_over_many_updates() {
    let mut b = Blocklist::new();
    b.block_domain("mine.example".to_string());
    b.unblock_domain("ads.example".to_string());
    for text in ["ads.example\n", "other\n", "", "mine.example\nads.example\n"] {
        b.update_from_text(text);
        assert!(b.check("mine.example"));
        assert!(!b.check("ads.example"));
    }
}
