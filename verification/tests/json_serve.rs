use rx::json_serve::{Docs, respond};
use rx::text::first_line;

fn docs() -> Docs {
    let mut d = Docs::default();
    d.aircraft = "{\"aircraft\":[]}".into();
    d.stats = "{\"total\":{}}".into();
    d
}

#[test]
fn the_two_documents_by_either_name() {
    let d = docs();
    for p in [
        "/aircraft.json",
        "/data/aircraft.json",
        "/aircraft.json?_=1",
    ] {
        assert_eq!(
            d.body(&format!("GET {p} HTTP/1.1")).unwrap(),
            "{\"aircraft\":[]}"
        );
    }
    assert_eq!(
        d.body("GET /stats.json HTTP/1.0").unwrap(),
        "{\"total\":{}}"
    );
    assert!(d.body("GET /index.html HTTP/1.0").is_none());
    assert!(d.body("POST /aircraft.json HTTP/1.0").is_none());
    assert!(d.body("").is_none());
}

#[test]
fn responses_carry_a_length_and_close() {
    let d = docs();
    let r = respond(&d, "GET /aircraft.json HTTP/1.1");
    assert!(r.starts_with("HTTP/1.0 200 OK\r\n"));
    assert!(r.contains("Content-Length: 15\r\n"));
    assert!(r.ends_with("\r\n\r\n{\"aircraft\":[]}"));
    assert!(respond(&d, "GET /nope HTTP/1.1").starts_with("HTTP/1.0 404"));
    // Before the first tick there is nothing to serve yet, and that
    // is not a 200 with an empty body.
    let empty = Docs::default();
    assert!(respond(&empty, "GET /aircraft.json HTTP/1.1").starts_with("HTTP/1.0 503"));
}

#[test]
fn whole_responses() {
    let d = docs();
    assert_eq!(
        respond(&d, "GET /stats.json"),
        "HTTP/1.0 200 OK\r\nContent-Type: application/json\r\nContent-Length: 12\r\n\
         Cache-Control: no-store\r\nConnection: close\r\n\r\n{\"total\":{}}"
    );
    assert_eq!(
        respond(&d, "GET"),
        "HTTP/1.0 404 Not Found\r\nContent-Length: 0\r\nConnection: close\r\n\r\n"
    );
    assert_eq!(
        respond(&Docs::default(), "GET /stats.json"),
        "HTTP/1.0 503 Service Unavailable\r\nContent-Length: 0\r\nConnection: close\r\n\r\n"
    );
}

#[test]
fn lengths_are_of_bytes() {
    let mut d = docs();
    d.aircraft = "\u{e9}\u{4e2d}".into();
    assert!(respond(&d, "GET /data/aircraft.json").contains("Content-Length: 5\r\n"));
    d.aircraft = "x".repeat(1234);
    assert!(respond(&d, "GET /data/aircraft.json").contains("Content-Length: 1234\r\n"));
}

#[test]
fn words_are_set_apart_by_any_white_space() {
    let d = docs();
    assert!(d.body("\t GET \u{3000} /stats.json").is_some());
    assert!(d.body("GET/stats.json").is_none());
    assert!(d.body("get /stats.json").is_none());
    assert!(d.body("GET /data/stats.json?a?b").is_some());
    assert!(d.body("GET ?/stats.json").is_none());
}

#[test]
fn requests_end_at_the_first_line() {
    assert_eq!(first_line("GET / HTTP/1.0\r\nHost: x\r\n\r\n"), "GET / HTTP/1.0");
    assert_eq!(first_line("a\nb"), "a");
    assert_eq!(first_line("a\r"), "a\r");
    assert_eq!(first_line("\nb"), "");
    assert_eq!(first_line(""), "");
}

#[test]
fn what_follows_the_first_blank_line_is_the_document() {
    let mut d = docs();
    d.aircraft = "\r\n\r\nx".into();
    for line in ["GET /aircraft.json", "GET /stats.json", "PUT /stats.json", ""] {
        let r = respond(&d, line);
        let body = d.body(line).unwrap_or_default();
        let (head, rest) = r.split_once("\r\n\r\n").unwrap();
        assert_eq!(rest, body);
        let fields: Vec<&str> = head.split("\r\n").collect();
        assert!(fields.contains(&format!("Content-Length: {}", body.len()).as_str()));
        assert!(fields.contains(&"Connection: close"));
    }
}
