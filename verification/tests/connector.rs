use rx::beast::Stream;
use rx::connector::{Connector, ConnectorError, parse_connector};

fn push(s: &str) -> (String, Stream, bool, Option<String>) {
    match parse_connector(s).unwrap() {
        Connector::Push { addr, stream, plus, uuid } => (addr, stream, plus, uuid),
        Connector::Pull(_) => panic!("pull"),
    }
}

#[test]
fn connectors_by_protocol() {
    assert_eq!(
        push("feed.example.com,30004,beast_reduce_plus_out,uuid=1a-b"),
        ("feed.example.com:30004".into(), Stream::Reduced, true, Some("1a-b".into()))
    );
    assert_eq!(push("h,1,beast_reduce_out"), ("h:1".into(), Stream::Reduced, false, None));
    assert_eq!(push(" h , 1 , beast_out ,x, uuid=,uuid=b").3, Some("".into()));
    assert_eq!(push("h,1,beast_out").1, Stream::Full);
    assert!(matches!(parse_connector("h,1,beast_in"), Ok(Connector::Pull(a)) if a == "h:1"));
}

#[test]
fn connectors_that_cannot_be_read() {
    assert!(matches!(parse_connector("h,1"), Err(ConnectorError::Short)));
    assert!(matches!(parse_connector(""), Err(ConnectorError::Short)));
    assert!(
        matches!(parse_connector("h,1,sbs_out,uuid=x"), Err(ConnectorError::Protocol(p)) if p == "sbs_out")
    );
    assert!(matches!(parse_connector(",,"), Err(ConnectorError::Protocol(p)) if p.is_empty()));
}
