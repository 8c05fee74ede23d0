use ausgarde::common::config::Server;
use ausgarde::common::time;

#[test]
fn timespan() {
    assert_eq!(time::timespan("5m"), Some(300));
    assert_eq!(time::timespan("1h"), Some(3600));
    assert_eq!(time::timespan("3h30m"), Some(3 * 3600 + 30 * 60));
    assert_eq!(time::timespan("1d5h30m"), Some(86400 + 5 * 3600 + 30 * 60));
}

#[test]
fn timespan_rejects_bad_text() {
    assert_eq!(time::timespan("5x"), None);
    assert_eq!(time::timespan("5"), None);
    assert_eq!(time::timespan("m5"), None);
    assert_eq!(time::timespan(""), Some(0));
    assert_eq!(time::timespan("99999999999999999999d"), None);
}

#[test]
fn server_record() {
    let s = Server { port: 8080, bind: "localhost".to_string() };
    assert_eq!(s.port, 8080);
    assert_eq!(s.bind, "localhost");
}
