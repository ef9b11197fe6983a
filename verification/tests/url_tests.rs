use rumqtt_core::websockets::{split_url, UrlError};

#[test]
fn explicit_port_wins() {
    let (host, port) = split_url("wss://broker.example:9001/path").unwrap();
    assert_eq!(host, "broker.example");
    assert_eq!(port, 9001);
}

#[test]
fn scheme_defaults_apply() {
    assert_eq!(split_url("ws://broker.example/mqtt").unwrap().1, 80);
    assert_eq!(split_url("wss://broker.example/mqtt").unwrap().1, 443);
}

#[test]
fn ipv6_hosts_lose_their_brackets() {
    let (host, port) = split_url("ws://[2001:db8::1]:8080/").unwrap();
    assert_eq!(host, "2001:db8::1");
    assert_eq!(port, 8080);
}

#[test]
fn missing_host_is_an_error() {
    assert!(matches!(split_url("/just/a/path"), Err(UrlError::Protocol)));
}

#[test]
fn unknown_scheme_without_port_is_an_error() {
    assert!(matches!(
        split_url("http://broker.example/mqtt"),
        Err(UrlError::Host)
    ));
}

#[test]
fn unparsable_url_is_an_error() {
    assert!(matches!(split_url("ws://exa mple"), Err(UrlError::Parse(_))));
}
