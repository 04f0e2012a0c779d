use prediction_core::config::{listen_port, matcher_base, parse_port, API_PORT, MATCHER_PORT};
use prediction_core::relay_url::{choose_ws_scheme, edited_or_refused, matcher_ws_url};
use prediction_core::text::{concat_text, trim_trailing_slashes};

#[test]
fn ports_are_decimal_numbers() {
    for text in [
        "0", "80", "+80", "00080", "65535", "65536", "", "+", "-1", "-0", "++1", "1 ", "8a",
        "99999999999999999999", "\u{664}",
    ] {
        assert_eq!(parse_port(text), text.parse::<u16>().ok(), "{text:?}");
    }
    assert_eq!(parse_port("3001"), Some(3001));
}

#[test]
fn default_ports() {
    assert_eq!(listen_port(None, MATCHER_PORT), 3001);
    assert_eq!(listen_port(None, API_PORT), 3000);
    assert_eq!(listen_port(Some("none".to_string()), API_PORT), 3000);
    assert_eq!(listen_port(Some("3002".to_string()), API_PORT), 3002);
}

#[test]
fn matcher_is_local_by_default() {
    assert_eq!(matcher_base(None), "http://127.0.0.1:3001");
    assert_eq!(matcher_base(Some("http://m".to_string())), "http://m");
}

#[test]
fn ws_url_of_http_matchers() {
    assert_eq!(
        matcher_ws_url("http://127.0.0.1:3001"),
        Ok("ws://127.0.0.1:3001/ws".to_string())
    );
    assert_eq!(
        matcher_ws_url("https://user:pw@Matcher.example:443/a/b?c=d#e"),
        Ok("wss://user:pw@matcher.example/ws".to_string())
    );
    assert_eq!(matcher_ws_url("http://h:80/"), Ok("ws://h/ws".to_string()));
    assert_eq!(matcher_ws_url("HTTP://h:8080?q"), Ok("ws://h:8080/ws".to_string()));
}

#[test]
fn ws_url_of_other_texts() {
    assert_eq!(matcher_ws_url("ftp://h/"), Err("unsupported scheme: ftp".to_string()));
    assert_eq!(matcher_ws_url("ws://h/"), Err("unsupported scheme: ws".to_string()));
    assert_eq!(
        matcher_ws_url("127.0.0.1"),
        Err("relative URL without a base".to_string())
    );
    assert_eq!(matcher_ws_url("http://"), Err("empty host".to_string()));
    assert_eq!(
        matcher_ws_url("http://h:99999"),
        Err("invalid port number".to_string())
    );
}

#[test]
fn ws_schemes() {
    assert_eq!(choose_ws_scheme("http"), Ok("ws".to_string()));
    assert_eq!(choose_ws_scheme("https"), Ok("wss".to_string()));
    assert_eq!(choose_ws_scheme("HTTP"), Err("unsupported scheme: HTTP".to_string()));
    assert_eq!(choose_ws_scheme(""), Err("unsupported scheme: ".to_string()));
}

#[test]
fn refused_schemes_are_named() {
    assert_eq!(edited_or_refused("ws", None), Err("ws scheme".to_string()));
    assert_eq!(edited_or_refused("wss", None), Err("wss scheme".to_string()));
    assert_eq!(
        edited_or_refused("ws", Some("ws://h/ws".to_string())),
        Ok("ws://h/ws".to_string())
    );
}

#[test]
fn text_is_joined_and_trimmed() {
    assert_eq!(concat_text("a\u{e9}", "b"), "a\u{e9}b");
    assert_eq!(trim_trailing_slashes("\u{e9}/a//"), "\u{e9}/a");
    assert_eq!(trim_trailing_slashes("///"), "");
}

#[test]
fn ws_url_keeps_the_authority() {
    for base in [
        "http://h",
        "http://h:80/x",
        "https://h:443",
        "http://h:443",
        "https://h:80/?q",
        "http://user:p%2Fw@h:8080/a/../b?c#d",
        "http://[::1]:3001/",
        "https://127.1/",
        "http://b\u{fc}cher.example/\u{e9}",
    ] {
        let parsed = url::Url::parse(base).unwrap();
        let scheme = if parsed.scheme() == "http" { "ws" } else { "wss" };
        let expected = format!("{scheme}://{}/ws", parsed.authority());
        assert_eq!(matcher_ws_url(base), Ok(expected));
    }
}

#[test]
fn ws_url_ignores_path_query_and_fragment() {
    let expected = Ok("ws://u@h:3001/ws".to_string());
    for base in [
        "http://u@h:3001",
        "http://u@h:3001/",
        "http://u@h:3001/a/b",
        "http://u@h:3001?x=/y",
        "http://u@h:3001/a?b#c",
        "http://u@h:3001#?",
    ] {
        assert_eq!(matcher_ws_url(base), expected);
    }
}
