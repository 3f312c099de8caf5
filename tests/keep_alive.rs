use hyper::head::{should_keep_alive, HttpVersion, MessageHead, RequestLine};
use hyper::headers::Headers;

#[test]
fn test_should_keep_alive() {
    let mut headers = Headers::new();

    assert!(!should_keep_alive(HttpVersion::Http10, &headers));
    assert!(should_keep_alive(HttpVersion::Http11, &headers));

    headers.set(b"Connection".to_vec(), b"close".to_vec());
    assert!(!should_keep_alive(HttpVersion::Http10, &headers));
    assert!(!should_keep_alive(HttpVersion::Http11, &headers));

    headers.set(b"Connection".to_vec(), b"keep-alive".to_vec());
    assert!(should_keep_alive(HttpVersion::Http10, &headers));
    assert!(should_keep_alive(HttpVersion::Http11, &headers));
}

#[test]
fn keep_alive_defaults_and_options() {
    let empty = Headers::new();
    assert!(!should_keep_alive(HttpVersion::Http10, &empty));
    assert!(should_keep_alive(HttpVersion::Http11, &empty));

    let mut ka = Headers::new();
    ka.append(b"Connection".to_vec(), b"keep-alive".to_vec());
    assert!(should_keep_alive(HttpVersion::Http10, &ka));

    let mut close = Headers::new();
    close.append(b"Connection".to_vec(), b"close".to_vec());
    assert!(!should_keep_alive(HttpVersion::Http11, &close));
}

#[test]
fn keep_alive_option_lists_and_case() {
    let mut h = Headers::new();
    h.append(b"connection".to_vec(), b"Upgrade ,  Keep-Alive".to_vec());
    assert!(should_keep_alive(HttpVersion::Http10, &h));

    let mut h2 = Headers::new();
    h2.append(b"CONNECTION".to_vec(), b"foo, CLOSE".to_vec());
    assert!(!should_keep_alive(HttpVersion::Http11, &h2));

    let mut h3 = Headers::new();
    h3.append(b"Connection".to_vec(), b"closed".to_vec());
    assert!(should_keep_alive(HttpVersion::Http11, &h3));
}

#[test]
fn message_head_keep_alive() {
    let mut headers = Headers::new();
    headers.append(b"Connection".to_vec(), b"close".to_vec());
    let head = MessageHead::new(
        HttpVersion::Http11,
        RequestLine::new(b"GET".to_vec(), b"/".to_vec()),
        headers,
    );
    assert!(!head.should_keep_alive());
}

#[test]
fn headers_set_replaces_all_of_a_name() {
    let mut h = Headers::new();
    h.append(b"A".to_vec(), b"1".to_vec());
    h.append(b"b".to_vec(), b"2".to_vec());
    h.append(b"a".to_vec(), b"3".to_vec());
    h.set(b"A".to_vec(), b"4".to_vec());
    assert_eq!(h.len(), 2);
    assert_eq!(h.name_at(0), b"b");
    assert_eq!(h.value_at(1), b"4");
    assert!(h.has(b"a"));
    assert_eq!(h.find_last(b"B"), Some(0));
}
