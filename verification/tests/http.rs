use ic_kit::http::{HttpRequest, HttpResponse, StreamingCallbackToken, StreamingStrategy, CallbackFunc};

fn sorted(mut h: Vec<(String, String)>) -> Vec<(String, String)> {
    h.sort();
    h
}

#[test]
fn request_header_is_case_insensitive() {
    let request = HttpRequest {
        method: "GET".into(),
        url: "/".into(),
        headers: vec![("Host".into(), "example.com".into()), ("host".into(), "other".into())],
        body: vec![],
    };
    assert_eq!(request.header("HOST"), Some("example.com"));
    assert_eq!(request.header("accept"), None);
}

#[test]
fn response_builders() {
    let res = HttpResponse::ok().body(b"Hello".to_vec()).extend_body(b" World".to_vec());
    assert_eq!(res.status_code, 200);
    assert_eq!(res.body, b"Hello World".to_vec());
    assert!(!res.upgrade);
    let res = HttpResponse::new(404).upgrade();
    assert_eq!(res.status_code, 404);
    assert!(res.upgrade);
}

#[test]
fn response_headers_replace_and_remove() {
    let res = HttpResponse::ok()
        .header("Content-Type".into(), "text/html".into())
        .header("X-Foo".into(), "Bar".into())
        .header("X-Foo".into(), "Baz".into());
    assert_eq!(
        sorted(res.headers.clone()),
        vec![("Content-Type".into(), "text/html".into()), ("X-Foo".into(), "Baz".into())]
    );
    let res = res.headers(vec![("X-Foo".into(), "".into()), ("A".into(), "1".into())]);
    assert_eq!(
        sorted(res.headers.clone()),
        vec![("A".into(), "1".into()), ("Content-Type".into(), "text/html".into())]
    );
}

#[test]
fn response_streaming_strategy() {
    let token = StreamingCallbackToken { key: "k".into(), content_encoding: "gzip".into(), index: 1 };
    let res = HttpResponse::ok().streaming_strategy(StreamingStrategy::Callback {
        callback: CallbackFunc { principal: vec![1], method: "next".into() },
        token,
    });
    assert!(res.streaming_strategy.is_some());
}
