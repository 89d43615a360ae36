use rustgate::forward::forward_plan;
use rustgate::headers::{
    connection_hop_tokens, header_text, is_forwardable_header, strip_response_hop_by_hop,
    valid_request_boundaries,
};

fn mk_headers(pairs: &[(&str, &str)]) -> hyper::HeaderMap {
    let mut h = hyper::HeaderMap::new();
    for (k, v) in pairs {
        h.insert(
            hyper::header::HeaderName::from_bytes(k.as_bytes()).unwrap(),
            hyper::header::HeaderValue::from_str(v).unwrap(),
        );
    }
    h
}

fn forwardable(headers: &hyper::HeaderMap) -> (Vec<String>, Vec<String>) {
    let hop = connection_hop_tokens(headers);
    let mut keep = Vec::new();
    let mut xff = Vec::new();
    for (k, v) in headers {
        if is_forwardable_header(k.as_str(), &hop) {
            keep.push(format!("{}: {}", k, v.to_str().unwrap()));
        } else if k.as_str() == "x-forwarded-for" || k.as_str() == "x-real-ip" {
            xff.push(k.as_str().to_string());
        }
    }
    (keep, xff)
}

#[test]
fn connection_hop_tokens_parses_and_lowercases() {
    let h = mk_headers(&[("connection", "keep-alive, X-Custom-Hop")]);
    let tokens = connection_hop_tokens(&h);
    assert_eq!(tokens, vec!["keep-alive", "x-custom-hop"]);
}

#[test]
fn strips_hop_by_hop_and_forged_headers() {
    let h = mk_headers(&[
        ("connection", "keep-alive"),
        ("keep-alive", "timeout=5"),
        ("transfer-encoding", "chunked"),
        ("te", "trailers"),
        ("upgrade", "websocket"),
        ("proxy-connection", "keep-alive"),
        ("x-forwarded-for", "6.6.6.6, 7.7.7.7"),
        ("x-real-ip", "8.8.8.8"),
        ("user-agent", "curl/8"),
    ]);
    let (keep, forged) = forwardable(&h);

    assert!(
        !keep.iter().any(|l| l.starts_with("connection:")
            || l.starts_with("keep-alive:")
            || l.starts_with("transfer-encoding:")
            || l.starts_with("te:")
            || l.starts_with("upgrade:")
            || l.starts_with("proxy-connection:")),
        "{keep:?}"
    );
    assert!(keep.iter().any(|l| l == "user-agent: curl/8"));
    assert_eq!(forged, vec!["x-forwarded-for", "x-real-ip"]);
}

#[test]
fn strips_headers_named_by_connection() {
    let h = mk_headers(&[
        ("connection", "X-Custom-Hop"),
        ("x-custom-hop", "secret"),
        ("user-agent", "curl/8"),
    ]);
    let (keep, _) = forwardable(&h);
    assert!(!keep.iter().any(|l| l.starts_with("x-custom-hop:")), "{keep:?}");
    assert!(keep.iter().any(|l| l == "user-agent: curl/8"));
}

#[test]
fn keeps_end_to_end_headers() {
    let h = mk_headers(&[
        ("content-length", "5"),
        ("content-type", "application/json"),
        ("cookie", "a=b"),
    ]);
    let (keep, _) = forwardable(&h);
    assert!(keep.iter().any(|l| l == "content-length: 5"));
    assert!(keep.iter().any(|l| l == "content-type: application/json"));
    assert!(keep.iter().any(|l| l == "cookie: a=b"));
}

#[test]
fn host_is_never_forwarded() {
    let h = mk_headers(&[("host", "evil.example.com"), ("user-agent", "curl/8")]);
    let (keep, _) = forwardable(&h);
    assert!(!keep.iter().any(|l| l.starts_with("host:")));
}

#[test]
fn response_hop_by_hop_headers_are_stripped() {
    let mut resp_headers = mk_headers(&[
        ("connection", "keep-alive"),
        ("keep-alive", "timeout=5"),
        ("transfer-encoding", "chunked"),
        ("upgrade", "websocket"),
        ("content-type", "text/plain"),
        ("content-length", "3"),
    ]);
    strip_response_hop_by_hop(&mut resp_headers);

    for name in ["connection", "keep-alive", "transfer-encoding", "upgrade"] {
        assert!(resp_headers.get(name).is_none(), "{name}");
    }
    assert_eq!(resp_headers.get("content-type").unwrap(), "text/plain");
    assert_eq!(resp_headers.get("content-length").unwrap(), "3");
}

#[test]
fn response_headers_that_connection_lists_are_stripped() {
    let mut h = mk_headers(&[("connection", "X-Hop,"), ("set-cookie", "a=1"), ("vary", "b")]);
    h.append("x-hop", "1".parse().unwrap());
    h.append("x-hop", "2".parse().unwrap());
    h.append("set-cookie", "c=2".parse().unwrap());
    strip_response_hop_by_hop(&mut h);
    assert!(h.get("x-hop").is_none());
    let cookies: Vec<&str> = h
        .get_all("set-cookie")
        .iter()
        .map(|v| v.to_str().unwrap())
        .collect();
    assert_eq!(cookies, vec!["a=1", "c=2"]);
    assert_eq!(h.get("vary").unwrap(), "b");
}

#[test]
fn valid_boundaries_accepts_normal_cl_and_te() {
    assert!(valid_request_boundaries(&mk_headers(&[("content-length", "5")])));
    assert!(valid_request_boundaries(&mk_headers(&[("transfer-encoding", "chunked")])));
    assert!(valid_request_boundaries(&hyper::HeaderMap::new()));
}

#[test]
fn valid_boundaries_rejects_cl_plus_te() {
    assert!(!valid_request_boundaries(&mk_headers(&[
        ("content-length", "5"),
        ("transfer-encoding", "chunked"),
    ])));
}

#[test]
fn valid_boundaries_rejects_duplicate_or_bad_cl() {
    let mut dup = hyper::HeaderMap::new();
    dup.append("content-length", "5".parse().unwrap());
    dup.append("content-length", "6".parse().unwrap());
    assert!(!valid_request_boundaries(&dup));
    assert!(!valid_request_boundaries(&mk_headers(&[("content-length", "abc")])));
}

#[test]
fn valid_boundaries_rejects_bad_te() {
    assert!(!valid_request_boundaries(&mk_headers(&[("transfer-encoding", "gzip")])));
    assert!(!valid_request_boundaries(&mk_headers(&[
        ("transfer-encoding", "chunked"),
        ("transfer-encoding", "gzip"),
    ])));
}

#[test]
fn boundaries_at_their_edges() {
    let mut same = hyper::HeaderMap::new();
    same.append("content-length", "5".parse().unwrap());
    same.append("content-length", " 5 ".parse().unwrap());
    assert!(valid_request_boundaries(&same));
    assert!(!valid_request_boundaries(&mk_headers(&[("content-length", "")])));
    assert!(!valid_request_boundaries(&mk_headers(&[("content-length", "+5")])));
    assert!(valid_request_boundaries(&mk_headers(&[("transfer-encoding", " Chunked ")])));
    let mut two = hyper::HeaderMap::new();
    two.append("transfer-encoding", "chunked".parse().unwrap());
    two.append("transfer-encoding", "chunked".parse().unwrap());
    assert!(!valid_request_boundaries(&two));
}

#[test]
fn a_transfer_encoding_that_is_no_text_is_refused() {
    for te in [&b"\xff"[..], &b"chunked\xff"[..]] {
        let value = hyper::header::HeaderValue::from_bytes(te).unwrap();
        let mut alone = hyper::HeaderMap::new();
        alone.insert("transfer-encoding", value.clone());
        assert!(!valid_request_boundaries(&alone));
        let mut beside_length = mk_headers(&[("content-length", "5")]);
        beside_length.insert("transfer-encoding", value.clone());
        assert!(!valid_request_boundaries(&beside_length));
        let mut beside_chunked = mk_headers(&[("transfer-encoding", "chunked")]);
        beside_chunked.append("transfer-encoding", value);
        assert!(!valid_request_boundaries(&beside_chunked));
    }
}

#[test]
fn tokens_of_several_connection_headers() {
    let mut h = hyper::HeaderMap::new();
    h.append("connection", " A ,, b".parse().unwrap());
    h.append("connection", hyper::header::HeaderValue::from_bytes(b"\xffc").unwrap());
    h.append("connection", "D".parse().unwrap());
    assert_eq!(connection_hop_tokens(&h), vec!["a", "b", "d"]);
}

#[test]
fn only_visible_text_is_text() {
    assert_eq!(header_text(&b"a\tb ~".to_vec()), Some("a\tb ~".to_string()));
    assert_eq!(header_text(&vec![0x7f]), None);
    assert_eq!(header_text(&vec![0x80]), None);
    assert_eq!(header_text(&vec![]), Some(String::new()));
}

#[test]
fn forward_rewrites_xff_and_strips_host() {
    let h = mk_headers(&[
        ("user-agent", "curl/8"),
        ("x-forwarded-for", "6.6.6.6"),
        ("host", "evil.example.com"),
    ]);
    let plan = forward_plan("http://127.0.0.1:8080", Some("/index.html"), &h, "9.9.9.9");
    assert_eq!(plan.target, "http://127.0.0.1:8080/index.html");
    assert_eq!(
        plan.fields,
        vec![
            ("user-agent".to_string(), b"curl/8".to_vec()),
            ("x-forwarded-for".to_string(), b"9.9.9.9".to_vec()),
        ]
    );
}

#[test]
fn forwarding_without_a_path() {
    let plan = forward_plan("http://b", None, &hyper::HeaderMap::new(), "bad\nvalue");
    assert_eq!(plan.target, "http://b/");
    assert!(plan.fields.is_empty());
}
