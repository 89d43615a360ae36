use rustgate::tls::{
    certificates, choose_certificates, choose_key, private_key, KeyKind, PemFault,
};

/// A PEM section with this label.
fn section(label: &str, base64: &str) -> String {
    format!("-----BEGIN {label}-----\n{base64}\n-----END {label}-----\n")
}

fn missing<T>(r: Result<T, PemFault>) -> Option<String> {
    match r {
        Err(PemFault::Missing(m)) => Some(m),
        _ => None,
    }
}

#[test]
fn certificates_come_in_their_order() {
    let file = [
        "some text\n".to_string(),
        section("CERTIFICATE", "AQID"),
        section("PUBLIC KEY", "AAAA"),
        section("CERTIFICATE", "BAU="),
    ]
    .concat();
    let certs = certificates("/c.pem", file.as_bytes()).unwrap();
    assert_eq!(certs, vec![vec![1, 2, 3], vec![4, 5]]);
}

#[test]
fn a_file_without_a_certificate_is_told_by_its_path() {
    let message = Some("证书文件 `/c.pem` 中没有找到 PEM 证书".to_string());
    assert_eq!(missing(certificates("/c.pem", b"")), message);
    let file = section("PUBLIC KEY", "AQID");
    assert_eq!(missing(certificates("/c.pem", file.as_bytes())), message);
}

#[test]
fn the_first_key_of_any_kind_is_taken() {
    let (rsa, ec, any) = ("RSA PRIVATE KEY", "EC PRIVATE KEY", "PRIVATE KEY");
    for (label, kind) in [(rsa, KeyKind::Pkcs1), (ec, KeyKind::Sec1), (any, KeyKind::Pkcs8)] {
        let file = [
            section("CERTIFICATE", "AAAA"),
            section(label, "AQID"),
            section(any, "BAUG"),
        ]
        .concat();
        assert_eq!(private_key("/k.pem", file.as_bytes()).unwrap(), (kind, vec![1, 2, 3]));
    }
}

#[test]
fn a_file_without_a_key_is_told_by_its_path() {
    let message = Some("私钥文件 `/k.pem` 中没有找到 PEM 私钥".to_string());
    assert_eq!(missing(private_key("/k.pem", b"")), message);
    let file = section("CERTIFICATE", "AQID");
    assert_eq!(missing(private_key("/k.pem", file.as_bytes())), message);
}

#[test]
fn faulty_files_are_refused() {
    let bad = section("CERTIFICATE", "?");
    assert!(matches!(certificates("/c", bad.as_bytes()), Err(PemFault::Faulty(_))));
    assert!(matches!(private_key("/k", bad.as_bytes()), Err(PemFault::Faulty(_))));
    let open = "-----BEGIN CERTIFICATE-----\nAQID\n";
    assert!(matches!(certificates("/c", open.as_bytes()), Err(PemFault::Faulty(_))));
    // What follows a certificate may spoil the file, what follows a key may not.
    let late = [section("CERTIFICATE", "AQID"), bad.clone()].concat();
    assert!(matches!(certificates("/c", late.as_bytes()), Err(PemFault::Faulty(_))));
    let late = [section("PRIVATE KEY", "AQID"), bad].concat();
    assert_eq!(private_key("/k", late.as_bytes()).unwrap(), (KeyKind::Pkcs8, vec![1, 2, 3]));
}

#[test]
fn what_was_found_is_chosen() {
    assert_eq!(choose_certificates("p", Ok(vec![vec![7]])).unwrap(), vec![vec![7]]);
    assert_eq!(
        missing(choose_certificates("p", Ok(vec![]))),
        Some("证书文件 `p` 中没有找到 PEM 证书".to_string())
    );
    assert_eq!(choose_key("p", Ok(Some((KeyKind::Sec1, vec![7])))).unwrap(), (KeyKind::Sec1, vec![7]));
    assert_eq!(
        missing(choose_key("p", Ok(None))),
        Some("私钥文件 `p` 中没有找到 PEM 私钥".to_string())
    );
    let fault = std::io::Error::new(std::io::ErrorKind::InvalidData, "x");
    match choose_key("p", Err(fault)) {
        Err(PemFault::Faulty(e)) => assert_eq!(e.to_string(), "x"),
        _ => panic!("the fault is to be handed on"),
    }
    let fault = std::io::Error::new(std::io::ErrorKind::InvalidData, "y");
    match choose_certificates("p", Err(fault)) {
        Err(PemFault::Faulty(e)) => assert_eq!(e.to_string(), "y"),
        _ => panic!("the fault is to be handed on"),
    }
}
