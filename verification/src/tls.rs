//! The certificate and the key that the firewall listens with.
//!
//! Both come as PEM, which `rustls_pemfile` reads. A file that is read without fault can
//! still lack what it is there for; that is told by its path.

use crate::headers;
use crate::text;
use rustls::pki_types::PrivateKeyDer;
use vstd::prelude::*;

verus! {

/// `std::io::Error`.
#[verifier::external_type_specification]
#[verifier::external_body]
pub struct ExIoError(std::io::Error);

/// How a private key is encoded.
#[derive(Clone, Copy, Debug, PartialEq, Eq, Structural)]
pub enum KeyKind {
    Pkcs1,
    Sec1,
    Pkcs8,
}

/// The certificates in a PEM file, in their order; `None` where the file is faulty.
pub uninterp spec fn pem_certificates(bytes: Seq<u8>) -> Option<Seq<Seq<u8>>>;

/// The first private key in a PEM file, if it holds any; `None` where the file is faulty
/// up to there.
pub uninterp spec fn pem_key(bytes: Seq<u8>) -> Option<Option<(KeyKind, Seq<u8>)>>;

/// The certificates that were found, or the fault.
pub open spec fn found_certificates(r: Result<Vec<Vec<u8>>, std::io::Error>) -> Option<
    Seq<Seq<u8>>,
> {
    match r {
        Ok(v) => Some(headers::byte_views(v@)),
        Err(_) => None,
    }
}

/// The key that was found, or the fault.
pub open spec fn found_key(r: Result<Option<(KeyKind, Vec<u8>)>, std::io::Error>) -> Option<
    Option<(KeyKind, Seq<u8>)>,
> {
    match r {
        Ok(Some((kind, der))) => Some(Some((kind, der@))),
        Ok(None) => Some(None),
        Err(_) => None,
    }
}

/// Calls `rustls_pemfile::certs` on the bytes and takes the contents of each certificate
/// out, up to the first fault. Whether there is a fault, and the certificates where there
/// is none, are a function of the bytes. Nothing is said of the error itself.
#[verifier::external_body]
pub(crate) fn read_certificates(bytes: &[u8]) -> (r: Result<Vec<Vec<u8>>, std::io::Error>)
    ensures
        found_certificates(r) == pem_certificates(bytes@),
{
    let mut rest = bytes;
    rustls_pemfile::certs(&mut rest).map(|c| c.map(|der| der.to_vec())).collect()
}

/// Calls `rustls_pemfile::private_key` on the bytes and takes the kind and the contents of
/// the key out. Whether there is a fault, and the key where there is none, are a function
/// of the bytes; a key is of one of the three kinds. Nothing is said of the error itself.
#[verifier::external_body]
pub(crate) fn read_key(bytes: &[u8]) -> (r: Result<Option<(KeyKind, Vec<u8>)>, std::io::Error>)
    ensures
        found_key(r) == pem_key(bytes@),
{
    let mut rest = bytes;
    let key = rustls_pemfile::private_key(&mut rest)?;
    Ok(key.map(|k| match k {
        PrivateKeyDer::Pkcs1(der) => (KeyKind::Pkcs1, der.secret_pkcs1_der().to_vec()),
        PrivateKeyDer::Sec1(der) => (KeyKind::Sec1, der.secret_sec1_der().to_vec()),
        other => (KeyKind::Pkcs8, other.secret_der().to_vec()),
    }))
}

/// Why a PEM file cannot be used: it is faulty, or, with a message, it does not hold what
/// it is there for.
#[derive(Debug)]
pub enum PemFault {
    Faulty(std::io::Error),
    Missing(String),
}

/// The result is the fault of a file that lacks something, with this message.
pub open spec fn is_missing<T>(r: Result<T, PemFault>, message: Seq<char>) -> bool {
    match r {
        Err(PemFault::Missing(m)) => m@ == message,
        _ => false,
    }
}

/// The result is that the file is faulty.
pub open spec fn is_faulty<T>(r: Result<T, PemFault>) -> bool {
    match r {
        Err(PemFault::Faulty(_)) => true,
        _ => false,
    }
}

/// The message on a certificate file without a certificate.
pub open spec fn no_certificate_message(path: Seq<char>) -> Seq<char> {
    "证书文件 `"@ + path + "` 中没有找到 PEM 证书"@
}

/// The message on a key file without a key.
pub open spec fn no_key_message(path: Seq<char>) -> Seq<char> {
    "私钥文件 `"@ + path + "` 中没有找到 PEM 私钥"@
}

/// The certificates to listen with, by what was found in the file at `path`.
pub open spec fn certificates_chosen(
    path: Seq<char>,
    found: Option<Seq<Seq<u8>>>,
    r: Result<Vec<Vec<u8>>, PemFault>,
) -> bool {
    match found {
        None => is_faulty(r),
        Some(certs) => if certs.len() == 0 {
            is_missing(r, no_certificate_message(path))
        } else {
            r matches Ok(v) && headers::byte_views(v@) == certs
        },
    }
}

/// The key to listen with, by what was found in the file at `path`.
pub open spec fn key_chosen(
    path: Seq<char>,
    found: Option<Option<(KeyKind, Seq<u8>)>>,
    r: Result<(KeyKind, Vec<u8>), PemFault>,
) -> bool {
    match found {
        None => is_faulty(r),
        Some(None) => is_missing(r, no_key_message(path)),
        Some(Some(key)) => r matches Ok(k) && (k.0, k.1@) == key,
    }
}

/// The certificates to listen with, by what was found in the file at `path`: all of them,
/// unless there is none. A fault is handed on.
pub fn choose_certificates(path: &str, found: Result<Vec<Vec<u8>>, std::io::Error>) -> (r: Result<
    Vec<Vec<u8>>,
    PemFault,
>)
    ensures
        certificates_chosen(path@, found_certificates(found), r),
        found matches Err(e) ==> r == Err::<Vec<Vec<u8>>, PemFault>(PemFault::Faulty(e)),
{
    match found {
        Ok(certs) => {
            assert(headers::byte_views(certs@).len() == certs@.len());
            if certs.len() == 0 {
                let start = text::joined("证书文件 `", path);
                Err(PemFault::Missing(text::joined(start.as_str(), "` 中没有找到 PEM 证书")))
            } else {
                Ok(certs)
            }
        },
        Err(e) => Err(PemFault::Faulty(e)),
    }
}

/// The key to listen with, by what was found in the file at `path`, unless there is none.
/// A fault is handed on.
pub fn choose_key(path: &str, found: Result<Option<(KeyKind, Vec<u8>)>, std::io::Error>) -> (r:
    Result<(KeyKind, Vec<u8>), PemFault>)
    ensures
        key_chosen(path@, found_key(found), r),
        found matches Err(e) ==> r == Err::<(KeyKind, Vec<u8>), PemFault>(PemFault::Faulty(e)),
{
    match found {
        Ok(Some(key)) => Ok(key),
        Ok(None) => {
            let start = text::joined("私钥文件 `", path);
            Err(PemFault::Missing(text::joined(start.as_str(), "` 中没有找到 PEM 私钥")))
        },
        Err(e) => Err(PemFault::Faulty(e)),
    }
}

/// The certificates in the bytes of the file at `path`. A file without any is refused.
pub fn certificates(path: &str, bytes: &[u8]) -> (r: Result<Vec<Vec<u8>>, PemFault>)
    ensures
        certificates_chosen(path@, pem_certificates(bytes@), r),
{
    choose_certificates(path, read_certificates(bytes))
}

/// The first private key in the bytes of the file at `path`. A file without any is
/// refused.
pub fn private_key(path: &str, bytes: &[u8]) -> (r: Result<(KeyKind, Vec<u8>), PemFault>)
    ensures
        key_chosen(path@, pem_key(bytes@), r),
{
    choose_key(path, read_key(bytes))
}

/// What the firewall listens with has at least one certificate.
pub proof fn law_there_is_a_certificate(
    path: Seq<char>,
    found: Option<Seq<Seq<u8>>>,
    r: Result<Vec<Vec<u8>>, PemFault>,
)
    requires
        certificates_chosen(path, found, r),
    ensures
        r matches Ok(v) ==> v@.len() > 0,
{
    if let Ok(v) = r {
        assert(headers::byte_views(v@).len() == v@.len());
    }
}

/// All the certificates of a file are taken, in their order, and the first key; a file
/// without one is refused with its path, and a faulty one as faulty.
pub proof fn law_what_is_taken_of_a_file(
    path: Seq<char>,
    certs: Seq<Seq<u8>>,
    key: (KeyKind, Seq<u8>),
    c: Result<Vec<Vec<u8>>, PemFault>,
    k: Result<(KeyKind, Vec<u8>), PemFault>,
)
    ensures
        certificates_chosen(path, Some(certs), c) && certs.len() > 0 ==> c is Ok && c->Ok_0@.len()
            == certs.len() && forall|i: int|
            0 <= i < certs.len() ==> (#[trigger] c->Ok_0@[i])@ == certs[i],
        certificates_chosen(path, Some(certs), c) && certs.len() == 0 ==> c is Err && c->Err_0
            is Missing && c->Err_0->Missing_0@ == "证书文件 `"@ + path
            + "` 中没有找到 PEM 证书"@,
        certificates_chosen(path, None, c) ==> c is Err && c->Err_0 is Faulty,
        key_chosen(path, Some(Some(key)), k) ==> k is Ok && k->Ok_0.0 == key.0 && k->Ok_0.1@
            == key.1,
        key_chosen(path, Some(None), k) ==> k is Err && k->Err_0 is Missing && k->Err_0->Missing_0@
            == "私钥文件 `"@ + path + "` 中没有找到 PEM 私钥"@,
        key_chosen(path, None, k) ==> k is Err && k->Err_0 is Faulty,
{
    if certificates_chosen(path, Some(certs), c) && certs.len() > 0 {
        let v = c->Ok_0;
        assert(headers::byte_views(v@).len() == v@.len());
        assert forall|i: int| 0 <= i < certs.len() implies (#[trigger] v@[i])@ == certs[i] by {
            assert(headers::byte_views(v@)[i] == certs[i]);
        }
    }
}

} // verus!
