//! Loading of transport-security key material from PEM-encoded bytes. A
//! parse failure names the artifact that failed and what was looked for in
//! it; building the encrypted channel itself is the caller's business.
use vstd::prelude::*;

use crate::types::KvError;
use rustls_pki_types::{CertificateDer, PrivateKeyDer};

verus! {

#[verifier::external_type_specification]
#[verifier::external_body]
pub struct ExCertificateDer<'a>(CertificateDer<'a>);

#[verifier::external_type_specification]
#[verifier::external_body]
pub struct ExPrivateKeyDer<'a>(PrivateKeyDer<'a>);

/// Whether rustls_pemfile::certs parses every certificate section of the PEM
/// bytes: a function of the bytes alone.
pub uninterp spec fn pem_certs_ok(pem: Seq<u8>) -> bool;

/// Whether rustls_pemfile::private_key finds a private key in the PEM bytes:
/// a function of the bytes alone.
pub uninterp spec fn pem_has_private_key(pem: Seq<u8>) -> bool;

/// Relies on rustls_pemfile::certs: parses the certificate sections of the
/// PEM bytes; reading from a byte slice cannot fail, so the outcome depends
/// on the bytes alone.
#[verifier::external_body]
fn parse_certs(pem: &Vec<u8>) -> (r: Option<Vec<CertificateDer<'static>>>)
    ensures
        r is Some <==> pem_certs_ok(pem@),
{
    let mut reader = pem.as_slice();
    let mut out = Vec::new();
    for item in rustls_pemfile::certs(&mut reader) {
        match item {
            Ok(c) => out.push(c),
            Err(_) => {
                return None;
            },
        }
    }
    Some(out)
}

/// Relies on rustls_pemfile::private_key: finds the first PKCS-8, PKCS-1 or
/// SEC-1 key section; reading from a byte slice cannot fail, so the outcome
/// depends on the bytes alone.
#[verifier::external_body]
fn parse_private_key(pem: &Vec<u8>) -> (r: Option<PrivateKeyDer<'static>>)
    ensures
        r is Some <==> pem_has_private_key(pem@),
{
    let mut reader = pem.as_slice();
    match rustls_pemfile::private_key(&mut reader) {
        Ok(k) => k,
        Err(_) => None,
    }
}

/// Loads the certificate chain from PEM-encoded bytes. Succeeds exactly when
/// every certificate section parses; a failure names the server certificate.
pub fn load_certs(cert: &Vec<u8>) -> (r: Result<Vec<CertificateDer<'static>>, KvError>)
    ensures
        r is Ok <==> pem_certs_ok(cert@),
        r matches Err(e) ==> (e matches KvError::CertificateParseError(a, b) && a@ == "server"@
            && b@ == "cert"@),
{
    match parse_certs(cert) {
        Some(cs) => Ok(cs),
        None => Err(KvError::CertificateParseError("server".to_owned(), "cert".to_owned())),
    }
}

/// Loads the private key from PEM-encoded bytes. Succeeds exactly when a key
/// section is found; a failure names the private key.
pub fn load_key(key: &Vec<u8>) -> (r: Result<PrivateKeyDer<'static>, KvError>)
    ensures
        r is Ok <==> pem_has_private_key(key@),
        r matches Err(e) ==> (e matches KvError::CertificateParseError(a, b) && a@ == "private"@
            && b@ == "key"@),
{
    match parse_private_key(key) {
        Some(k) => Ok(k),
        None => Err(KvError::CertificateParseError("private".to_owned(), "key".to_owned())),
    }
}

} // verus!
