//! How a TLS connection decides whether to trust its server.

use rustls_pki_types::CertificateDer;
use vstd::prelude::*;

verus! {

/// `rustls_pki_types::CertificateDer`, a certificate in DER form.
#[verifier::external_type_specification]
#[verifier::external_body]
pub struct ExCertificateDer<'a>(rustls_pki_types::CertificateDer<'a>);

/// The bytes of a certificate.
pub uninterp spec fn certificate_bytes(cert: rustls_pki_types::CertificateDer<'static>) -> Seq<u8>;

/// `CertificateDer::from(Vec<u8>)` wraps the bytes as they are; they are not
/// looked at.
#[verifier::external_body]
fn certificate(der: Vec<u8>) -> (cert: rustls_pki_types::CertificateDer<'static>)
    ensures
        certificate_bytes(cert) == der@,
{
    rustls_pki_types::CertificateDer::from(der)
}

/// `CertificateDer::clone` copies the bytes.
#[verifier::external_body]
fn copied_certificate(cert: &rustls_pki_types::CertificateDer<'static>) -> (copy:
    rustls_pki_types::CertificateDer<'static>)
    ensures
        certificate_bytes(copy) == certificate_bytes(*cert),
{
    cert.clone()
}

/// Which servers are trusted.
#[derive(Debug)]
pub enum TrustPolicy {
    /// Those that the system's trust store vouches for.
    System,
    /// Those that exactly these roots vouch for.
    PinnedAnchors(Vec<CertificateDer<'static>>),
    /// All of them: there is no protection against an active
    /// man-in-the-middle.
    DangerNoVerification,
}

impl Default for TrustPolicy {
    fn default() -> (policy: Self)
        ensures
            policy == TrustPolicy::System,
    {
        TrustPolicy::System
    }
}

/// What a [`TrustPolicy`] stands for.
pub enum TrustView {
    System,
    /// The roots in DER form.
    PinnedAnchors(Seq<Seq<u8>>),
    DangerNoVerification,
}

impl View for TrustPolicy {
    type V = TrustView;

    open spec fn view(&self) -> TrustView {
        match *self {
            TrustPolicy::System => TrustView::System,
            TrustPolicy::PinnedAnchors(certs) => TrustView::PinnedAnchors(
                certs@.map_values(|c: CertificateDer<'static>| certificate_bytes(c)),
            ),
            TrustPolicy::DangerNoVerification => TrustView::DangerNoVerification,
        }
    }
}

impl Clone for TrustPolicy {
    fn clone(&self) -> (copy: Self)
        ensures
            copy@ == self@,
    {
        match self {
            TrustPolicy::System => TrustPolicy::System,
            TrustPolicy::DangerNoVerification => TrustPolicy::DangerNoVerification,
            TrustPolicy::PinnedAnchors(certs) => {
                let ghost bytes = |c: CertificateDer<'static>| certificate_bytes(c);
                let mut copies: Vec<CertificateDer<'static>> = Vec::new();
                for i in 0..certs.len()
                    invariant
                        bytes == (|c: CertificateDer<'static>| certificate_bytes(c)),
                        copies@.map_values(bytes) == certs@.take(i as int).map_values(bytes),
                {
                    let ghost before = copies@;
                    copies.push(copied_certificate(&certs[i]));
                    assert(copies@.map_values(bytes) =~= before.map_values(bytes).push(
                        certificate_bytes(certs@[i as int]),
                    ));
                    assert(certs@.take(i + 1).map_values(bytes) =~= certs@.take(
                        i as int,
                    ).map_values(bytes).push(certificate_bytes(certs@[i as int])));
                }
                assert(certs@.take(certs@.len() as int) =~= certs@);
                TrustPolicy::PinnedAnchors(copies)
            },
        }
    }
}

/// Trusts the servers that these roots, given in DER form, vouch for.
pub fn pinned_anchors(der_certs: Vec<Vec<u8>>) -> (policy: TrustPolicy)
    ensures
        policy@ == TrustView::PinnedAnchors(der_certs@.map_values(|d: Vec<u8>| d@)),
{
    let ghost bytes = |c: CertificateDer<'static>| certificate_bytes(c);
    let ghost ders = der_certs@.map_values(|d: Vec<u8>| d@);
    let mut certs: Vec<CertificateDer<'static>> = Vec::new();
    for i in 0..der_certs.len()
        invariant
            bytes == (|c: CertificateDer<'static>| certificate_bytes(c)),
            ders == der_certs@.map_values(|d: Vec<u8>| d@),
            certs@.map_values(bytes) == ders.take(i as int),
    {
        let ghost before = certs@;
        certs.push(certificate(vstd::slice::slice_to_vec(der_certs[i].as_slice())));
        assert(certs@.map_values(bytes) =~= before.map_values(bytes).push(ders[i as int]));
    }
    assert(ders.take(ders.len() as int) =~= ders);
    TrustPolicy::PinnedAnchors(certs)
}

} // verus!
