use rusty_request::pinned_anchors;
use rusty_request::TrustPolicy;
use rustls_pki_types::CertificateDer;

#[test]
fn pinned_anchors_wraps_each_der_cert() {
    let policy = pinned_anchors(vec![vec![1, 2, 3], vec![4, 5, 6]]);
    let TrustPolicy::PinnedAnchors(certs) = policy else {
        panic!("expected TrustPolicy::PinnedAnchors");
    };
    assert_eq!(
        certs,
        vec![
            CertificateDer::from(vec![1, 2, 3]),
            CertificateDer::from(vec![4, 5, 6])
        ]
    );
}

#[test]
fn pinned_anchors_of_empty_input_is_empty() {
    let policy = pinned_anchors(Vec::<Vec<u8>>::new());
    let TrustPolicy::PinnedAnchors(certs) = policy else {
        panic!("expected TrustPolicy::PinnedAnchors");
    };
    assert!(certs.is_empty());
}

#[test]
fn pinned_anchors_keep_their_bytes() {
    let policy = pinned_anchors(vec![vec![1, 2, 3], Vec::new()]);
    let TrustPolicy::PinnedAnchors(certs) = policy.clone() else {
        panic!("expected TrustPolicy::PinnedAnchors");
    };
    assert_eq!(certs[0].as_ref(), &[1, 2, 3]);
    assert!(certs[1].as_ref().is_empty());
    assert!(matches!(TrustPolicy::default(), TrustPolicy::System));
    assert!(matches!(
        TrustPolicy::DangerNoVerification.clone(),
        TrustPolicy::DangerNoVerification
    ));
}
