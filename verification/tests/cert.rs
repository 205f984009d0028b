use layered_config::cert::{Cert, CertHostkey, CertX509, CERT_SSH_MD5, CERT_SSH_SHA1};

#[test]
fn hostkey_shows_the_hashes_it_carries() {
    let md5 = [1u8; 16];
    let sha1 = [2u8; 20];
    let both = CertHostkey::new(CERT_SSH_MD5 | CERT_SSH_SHA1, &md5, &sha1);
    assert_eq!(both.hash_md5(), Some(&md5));
    assert_eq!(both.hash_sha1(), Some(&sha1));
    let only_md5 = CertHostkey::new(CERT_SSH_MD5, &md5, &sha1);
    assert_eq!(only_md5.hash_md5(), Some(&md5));
    assert_eq!(only_md5.hash_sha1(), None);
    let only_sha1 = CertHostkey::new(CERT_SSH_SHA1, &md5, &sha1);
    assert_eq!(only_sha1.hash_md5(), None);
    assert_eq!(only_sha1.hash_sha1(), Some(&sha1));
    let none = CertHostkey::new(0, &md5, &sha1);
    assert_eq!(none.hash_md5(), None);
    assert_eq!(none.hash_sha1(), None);
    let other_flags = CertHostkey::new(4 | 8, &md5, &sha1);
    assert_eq!(other_flags.hash_md5(), None);
    assert_eq!(other_flags.hash_sha1(), None);
}

#[test]
fn x509_shows_its_bytes() {
    let der = [0x30u8, 0x82, 0x01, 0x0a];
    let cert = CertX509::new(&der);
    assert_eq!(cert.data(), &der);
    assert_eq!(CertX509::new(&[]).data().len(), 0);
}

#[test]
fn cast_to_the_wrong_shape_yields_nothing() {
    let md5 = [1u8; 16];
    let sha1 = [2u8; 20];
    let der = [0x30u8, 0x00];
    let host = Cert::Hostkey(CertHostkey::new(CERT_SSH_MD5, &md5, &sha1));
    let x509 = Cert::X509(CertX509::new(&der));
    assert!(host.as_x509().is_none());
    assert!(x509.as_hostkey().is_none());
    assert_eq!(host.as_hostkey().unwrap().hash_md5(), Some(&md5));
    assert_eq!(x509.as_x509().unwrap().data(), &der);
}
