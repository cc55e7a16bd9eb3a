use rustls::pki_types::ServerName;
use tiny_http_client::tls::root_store_from_certs;
use tiny_http_client::{load_root_certificates, parse_url, server_name, HttpError};

#[test]
fn webpki_roots_are_loaded() {
    let store = load_root_certificates().unwrap();
    assert_eq!(store.len(), webpki_roots::TLS_SERVER_ROOTS.len());
    assert!(!store.is_empty());
}

#[test]
fn server_names() {
    let u = parse_url("https://example.com/").unwrap();
    assert!(server_name(&u).is_ok());
    let u = parse_url("https://[::1]/").unwrap();
    assert!(server_name(&u).is_ok());
    let u = parse_url("https://bad host/").unwrap();
    assert_eq!(server_name(&u).err(), Some(HttpError::InvalidServerName));
    let u = parse_url("https:///x").unwrap();
    assert_eq!(server_name(&u).err(), Some(HttpError::InvalidServerName));
}

#[test]
fn webpki_store_has_all_roots() {
    let store = load_root_certificates().unwrap();
    assert_eq!(store.len(), 120);
}

#[test]
fn server_name_is_that_of_the_host() {
    let u = parse_url("https://example.com:8443/path").unwrap();
    assert_eq!(server_name(&u).unwrap(), ServerName::try_from("example.com".to_string()).unwrap());
}

#[test]
fn certificate_lists() {
    assert_eq!(root_store_from_certs(&vec![]).err(), Some(HttpError::NoRootCertificates));
    assert_eq!(root_store_from_certs(&vec![vec![1, 2, 3]]).err(), Some(HttpError::InvalidCertificate));
    assert_eq!(root_store_from_certs(&vec![vec![0x30, 0x00], vec![]]).err(), Some(HttpError::InvalidCertificate));
}
