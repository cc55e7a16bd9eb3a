//! What the library takes from rustls for an HTTPS connection: the name the
//! server is checked against, and the store of trusted root certificates.

use vstd::prelude::*;

use rustls::pki_types::{CertificateDer, InvalidDnsNameError, ServerName, TrustAnchor};
use rustls::RootCertStore;

use crate::error::HttpError;
use crate::url::ParsedUrl;

verus! {

#[verifier::external_type_specification]
#[verifier::external_body]
pub struct ExRootCertStore(RootCertStore);

#[verifier::external_type_specification]
#[verifier::external_body]
pub struct ExTrustAnchor<'a>(TrustAnchor<'a>);

#[verifier::external_type_specification]
#[verifier::external_body]
pub struct ExServerName<'a>(ServerName<'a>);

#[verifier::external_type_specification]
#[verifier::external_body]
pub struct ExInvalidDnsNameError(InvalidDnsNameError);

/// The subjects of the trust anchors that a root store holds, in order.
pub uninterp spec fn root_subjects(store: RootCertStore) -> Seq<Seq<u8>>;

/// The subject of a trust anchor (its `subject` field).
pub uninterp spec fn anchor_subject(anchor: TrustAnchor<'static>) -> Seq<u8>;

/// Whether rustls accepts the DER bytes `der` as a trusted certificate
/// (`anchor_from_trusted_cert` parses them).
pub uninterp spec fn is_trust_anchor_der(der: Seq<u8>) -> bool;

/// The subject of the trust anchor that rustls makes of the certificate `der`.
pub uninterp spec fn der_subject(der: Seq<u8>) -> Seq<u8>;

/// Whether rustls accepts `host` as a server name: a DNS name or an IP
/// address in its syntax.
pub uninterp spec fn is_server_name(host: Seq<char>) -> bool;

/// The server name that rustls makes of `host`.
pub uninterp spec fn server_name_for(host: Seq<char>) -> ServerName<'static>;

/// The subjects of a list of trust anchors, in order.
pub open spec fn anchor_subjects(anchors: Seq<TrustAnchor<'static>>) -> Seq<Seq<u8>> {
    anchors.map_values(|a: TrustAnchor<'static>| anchor_subject(a))
}

/// The subjects of the trust anchors made of a list of certificates, in order.
pub open spec fn der_subjects(certs: Seq<Vec<u8>>) -> Seq<Seq<u8>> {
    certs.map_values(|c: Vec<u8>| der_subject(c@))
}

/// Every certificate of the list is one rustls accepts.
pub open spec fn all_trust_anchors(certs: Seq<Vec<u8>>) -> bool {
    forall|i: int| 0 <= i < certs.len() ==> is_trust_anchor_der(#[trigger] certs[i]@)
}

/// The subject of the root certificate at `index` in webpki-roots' list.
pub uninterp spec fn webpki_root_subject(index: nat) -> Seq<u8>;

/// The subjects of webpki-roots' root certificates, in the list's order.
pub open spec fn webpki_root_subjects() -> Seq<Seq<u8>> {
    Seq::new(webpki_root_count(), |i: int| webpki_root_subject(i as nat))
}

/// The number of root certificates that webpki-roots lists.
pub open spec fn webpki_root_count() -> nat {
    120
}

/// `RootCertStore::empty`: a store without trust anchors.
#[verifier::external_body]
fn root_store_empty() -> (store: RootCertStore)
    ensures
        root_subjects(store) == Seq::<Seq<u8>>::empty(),
{
    RootCertStore::empty()
}

/// `RootCertStore::extend` (which extends the store's vector of roots): the
/// anchors that were there stay, in order, and `anchors` follow, in order.
#[verifier::external_body]
fn root_store_extend(store: &mut RootCertStore, anchors: &[TrustAnchor<'static>])
    ensures
        root_subjects(*final(store)) == root_subjects(*old(store)) + anchors@.map_values(
            |a: TrustAnchor<'static>| anchor_subject(a),
        ),
{
    store.extend(anchors.iter().cloned())
}

/// `RootCertStore::add`: when rustls accepts the certificate `der`, its
/// anchor is pushed at the end of the store; otherwise the store is left as
/// it was and the call fails.
#[verifier::external_body]
fn root_store_add(store: &mut RootCertStore, der: &[u8]) -> (ok: bool)
    ensures
        ok == is_trust_anchor_der(der@),
        ok ==> root_subjects(*final(store)) == root_subjects(*old(store)).push(der_subject(der@)),
        !ok ==> *final(store) == *old(store),
{
    store.add(CertificateDer::from(der)).is_ok()
}

/// `webpki_roots::TLS_SERVER_ROOTS`: Mozilla's trusted root certificates, a
/// constant list of 120 anchors in the version of webpki-roots in use (1.0,
/// which 0.26 re-exports); the anchor at each index has the subject that
/// `webpki_root_subject` names for that index.
#[verifier::external_body]
fn webpki_server_roots() -> (roots: &'static [TrustAnchor<'static>])
    ensures
        roots@.len() == webpki_root_count(),
        forall|i: int|
            0 <= i < roots@.len() ==> anchor_subject(#[trigger] roots@[i]) == webpki_root_subject(
                i as nat,
            ),
{
    webpki_roots::TLS_SERVER_ROOTS
}

/// `ServerName::try_from` on an owned `String`: succeeds exactly when rustls
/// accepts the host as a DNS name or an IP address, and then gives the name
/// of that host.
#[verifier::external_body]
fn server_name_try_from(host: String) -> (res: Result<ServerName<'static>, InvalidDnsNameError>)
    ensures
        res is Ok <==> is_server_name(host@),
        res matches Ok(name) ==> name == server_name_for(host@),
{
    ServerName::try_from(host)
}

/// A root store holding the trust anchors `anchors`, in order.
pub fn root_store_from(anchors: &[TrustAnchor<'static>]) -> (store: RootCertStore)
    ensures
        root_subjects(store) == anchor_subjects(anchors@),
{
    let mut store = root_store_empty();
    root_store_extend(&mut store, anchors);
    assert(Seq::<Seq<u8>>::empty() + anchor_subjects(anchors@) =~= anchor_subjects(anchors@));
    store
}

/// The root certificates that HTTPS connections trust: those of webpki-roots.
/// It always succeeds, with a store of the webpki-roots anchors, in order.
pub fn load_root_certificates() -> (res: Result<RootCertStore, HttpError>)
    ensures
        res matches Ok(store) && root_subjects(store) == webpki_root_subjects(),
{
    let roots = webpki_server_roots();
    let store = root_store_from(roots);
    assert(anchor_subjects(roots@) =~= webpki_root_subjects());
    Ok(store)
}

/// A root store made of the DER certificates `certs` (such as those the
/// operating system trusts, or a list built into the program): each is added
/// in order, the first that rustls refuses fails the whole, and a list
/// without certificates fails too.
pub fn root_store_from_certs(certs: &Vec<Vec<u8>>) -> (res: Result<RootCertStore, HttpError>)
    ensures
        res is Ok <==> certs@.len() > 0 && all_trust_anchors(certs@),
        res matches Ok(store) ==> root_subjects(store) == der_subjects(certs@),
        res matches Err(e) ==> if all_trust_anchors(certs@) {
            e == HttpError::NoRootCertificates
        } else {
            e == HttpError::InvalidCertificate
        },
{
    let mut store = root_store_empty();
    let mut i: usize = 0;
    while i < certs.len()
        invariant
            i <= certs@.len(),
            root_subjects(store) == der_subjects(certs@.take(i as int)),
            forall|j: int| 0 <= j < i ==> is_trust_anchor_der(#[trigger] certs@[j]@),
        decreases certs@.len() - i,
    {
        let ghost before = root_subjects(store);
        if !root_store_add(&mut store, certs[i].as_slice()) {
            assert(!is_trust_anchor_der(certs@[i as int]@));
            return Err(HttpError::InvalidCertificate);
        }
        assert(der_subjects(certs@.take(i + 1)) =~= before.push(der_subject(certs@[i as int]@)));
        i = i + 1;
    }
    assert(certs@.take(i as int) =~= certs@);
    if certs.len() == 0 {
        return Err(HttpError::NoRootCertificates);
    }
    Ok(store)
}

/// The name that the server of `url` must prove it holds.
pub fn server_name(url: &ParsedUrl) -> (res: Result<ServerName<'static>, HttpError>)
    ensures
        res is Ok <==> is_server_name(url.host@),
        res matches Ok(name) ==> name == server_name_for(url.host@),
        res matches Err(e) ==> e == HttpError::InvalidServerName,
{
    match server_name_try_from(url.host.clone()) {
        Ok(name) => Ok(name),
        Err(_) => Err(HttpError::InvalidServerName),
    }
}

} // verus!
