//! The cloud relay's TLS identity: a certificate chain and a private key, read from PEM
//! or generated self-signed, as DER bytes.

use vstd::prelude::*;

use crate::wire::views;

verus! {

/// The encoding of a private key.
#[derive(Clone, Copy, Debug, PartialEq, Eq, Structural)]
pub enum PrivateKeyKind {
    /// An RSA key (PKCS#1).
    Pkcs1,
    /// An elliptic-curve key (SEC1).
    Sec1,
    /// A key of any algorithm (PKCS#8).
    Pkcs8,
}

/// A private key as DER bytes.
pub struct PrivateKey {
    pub kind: PrivateKeyKind,
    pub der: Vec<u8>,
}

/// A certificate chain (DER, leaf first) with its private key.
pub struct TlsIdentity {
    pub cert_chain: Vec<Vec<u8>>,
    pub key: PrivateKey,
}

/// Why no private key could be taken from PEM text.
#[derive(Clone, Copy, Debug, PartialEq, Eq, Structural)]
pub enum KeyLoadError {
    /// The PEM text could not be read.
    Parse,
    /// The PEM text holds no private key.
    Missing,
}

/// Why no self-signed identity could be made.
#[derive(Clone, Copy, Debug, PartialEq, Eq, Structural)]
pub enum IdentityError {
    GenerateFailed,
}

/// The certificate sections of PEM text, in order, as `rustls_pemfile::certs` yields
/// them: the DER bytes of each, or nothing for a section that could not be read.
pub uninterp spec fn pem_certificates(pem: Seq<u8>) -> Seq<Option<Seq<u8>>>;

/// The first private key of PEM text as `rustls_pemfile::private_key` finds it: its
/// encoding and DER bytes, none when there is no key, an error when the text cannot be
/// read up to it.
pub uninterp spec fn pem_first_private_key(pem: Seq<u8>) -> Result<Option<(PrivateKeyKind, Seq<u8>)>, ()>;

/// The models of optional byte strings.
pub open spec fn opt_bytes(s: Seq<Option<Vec<u8>>>) -> Seq<Option<Seq<u8>>> {
    s.map_values(
        |o: Option<Vec<u8>>|
            match o {
                Some(v) => Some(v@),
                None => None,
            },
    )
}

/// The model of a key read.
pub open spec fn key_read_view(r: Result<Option<(PrivateKeyKind, Vec<u8>)>, ()>) -> Result<
    Option<(PrivateKeyKind, Seq<u8>)>,
    (),
> {
    match r {
        Ok(Some((k, d))) => Ok(Some((k, d@))),
        Ok(None) => Ok(None),
        Err(_) => Err(()),
    }
}

/// Calls `rustls_pemfile::certs` on `pem` and collects every item it yields: the
/// certificate's DER bytes, or `None` for an item that is an error. The contract claims
/// only that the result is a function of the text (`pem_certificates`).
#[verifier::external_body]
fn read_pem_certificates(pem: &[u8]) -> (r: Vec<Option<Vec<u8>>>)
    ensures
        opt_bytes(r@) == pem_certificates(pem@),
{
    let mut rd: &[u8] = pem;
    let mut out = Vec::new();
    for item in rustls_pemfile::certs(&mut rd) {
        out.push(match item {
            Ok(c) => Some(c.as_ref().to_vec()),
            Err(_) => None,
        });
    }
    out
}

/// Calls `rustls_pemfile::private_key` on `pem`: the first key's encoding and DER bytes,
/// `None` when there is none, `Err` for a read error. The contract claims only that the
/// result is a function of the text (`pem_first_private_key`).
#[verifier::external_body]
fn read_pem_private_key(pem: &[u8]) -> (r: Result<Option<(PrivateKeyKind, Vec<u8>)>, ()>)
    ensures
        key_read_view(r) == pem_first_private_key(pem@),
{
    let mut rd: &[u8] = pem;
    match rustls_pemfile::private_key(&mut rd) {
        Ok(Some(rustls::pki_types::PrivateKeyDer::Pkcs1(k))) => Ok(Some((PrivateKeyKind::Pkcs1, k.secret_pkcs1_der().to_vec()))),
        Ok(Some(rustls::pki_types::PrivateKeyDer::Sec1(k))) => Ok(Some((PrivateKeyKind::Sec1, k.secret_sec1_der().to_vec()))),
        Ok(Some(rustls::pki_types::PrivateKeyDer::Pkcs8(k))) => Ok(Some((PrivateKeyKind::Pkcs8, k.secret_pkcs8_der().to_vec()))),
        Ok(Some(_)) => Err(()),
        Ok(None) => Ok(None),
        Err(_) => Err(()),
    }
}

/// Calls `rcgen::generate_simple_self_signed` with `names` as subject alternative names
/// and returns the certificate's DER bytes and the key pair's PKCS#8 DER bytes. The key
/// is random: nothing is claimed of the bytes.
#[verifier::external_body]
fn generate_self_signed_der(names: &[&str]) -> (r: Result<(Vec<u8>, Vec<u8>), ()>) {
    let names: Vec<String> = names.iter().map(|s| s.to_string()).collect();
    match rcgen::generate_simple_self_signed(names) {
        Ok(ck) => Ok((ck.cert.der().to_vec(), ck.signing_key.serialize_der())),
        Err(_) => Err(()),
    }
}

/// The items that were read, in order; unreadable items are skipped.
pub open spec fn read_items(items: Seq<Option<Seq<u8>>>) -> Seq<Seq<u8>>
    decreases items.len(),
{
    if items.len() == 0 {
        Seq::empty()
    } else {
        read_items(items.drop_last()) + match items.last() {
            Some(d) => seq![d],
            None => Seq::empty(),
        }
    }
}

/// The certificates among PEM items, in order, skipping unreadable ones.
pub fn certificates_read(items: Vec<Option<Vec<u8>>>) -> (r: Vec<Vec<u8>>)
    ensures
        views(r@) == read_items(opt_bytes(items@)),
{
    let ghost iv = opt_bytes(items@);
    let mut out: Vec<Vec<u8>> = Vec::new();
    let mut rest = items;
    let n: usize = rest.len();
    let mut i: usize = 0;
    while i < n
        invariant
            n == iv.len(),
            0 <= i <= n,
            rest@.len() == n - i,
            forall|j: int| 0 <= j < n - i ==> #[trigger] opt_bytes(rest@)[j] == iv[i + j],
            views(out@) == read_items(iv.subrange(0, i as int)),
        decreases n - i,
    {
        let ghost before = views(out@);
        let ghost r0 = rest@;
        assert(opt_bytes(rest@)[0] == iv[i as int]);
        let item = rest.remove(0);
        assert forall|j: int| 0 <= j < n - i - 1 implies #[trigger] opt_bytes(rest@)[j] == iv[i + 1 + j] by {
            assert(rest@[j] == r0[j + 1]);
            assert(opt_bytes(r0)[j + 1] == iv[i + j + 1]);
        }
        assert(iv.subrange(0, i as int + 1).drop_last() =~= iv.subrange(0, i as int));
        match item {
            Some(der) => {
                let ghost d = der@;
                out.push(der);
                assert(views(out@) =~= before + seq![d]);
            },
            None => {
                assert(before + Seq::<Seq<u8>>::empty() =~= before);
            },
        }
        i = i + 1;
    }
    assert(iv.subrange(0, n as int) =~= iv);
    out
}

/// The certificate chain in PEM text: every certificate section that could be read, in
/// order.
pub fn load_certificate_chain(pem: &[u8]) -> (r: Vec<Vec<u8>>)
    ensures
        views(r@) == read_items(pem_certificates(pem@)),
{
    let items = read_pem_certificates(pem);
    certificates_read(items)
}

/// The key a read produced: a read error or a missing key is reported as such.
pub fn key_from_read(read: Result<Option<(PrivateKeyKind, Vec<u8>)>, ()>) -> (r: Result<
    PrivateKey,
    KeyLoadError,
>)
    ensures
        match key_read_view(read) {
            Err(_) => r matches Err(e) && e == KeyLoadError::Parse,
            Ok(None) => r matches Err(e) && e == KeyLoadError::Missing,
            Ok(Some((kind, der))) => r matches Ok(k) && k.kind == kind && k.der@ == der,
        },
{
    match read {
        Err(_) => Err(KeyLoadError::Parse),
        Ok(None) => Err(KeyLoadError::Missing),
        Ok(Some((kind, der))) => Ok(PrivateKey { kind, der }),
    }
}

/// The first private key in PEM text.
pub fn load_private_key(pem: &[u8]) -> (r: Result<PrivateKey, KeyLoadError>)
    ensures
        match pem_first_private_key(pem@) {
            Err(_) => r matches Err(e) && e == KeyLoadError::Parse,
            Ok(None) => r matches Err(e) && e == KeyLoadError::Missing,
            Ok(Some((kind, der))) => r matches Ok(k) && k.kind == kind && k.der@ == der,
        },
{
    let read = read_pem_private_key(pem);
    key_from_read(read)
}

/// An identity from a generated certificate and key: the certificate alone as the chain,
/// the key as PKCS#8.
pub fn identity_from_generated(generated: Result<(Vec<u8>, Vec<u8>), ()>) -> (r: Result<
    TlsIdentity,
    IdentityError,
>)
    ensures
        match generated {
            Ok((cert, key)) => r matches Ok(id) && id.cert_chain@.len() == 1 && views(
                id.cert_chain@,
            ) == seq![cert@] && id.key.kind == PrivateKeyKind::Pkcs8 && id.key.der@ == key@,
            Err(_) => r matches Err(e) && e == IdentityError::GenerateFailed,
        },
{
    match generated {
        Ok((cert, key)) => {
            let ghost c = cert@;
            let mut chain: Vec<Vec<u8>> = Vec::new();
            chain.push(cert);
            assert(views(chain@) =~= seq![c]);
            Ok(TlsIdentity { cert_chain: chain, key: PrivateKey { kind: PrivateKeyKind::Pkcs8, der: key } })
        },
        Err(_) => Err(IdentityError::GenerateFailed),
    }
}

/// The subject alternative names of the relay's self-signed certificate: `localhost`, and
/// `teleop-relay`, the server name the relay's clients connect with.
pub fn relay_subject_names() -> (n: [&'static str; 2])
    ensures
        n[0]@ == "localhost"@,
        n[1]@ == "teleop-relay"@,
{
    ["localhost", "teleop-relay"]
}

/// A fresh self-signed identity for [`relay_subject_names`]: one certificate and its
/// PKCS#8 key.
pub fn self_signed_identity() -> (r: Result<TlsIdentity, IdentityError>)
    ensures
        r matches Ok(id) ==> id.cert_chain@.len() == 1 && id.key.kind == PrivateKeyKind::Pkcs8,
        r matches Err(e) ==> e == IdentityError::GenerateFailed,
{
    let names = relay_subject_names();
    let generated = generate_self_signed_der(names.as_slice());
    identity_from_generated(generated)
}

} // verus!
