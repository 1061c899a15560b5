//! What certik reads of certificates, keys and signing requests, as plain values.
//!
//! OpenSSL decodes and checks; everything else in the library works on the values read here.
use vstd::prelude::*;
use vstd::string::*;
use openssl::hash::MessageDigest;
use openssl::pkey::{PKey, Private, Public};
use openssl::x509::{X509, X509Req};

verus! {

/// One attribute of a distinguished name.
#[derive(Debug)]
pub struct NameEntry {
    /// The short name of the attribute's type, where that type has one.
    pub short: Option<String>,
    /// The attribute's value as it stands in the certificate.
    pub value: Vec<u8>,
}

/// One subject alternative name.
#[derive(Debug)]
pub struct AltName {
    pub dns: Option<String>,
    pub ip: Option<Vec<u8>>,
    pub email: Option<String>,
}

/// Size and type of a key.
#[derive(Debug, Clone, Copy)]
pub struct KeyInfo {
    pub bits: u32,
    pub id: i32,
}

/// The public numbers of an RSA key.
#[derive(Debug)]
pub struct RsaInfo {
    pub modulus_bits: i32,
    pub exponent: Option<String>,
}

/// A certificate: its DER encoding and what certik reads of it.
#[derive(Debug)]
pub struct Certificate {
    pub der: Vec<u8>,
    pub subject: Vec<NameEntry>,
    pub issuer: Vec<NameEntry>,
    pub serial: Option<String>,
    pub not_before: String,
    pub not_after: String,
    pub signature: Option<String>,
    pub key: Result<KeyInfo, String>,
    pub alt_names: Option<Vec<AltName>>,
    pub path_length: Option<u32>,
    pub subject_key_id: Option<Vec<u8>>,
    pub authority_key_id: Option<Vec<u8>>,
    pub sha256: Option<Vec<u8>>,
    pub rsa: Option<RsaInfo>,
}

/// A private key: its PKCS#8 DER encoding and what certik reads of it.
#[derive(Debug)]
pub struct PrivateKey {
    pub der: Vec<u8>,
    pub info: KeyInfo,
    pub rsa: Option<RsaInfo>,
    pub sha256: Option<Vec<u8>>,
}

/// What certik reads of a public key: size, type and SubjectPublicKeyInfo encoding.
#[derive(Debug)]
pub struct PublicKey {
    pub info: KeyInfo,
    pub der: Option<Vec<u8>>,
}

/// What certik reads of a certificate signing request.
#[derive(Debug)]
pub struct SigningRequest {
    pub subject: Vec<NameEntry>,
    pub version: i32,
    pub key: Result<KeyInfo, String>,
}

/// The contents of an optional string.
pub open spec fn text_option(o: Option<String>) -> Option<Seq<char>> {
    match o {
        Some(s) => Some(s@),
        None => None,
    }
}

/// The contents of an optional list of bytes.
pub open spec fn bytes_option(o: Option<Vec<u8>>) -> Option<Seq<u8>> {
    match o {
        Some(b) => Some(b@),
        None => None,
    }
}

/// The contents of the entries of a name.
pub open spec fn entries_view(v: Seq<NameEntry>) -> Seq<(Option<Seq<char>>, Seq<u8>)> {
    Seq::new(v.len(), |i: int| (text_option(v[i].short), v[i].value@))
}

/// The contents of a list of alternative names.
pub open spec fn alt_names_view(v: Seq<AltName>) -> Seq<
    (Option<Seq<char>>, Option<Seq<u8>>, Option<Seq<char>>),
> {
    Seq::new(
        v.len(),
        |i: int| (text_option(v[i].dns), bytes_option(v[i].ip), text_option(v[i].email)),
    )
}

/// Size and type of a key, where it could be read.
pub open spec fn key_view(k: Result<KeyInfo, String>) -> Option<(u32, i32)> {
    match k {
        Ok(i) => Some((i.bits, i.id)),
        Err(_) => None,
    }
}

/// The contents of the public numbers of an RSA key.
pub open spec fn rsa_view(r: Option<RsaInfo>) -> Option<(i32, Option<Seq<char>>)> {
    match r {
        Some(i) => Some((i.modulus_bits, text_option(i.exponent))),
        None => None,
    }
}

/// The longest PEM section that OpenSSL takes, in bytes.
pub const PEM_LIMIT: usize = 0x7fff_ffff;

/// Whether a PEM section is short enough for OpenSSL to take it.
pub open spec fn fits(pem: Seq<u8>) -> bool {
    pem.len() <= PEM_LIMIT
}

/// The message for a section that is too long for OpenSSL.
pub open spec fn too_long_text() -> Seq<char> {
    "section is too long"@
}

/// Whether a section says that it is encrypted: the word `ENCRYPTED` stands in it after a space, a
/// tab or a comma, as it does in a label and in a `Proc-Type` header, and never in Base64 text. A
/// section that does not say so is decoded without a passphrase; for one that does OpenSSL may ask
/// for a passphrase at the terminal.
pub open spec fn says_encrypted(pem: Seq<u8>) -> bool {
    exists|i: int|
        0 < i && i + 9 <= pem.len() && #[trigger] pem.subrange(i, i + 9)
            == seq![69u8, 78u8, 67u8, 82u8, 89u8, 80u8, 84u8, 69u8, 68u8] && (pem[i - 1] == 32u8
            || pem[i - 1] == 9u8 || pem[i - 1] == 44u8)
}

/// The DER encoding of the certificate that `X509::from_pem` reads in a PEM section.
pub uninterp spec fn x509_of_pem(pem: Seq<u8>) -> Option<Seq<u8>>;

/// The DER encoding of the certificate that `X509::from_der` reads in some bytes.
pub uninterp spec fn x509_of_der(raw: Seq<u8>) -> Option<Seq<u8>>;

/// The entries of `X509Ref::subject_name`.
pub uninterp spec fn x509_subject(der: Seq<u8>) -> Seq<(Option<Seq<char>>, Seq<u8>)>;

/// The entries of `X509Ref::issuer_name`.
pub uninterp spec fn x509_issuer(der: Seq<u8>) -> Seq<(Option<Seq<char>>, Seq<u8>)>;

/// `X509Ref::serial_number` in decimal.
pub uninterp spec fn x509_serial(der: Seq<u8>) -> Option<Seq<char>>;

/// `X509Ref::not_before` as OpenSSL prints it.
pub uninterp spec fn x509_not_before(der: Seq<u8>) -> Seq<char>;

/// `X509Ref::not_after` as OpenSSL prints it.
pub uninterp spec fn x509_not_after(der: Seq<u8>) -> Seq<char>;

/// The long name of `X509Ref::signature_algorithm`.
pub uninterp spec fn x509_signature(der: Seq<u8>) -> Option<Seq<char>>;

/// Size and type of `X509Ref::public_key`.
pub uninterp spec fn x509_key(der: Seq<u8>) -> Option<(u32, i32)>;

/// The entries of `X509Ref::subject_alt_names`.
pub uninterp spec fn x509_alt_names(der: Seq<u8>) -> Option<
    Seq<(Option<Seq<char>>, Option<Seq<u8>>, Option<Seq<char>>)>,
>;

/// `X509Ref::pathlen`.
pub uninterp spec fn x509_path_length(der: Seq<u8>) -> Option<u32>;

/// `X509Ref::subject_key_id`.
pub uninterp spec fn x509_subject_key_id(der: Seq<u8>) -> Option<Seq<u8>>;

/// `X509Ref::authority_key_id`.
pub uninterp spec fn x509_authority_key_id(der: Seq<u8>) -> Option<Seq<u8>>;

/// The SHA-256 digest that `X509Ref::digest` gives.
pub uninterp spec fn x509_sha256(der: Seq<u8>) -> Option<Seq<u8>>;

/// The public numbers of `X509Ref::public_key`, where that is an RSA key.
pub uninterp spec fn x509_rsa(der: Seq<u8>) -> Option<(i32, Option<Seq<char>>)>;

/// What `X509Ref::verify` says of a certificate and the public key of another; `None` where it
/// fails.
pub uninterp spec fn x509_signed_by(der: Seq<u8>, issuer: Seq<u8>) -> Option<bool>;

/// What `PKeyRef::public_eq` says of a certificate's public key and a private key.
pub uninterp spec fn x509_matches_key(der: Seq<u8>, key: Seq<u8>) -> bool;

/// The PEM encoding that `X509Ref::to_pem` gives.
pub uninterp spec fn x509_pem(der: Seq<u8>) -> Option<Seq<u8>>;

/// The PKCS#8 encoding of the key that `PKey::private_key_from_pem` reads in a PEM section.
pub uninterp spec fn private_key_of_pem(pem: Seq<u8>) -> Option<Seq<u8>>;

/// The PKCS#8 encoding of the key that `PKey::private_key_from_der` reads in some bytes.
pub uninterp spec fn private_key_of_der(raw: Seq<u8>) -> Option<Seq<u8>>;

/// Size and type of a private key.
pub uninterp spec fn private_key_info(der: Seq<u8>) -> (u32, i32);

/// The public numbers of a private key, where it is an RSA key.
pub uninterp spec fn private_key_rsa(der: Seq<u8>) -> Option<(i32, Option<Seq<char>>)>;

/// The PEM encoding that `PKeyRef::private_key_to_pem_pkcs8` gives.
pub uninterp spec fn private_key_pem(der: Seq<u8>) -> Option<Seq<u8>>;

/// Size, type and encoding of the key that `PKey::public_key_from_pem` reads in a PEM section.
pub uninterp spec fn public_key_of_pem(pem: Seq<u8>) -> Option<(u32, i32, Option<Seq<u8>>)>;

/// Size, type and encoding of the key that `PKey::public_key_from_der` reads in some bytes.
pub uninterp spec fn public_key_of_der(raw: Seq<u8>) -> Option<(u32, i32, Option<Seq<u8>>)>;

/// Subject, version and key of the request that `X509Req::from_pem` reads in a PEM section.
pub uninterp spec fn request_of_pem(pem: Seq<u8>) -> Option<
    (Seq<(Option<Seq<char>>, Seq<u8>)>, i32, Option<(u32, i32)>),
>;

/// Subject, version and key of the request that `X509Req::from_der` reads in some bytes.
pub uninterp spec fn request_of_der(raw: Seq<u8>) -> Option<
    (Seq<(Option<Seq<char>>, Seq<u8>)>, i32, Option<(u32, i32)>),
>;

/// The SHA-256 digest of some bytes.
pub uninterp spec fn sha256_of(data: Seq<u8>) -> Option<Seq<u8>>;

/// The contents of what certik reads of a public key.
pub open spec fn public_key_view(k: PublicKey) -> (u32, i32, Option<Seq<u8>>) {
    (k.info.bits, k.info.id, bytes_option(k.der))
}

/// The contents of what certik reads of a signing request.
pub open spec fn request_view(r: SigningRequest) -> (
    Seq<(Option<Seq<char>>, Seq<u8>)>,
    i32,
    Option<(u32, i32)>,
) {
    (entries_view(r.subject@), r.version, key_view(r.key))
}

/// `X509::from_pem` reads a certificate in a PEM section, or fails with a message; the result is
/// its DER encoding by `X509Ref::to_der`, which `X509::from_der` reads back. For a section that
/// does not say it is encrypted the result rests on the section alone. The text of the message is
/// left open: it holds places in OpenSSL's own source. The call panics on a section that is too
/// long.
#[verifier::external_body]
fn certificate_from_pem(pem: &Vec<u8>) -> (r: Result<Vec<u8>, String>)
    requires
        fits(pem@),
    ensures
        !says_encrypted(pem@) ==> match r {
            Ok(der) => x509_of_pem(pem@) == Some(der@),
            Err(_) => x509_of_pem(pem@) is None,
        },
        r matches Ok(der) ==> x509_of_der(der@) == Some(der@),
{
    X509::from_pem(pem).and_then(|c| c.to_der()).map_err(|e| e.to_string())
}

/// `X509::from_der` reads a certificate in some bytes, or fails; the result is its DER encoding by
/// `X509Ref::to_der`, which `X509::from_der` reads back.
#[verifier::external_body]
fn certificate_from_der(raw: &Vec<u8>) -> (r: Option<Vec<u8>>)
    ensures
        bytes_option(r) == x509_of_der(raw@),
        r matches Some(der) ==> x509_of_der(der@) == Some(der@),
{
    X509::from_der(raw).and_then(|c| c.to_der()).ok()
}

/// The entries of the certificate's `X509Ref::subject_name`, in order: for each the short name
/// of its type, where there is one, and its bytes. (No entries, where the bytes are no certificate.)
#[verifier::external_body]
fn subject_entries(der: &Vec<u8>) -> (r: Vec<NameEntry>)
    ensures
        entries_view(r@) == x509_subject(der@),
{
    match X509::from_der(der) {
        Ok(c) => c.subject_name().entries().map(|e| NameEntry {
            short: e.object().nid().short_name().ok().map(|s| s.to_string()),
            value: e.data().as_slice().to_vec(),
        }).collect(),
        Err(_) => Vec::new(),
    }
}

/// The entries of the certificate's `X509Ref::issuer_name`, in order: for each the short name
/// of its type, where there is one, and its bytes. (No entries, where the bytes are no certificate.)
#[verifier::external_body]
fn issuer_entries(der: &Vec<u8>) -> (r: Vec<NameEntry>)
    ensures
        entries_view(r@) == x509_issuer(der@),
{
    match X509::from_der(der) {
        Ok(c) => c.issuer_name().entries().map(|e| NameEntry {
            short: e.object().nid().short_name().ok().map(|s| s.to_string()),
            value: e.data().as_slice().to_vec(),
        }).collect(),
        Err(_) => Vec::new(),
    }
}

/// The certificate's `X509Ref::serial_number` in decimal, where it converts.
#[verifier::external_body]
fn serial_text(der: &Vec<u8>) -> (r: Option<String>)
    ensures
        text_option(r) == x509_serial(der@),
{
    X509::from_der(der).ok()?.serial_number().to_bn().ok()?.to_dec_str().ok().map(|s| s.to_string())
}

/// The certificate's `X509Ref::not_before` as OpenSSL prints it. (Empty, where the bytes are no
/// certificate.)
#[verifier::external_body]
fn not_before_text(der: &Vec<u8>) -> (r: String)
    ensures
        r@ == x509_not_before(der@),
{
    X509::from_der(der).map(|c| c.not_before().to_string()).unwrap_or_default()
}

/// The certificate's `X509Ref::not_after` as OpenSSL prints it. (Empty, where the bytes are no
/// certificate.)
#[verifier::external_body]
fn not_after_text(der: &Vec<u8>) -> (r: String)
    ensures
        r@ == x509_not_after(der@),
{
    X509::from_der(der).map(|c| c.not_after().to_string()).unwrap_or_default()
}

/// The long name of the certificate's `X509Ref::signature_algorithm`, where it has one.
#[verifier::external_body]
fn signature_text(der: &Vec<u8>) -> (r: Option<String>)
    ensures
        text_option(r) == x509_signature(der@),
{
    X509::from_der(der).ok()?.signature_algorithm().object().nid().long_name().ok().map(
        |s| s.to_string(),
    )
}

/// Size and type of the certificate's `X509Ref::public_key`, or the message with which reading it
/// fails, whose text is left open.
#[verifier::external_body]
fn certificate_key(der: &Vec<u8>) -> (r: Result<KeyInfo, String>)
    ensures
        key_view(r) == x509_key(der@),
{
    X509::from_der(der).and_then(|c| c.public_key()).map(|k| KeyInfo {
        bits: k.bits(),
        id: k.id().as_raw(),
    }).map_err(|e| e.to_string())
}

/// The entries of the certificate's `X509Ref::subject_alt_names`, where it has them: for each its
/// DNS name, its IP address and its e-mail address, as far as it is one of these.
#[verifier::external_body]
fn alt_name_entries(der: &Vec<u8>) -> (r: Option<Vec<AltName>>)
    ensures
        match r {
            Some(v) => x509_alt_names(der@) == Some(alt_names_view(v@)),
            None => x509_alt_names(der@) is None,
        },
{
    let stack = X509::from_der(der).ok()?.subject_alt_names()?;
    Some(stack.iter().map(|n| AltName {
        dns: n.dnsname().map(|s| s.to_string()),
        ip: n.ipaddress().map(|b| b.to_vec()),
        email: n.email().map(|s| s.to_string()),
    }).collect())
}

/// The certificate's `X509Ref::pathlen`.
#[verifier::external_body]
fn path_length(der: &Vec<u8>) -> (r: Option<u32>)
    ensures
        r == x509_path_length(der@),
{
    X509::from_der(der).ok()?.pathlen()
}

/// The bytes of the certificate's `X509Ref::subject_key_id`, where it has one.
#[verifier::external_body]
fn subject_key_id(der: &Vec<u8>) -> (r: Option<Vec<u8>>)
    ensures
        bytes_option(r) == x509_subject_key_id(der@),
{
    X509::from_der(der).ok()?.subject_key_id().map(|k| k.as_slice().to_vec())
}

/// The bytes of the certificate's `X509Ref::authority_key_id`, where it has one.
#[verifier::external_body]
fn authority_key_id(der: &Vec<u8>) -> (r: Option<Vec<u8>>)
    ensures
        bytes_option(r) == x509_authority_key_id(der@),
{
    X509::from_der(der).ok()?.authority_key_id().map(|k| k.as_slice().to_vec())
}

/// The certificate's SHA-256 digest by `X509Ref::digest`.
#[verifier::external_body]
fn certificate_sha256(der: &Vec<u8>) -> (r: Option<Vec<u8>>)
    ensures
        bytes_option(r) == x509_sha256(der@),
{
    X509::from_der(der).ok()?.digest(MessageDigest::sha256()).ok().map(|d| d.to_vec())
}

/// Modulus size and public exponent (in decimal, where it converts) of the certificate's public
/// key, where `PKeyRef::rsa` finds an RSA key.
#[verifier::external_body]
fn certificate_rsa(der: &Vec<u8>) -> (r: Option<RsaInfo>)
    ensures
        rsa_view(r) == x509_rsa(der@),
{
    let rsa = X509::from_der(der).ok()?.public_key().ok()?.rsa().ok()?;
    Some(RsaInfo {
        modulus_bits: rsa.n().num_bits(),
        exponent: rsa.e().to_dec_str().ok().map(|s| s.to_string()),
    })
}

/// `X509Ref::verify` checks the signature of a certificate with the public key of another: it
/// holds, it does not, or the check fails with a message, whose text is left open.
#[verifier::external_body]
pub(crate) fn signed_by(der: &Vec<u8>, issuer: &Vec<u8>) -> (r: Result<bool, String>)
    ensures
        match r {
            Ok(b) => x509_signed_by(der@, issuer@) == Some(b),
            Err(_) => x509_signed_by(der@, issuer@) is None,
        },
{
    let key = X509::from_der(issuer).and_then(|c| c.public_key()).map_err(|e| e.to_string())?;
    X509::from_der(der).and_then(|c| c.verify(&key)).map_err(|e| e.to_string())
}

/// `PKeyRef::public_eq` compares a certificate's public key with a private key. (They differ,
/// where either cannot be read.)
#[verifier::external_body]
pub(crate) fn matches_key(der: &Vec<u8>, key: &Vec<u8>) -> (r: bool)
    ensures
        r == x509_matches_key(der@, key@),
{
    match (X509::from_der(der).and_then(|c| c.public_key()), PKey::private_key_from_der(key)) {
        (Ok(p), Ok(k)) => p.public_eq(&k),
        _ => false,
    }
}

/// `X509Ref::to_pem` writes a certificate as PEM, in which `X509::from_pem`, if it takes a section
/// of that length, finds that certificate again.
#[verifier::external_body]
pub(crate) fn certificate_to_pem(der: &Vec<u8>) -> (r: Option<Vec<u8>>)
    ensures
        bytes_option(r) == x509_pem(der@),
        r matches Some(pem) ==> fits(pem@) ==> x509_of_pem(pem@) == x509_of_der(der@),
{
    X509::from_der(der).and_then(|c| c.to_pem()).ok()
}

/// `PKey::private_key_from_pem` reads a private key in a PEM section, or fails with a message; the
/// result is its `PKeyRef::private_key_to_pkcs8` encoding, which `PKey::private_key_from_der` reads
/// back. For a section that does not say it is encrypted the result rests on the section alone. The
/// text of the message is left open. The call panics on a section that is too long.
#[verifier::external_body]
fn key_from_pem(pem: &Vec<u8>) -> (r: Result<Vec<u8>, String>)
    requires
        fits(pem@),
    ensures
        !says_encrypted(pem@) ==> match r {
            Ok(der) => private_key_of_pem(pem@) == Some(der@),
            Err(_) => private_key_of_pem(pem@) is None,
        },
        r matches Ok(der) ==> private_key_of_der(der@) == Some(der@),
{
    PKey::<Private>::private_key_from_pem(pem).and_then(|k| k.private_key_to_pkcs8()).map_err(
        |e| e.to_string(),
    )
}

/// `PKey::private_key_from_der` reads a private key in some bytes, or fails; the result is its
/// `PKeyRef::private_key_to_pkcs8` encoding, which `PKey::private_key_from_der` reads back.
#[verifier::external_body]
fn key_from_der(raw: &Vec<u8>) -> (r: Option<Vec<u8>>)
    ensures
        bytes_option(r) == private_key_of_der(raw@),
        r matches Some(der) ==> private_key_of_der(der@) == Some(der@),
{
    PKey::<Private>::private_key_from_der(raw).and_then(|k| k.private_key_to_pkcs8()).ok()
}

/// `PKeyRef::bits` and `PKeyRef::id` of a private key. (Both 0, where the bytes are no key.)
#[verifier::external_body]
fn key_info(der: &Vec<u8>) -> (r: KeyInfo)
    ensures
        (r.bits, r.id) == private_key_info(der@),
{
    match PKey::<Private>::private_key_from_der(der) {
        Ok(k) => KeyInfo { bits: k.bits(), id: k.id().as_raw() },
        Err(_) => KeyInfo { bits: 0, id: 0 },
    }
}

/// Modulus size and public exponent (in decimal, where it converts) of a private key, where
/// `PKeyRef::rsa` finds an RSA key.
#[verifier::external_body]
fn key_rsa(der: &Vec<u8>) -> (r: Option<RsaInfo>)
    ensures
        rsa_view(r) == private_key_rsa(der@),
{
    let rsa = PKey::<Private>::private_key_from_der(der).ok()?.rsa().ok()?;
    Some(RsaInfo {
        modulus_bits: rsa.n().num_bits(),
        exponent: rsa.e().to_dec_str().ok().map(|s| s.to_string()),
    })
}

/// `PKeyRef::private_key_to_pem_pkcs8` writes a private key as PEM, in which
/// `PKey::private_key_from_pem`, if it takes a section of that length, finds that key again.
#[verifier::external_body]
pub(crate) fn key_to_pem(der: &Vec<u8>) -> (r: Option<Vec<u8>>)
    ensures
        bytes_option(r) == private_key_pem(der@),
        r matches Some(pem) ==> fits(pem@) ==> private_key_of_pem(pem@) == private_key_of_der(der@),
{
    PKey::<Private>::private_key_from_der(der).and_then(|k| k.private_key_to_pem_pkcs8()).ok()
}

/// `PKey::public_key_from_pem` reads a public key in a PEM section, or fails with a message. Of the
/// key come size, type and, where it encodes, `PKeyRef::public_key_to_der`. For a section that does
/// not say it is encrypted the result rests on the section alone. The text of the message is left
/// open. The call panics on a section that is too long.
#[verifier::external_body]
fn public_key_from_pem(pem: &Vec<u8>) -> (r: Result<PublicKey, String>)
    requires
        fits(pem@),
    ensures
        !says_encrypted(pem@) ==> match r {
            Ok(k) => public_key_of_pem(pem@) == Some(public_key_view(k)),
            Err(_) => public_key_of_pem(pem@) is None,
        },
{
    PKey::<Public>::public_key_from_pem(pem).map(|k| PublicKey {
        info: KeyInfo { bits: k.bits(), id: k.id().as_raw() },
        der: k.public_key_to_der().ok(),
    }).map_err(|e| e.to_string())
}

/// `PKey::public_key_from_der` reads a public key in some bytes, or fails. Of the key come size,
/// type and, where it encodes, `PKeyRef::public_key_to_der`.
#[verifier::external_body]
fn public_key_from_der(raw: &Vec<u8>) -> (r: Option<PublicKey>)
    ensures
        match r {
            Some(k) => public_key_of_der(raw@) == Some(public_key_view(k)),
            None => public_key_of_der(raw@) is None,
        },
{
    PKey::<Public>::public_key_from_der(raw).ok().map(|k| PublicKey {
        info: KeyInfo { bits: k.bits(), id: k.id().as_raw() },
        der: k.public_key_to_der().ok(),
    })
}

/// `X509Req::from_pem` reads a signing request in a PEM section, or fails with a message. Of the
/// request come the entries of `X509ReqRef::subject_name`, `X509ReqRef::version` and size and type
/// of `X509ReqRef::public_key`. For a section that does not say it is encrypted the result rests on
/// the section alone. The texts of the messages are left open. The call panics on a section that is
/// too long.
#[verifier::external_body]
fn request_from_pem(pem: &Vec<u8>) -> (r: Result<SigningRequest, String>)
    requires
        fits(pem@),
    ensures
        !says_encrypted(pem@) ==> match r {
            Ok(q) => request_of_pem(pem@) == Some(request_view(q)),
            Err(_) => request_of_pem(pem@) is None,
        },
{
    let req = X509Req::from_pem(pem).map_err(|e| e.to_string())?;
    let key = req.public_key().map(|k| KeyInfo { bits: k.bits(), id: k.id().as_raw() });
    let subject = req.subject_name().entries().map(|e| NameEntry {
        short: e.object().nid().short_name().ok().map(|s| s.to_string()),
        value: e.data().as_slice().to_vec(),
    }).collect();
    Ok(SigningRequest { subject, version: req.version(), key: key.map_err(|e| e.to_string()) })
}

/// `X509Req::from_der` reads a signing request in some bytes, or fails. Of the request come the
/// entries of `X509ReqRef::subject_name`, `X509ReqRef::version` and size and type of
/// `X509ReqRef::public_key`. The text of the message with which reading the key fails is left open.
#[verifier::external_body]
fn request_from_der(raw: &Vec<u8>) -> (r: Option<SigningRequest>)
    ensures
        match r {
            Some(q) => request_of_der(raw@) == Some(request_view(q)),
            None => request_of_der(raw@) is None,
        },
{
    let req = X509Req::from_der(raw).ok()?;
    let key = req.public_key().map(|k| KeyInfo { bits: k.bits(), id: k.id().as_raw() });
    let subject = req.subject_name().entries().map(|e| NameEntry {
        short: e.object().nid().short_name().ok().map(|s| s.to_string()),
        value: e.data().as_slice().to_vec(),
    }).collect();
    Some(SigningRequest { subject, version: req.version(), key: key.map_err(|e| e.to_string()) })
}

/// `openssl::hash::hash` with SHA-256: a digest of 32 bytes that rests on the data alone.
#[verifier::external_body]
pub(crate) fn sha256(data: &Vec<u8>) -> (r: Option<Vec<u8>>)
    ensures
        bytes_option(r) == sha256_of(data@),
        r matches Some(d) ==> d@.len() == 32,
{
    openssl::hash::hash(MessageDigest::sha256(), data).ok().map(|d| d.to_vec())
}

/// Whether `c` holds what is to be read of the certificate with the DER encoding `der`.
pub open spec fn is_certificate(c: Certificate, der: Seq<u8>) -> bool {
    &&& c.der@ == der
    &&& entries_view(c.subject@) == x509_subject(der)
    &&& entries_view(c.issuer@) == x509_issuer(der)
    &&& text_option(c.serial) == x509_serial(der)
    &&& c.not_before@ == x509_not_before(der)
    &&& c.not_after@ == x509_not_after(der)
    &&& text_option(c.signature) == x509_signature(der)
    &&& key_view(c.key) == x509_key(der)
    &&& match c.alt_names {
        Some(v) => x509_alt_names(der) == Some(alt_names_view(v@)),
        None => x509_alt_names(der) is None,
    }
    &&& c.path_length == x509_path_length(der)
    &&& bytes_option(c.subject_key_id) == x509_subject_key_id(der)
    &&& bytes_option(c.authority_key_id) == x509_authority_key_id(der)
    &&& bytes_option(c.sha256) == x509_sha256(der)
    &&& rsa_view(c.rsa) == x509_rsa(der)
}

/// Whether `k` holds what is to be read of the private key with the PKCS#8 encoding `der`.
pub open spec fn is_private_key(k: PrivateKey, der: Seq<u8>) -> bool {
    &&& k.der@ == der
    &&& (k.info.bits, k.info.id) == private_key_info(der)
    &&& rsa_view(k.rsa) == private_key_rsa(der)
    &&& bytes_option(k.sha256) == sha256_of(der)
}

impl Certificate {
    /// Whether the certificate's encoding is read back as it is.
    pub open spec fn canonical(self) -> bool {
        x509_of_der(self.der@) == Some(self.der@)
    }

    /// Reads the certificate with the given DER encoding.
    pub fn read(der: Vec<u8>) -> (c: Certificate)
        ensures
            is_certificate(c, der@),
    {
        let subject: Vec<NameEntry> = subject_entries(&der);
        let issuer: Vec<NameEntry> = issuer_entries(&der);
        let serial: Option<String> = serial_text(&der);
        let not_before: String = not_before_text(&der);
        let not_after: String = not_after_text(&der);
        let signature: Option<String> = signature_text(&der);
        let key: Result<KeyInfo, String> = certificate_key(&der);
        let alt_names: Option<Vec<AltName>> = alt_name_entries(&der);
        let path_length: Option<u32> = path_length(&der);
        let subject_key_id: Option<Vec<u8>> = subject_key_id(&der);
        let authority_key_id: Option<Vec<u8>> = authority_key_id(&der);
        let sha256: Option<Vec<u8>> = certificate_sha256(&der);
        let rsa: Option<RsaInfo> = certificate_rsa(&der);
        Certificate {
            der,
            subject,
            issuer,
            serial,
            not_before,
            not_after,
            signature,
            key,
            alt_names,
            path_length,
            subject_key_id,
            authority_key_id,
            sha256,
            rsa,
        }
    }

    /// Decodes the certificate in a PEM section. One that is too long is not decoded.
    pub fn from_pem(pem: &Vec<u8>) -> (r: Result<Certificate, String>)
        ensures
            !fits(pem@) ==> (r matches Err(e) && e@ == too_long_text()),
            fits(pem@) && !says_encrypted(pem@) ==> (r is Ok) == (x509_of_pem(pem@) is Some),
            r matches Ok(c) ==> is_certificate(c, c.der@) && c.canonical() && (!says_encrypted(pem@)
                ==> x509_of_pem(pem@) == Some(c.der@)),
    {
        if pem.len() > PEM_LIMIT {
            return Err("section is too long".to_string());
        }
        match certificate_from_pem(pem) {
            Ok(der) => Ok(Certificate::read(der)),
            Err(e) => Err(e),
        }
    }

    /// Decodes the certificate in some DER bytes.
    pub fn from_der(raw: &Vec<u8>) -> (r: Option<Certificate>)
        ensures
            (r is Some) == (x509_of_der(raw@) is Some),
            r matches Some(c) ==> is_certificate(c, c.der@) && c.canonical() && x509_of_der(raw@)
                == Some(c.der@),
    {
        match certificate_from_der(raw) {
            Some(der) => Some(Certificate::read(der)),
            None => None,
        }
    }
}

impl PrivateKey {
    /// Whether the key's encoding is read back as it is.
    pub open spec fn canonical(self) -> bool {
        private_key_of_der(self.der@) == Some(self.der@)
    }

    /// Reads the private key with the given PKCS#8 encoding.
    pub fn read(der: Vec<u8>) -> (k: PrivateKey)
        ensures
            is_private_key(k, der@),
    {
        let info: KeyInfo = key_info(&der);
        let rsa: Option<RsaInfo> = key_rsa(&der);
        let digest: Option<Vec<u8>> = sha256(&der);
        PrivateKey { der, info, rsa, sha256: digest }
    }

    /// Decodes the private key in a PEM section. One that is too long is not decoded.
    pub fn from_pem(pem: &Vec<u8>) -> (r: Result<PrivateKey, String>)
        ensures
            !fits(pem@) ==> (r matches Err(e) && e@ == too_long_text()),
            fits(pem@) && !says_encrypted(pem@) ==> (r is Ok) == (private_key_of_pem(pem@) is Some),
            r matches Ok(k) ==> is_private_key(k, k.der@) && k.canonical() && (!says_encrypted(pem@)
                ==> private_key_of_pem(pem@) == Some(k.der@)),
    {
        if pem.len() > PEM_LIMIT {
            return Err("section is too long".to_string());
        }
        match key_from_pem(pem) {
            Ok(der) => Ok(PrivateKey::read(der)),
            Err(e) => Err(e),
        }
    }

    /// Decodes the private key in some DER bytes.
    pub fn from_der(raw: &Vec<u8>) -> (r: Option<PrivateKey>)
        ensures
            (r is Some) == (private_key_of_der(raw@) is Some),
            r matches Some(k) ==> is_private_key(k, k.der@) && k.canonical() && private_key_of_der(
                raw@,
            ) == Some(k.der@),
    {
        match key_from_der(raw) {
            Some(der) => Some(PrivateKey::read(der)),
            None => None,
        }
    }
}

impl PublicKey {
    /// Decodes the public key in a PEM section. One that is too long is not decoded.
    pub fn from_pem(pem: &Vec<u8>) -> (r: Result<PublicKey, String>)
        ensures
            !fits(pem@) ==> (r matches Err(e) && e@ == too_long_text()),
            fits(pem@) && !says_encrypted(pem@) ==> match r {
                Ok(k) => public_key_of_pem(pem@) == Some(public_key_view(k)),
                Err(_) => public_key_of_pem(pem@) is None,
            },
    {
        if pem.len() > PEM_LIMIT {
            return Err("section is too long".to_string());
        }
        public_key_from_pem(pem)
    }

    /// Decodes the public key in some DER bytes.
    pub fn from_der(raw: &Vec<u8>) -> (r: Option<PublicKey>)
        ensures
            match r {
                Some(k) => public_key_of_der(raw@) == Some(public_key_view(k)),
                None => public_key_of_der(raw@) is None,
            },
    {
        public_key_from_der(raw)
    }
}

impl SigningRequest {
    /// Decodes the signing request in a PEM section. One that is too long is not decoded.
    pub fn from_pem(pem: &Vec<u8>) -> (r: Result<SigningRequest, String>)
        ensures
            !fits(pem@) ==> (r matches Err(e) && e@ == too_long_text()),
            fits(pem@) && !says_encrypted(pem@) ==> match r {
                Ok(q) => request_of_pem(pem@) == Some(request_view(q)),
                Err(_) => request_of_pem(pem@) is None,
            },
    {
        if pem.len() > PEM_LIMIT {
            return Err("section is too long".to_string());
        }
        request_from_pem(pem)
    }

    /// Decodes the signing request in some DER bytes.
    pub fn from_der(raw: &Vec<u8>) -> (r: Option<SigningRequest>)
        ensures
            match r {
                Some(q) => request_of_der(raw@) == Some(request_view(q)),
                None => request_of_der(raw@) is None,
            },
    {
        request_from_der(raw)
    }
}

} // verus!
