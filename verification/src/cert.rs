//! The certificates that the proxy shows: which one a host gets, and who signs it.
use der::Encode;
use publicsuffix::Psl;
use rand::RngCore;
use rcgen::BasicConstraints::Unconstrained;
use rcgen::ExtendedKeyUsagePurpose::ServerAuth;
use rcgen::IsCa::{Ca, ExplicitNoCa};
use rcgen::{
    PKCS_ECDSA_P256_SHA256, CertificateParams, DistinguishedName, DnType, KeyPair,
    SerialNumber,
};
use time::{Duration, OffsetDateTime};
use vstd::hash_map::StringHashMap;
use vstd::prelude::*;
use vstd::slice::slice_subrange;
use vstd::utf8::encode_utf8;
use crate::dns::{byte_views, label_start};
use crate::text::{chars_of, find_char, is_empty, option_text, push_bytes, same, string_of, views};
use crate::x509::{
    authority_is_writable, big_endian, element, elements, header, writable_authority,
};

verus! {

/// A list of public suffixes, as `publicsuffix` keeps it.
#[verifier::external_type_specification]
#[verifier::external_body]
pub struct ExList(publicsuffix::List);

/// The error of `publicsuffix` on a text that is no list.
#[verifier::external_type_specification]
#[verifier::external_body]
pub struct ExListError(publicsuffix::Error);

/// The rules that a list of public suffixes holds.
pub uninterp spec fn list_rules(list: publicsuffix::List) -> Set<Seq<u8>>;

/// The rules that `List::from_bytes` of `publicsuffix` reads from a text, where it is a list.
pub uninterp spec fn rules_in(text: Seq<u8>) -> Option<Set<Seq<u8>>>;

/// The registrable domain of a host by the given rules, without the dot at its end: what
/// `Psl::domain` of `publicsuffix` finds and `Domain::trim` leaves of it.
pub uninterp spec fn registrable(rules: Set<Seq<u8>>, host: Seq<char>) -> Option<Seq<char>>;

/// Calls `List::from_bytes` of `publicsuffix`: which rules are read, and whether any are, rests
/// on the text alone.
#[verifier::external_body]
fn read_suffix_list(text: &[u8]) -> (r: Result<publicsuffix::List, publicsuffix::Error>)
    ensures
        match r {
            Ok(list) => rules_in(text@) == Some(list_rules(list)),
            Err(_) => rules_in(text@) is None,
        },
{
    publicsuffix::List::from_bytes(text)
}

/// The end of a host without one dot at its end.
pub open spec fn dotless_len(host: Seq<char>) -> int {
    if host.len() > 0 && host.last() == '.' {
        host.len() - 1
    } else {
        host.len() as int
    }
}

/// Whether a domain is the registrable domain of a host: the end of the host from one of its
/// labels on, without one dot behind it. It is also that of every name between the two, where
/// the host has no dot behind it and the domain, for itself, none in front.
pub open spec fn domain_found(rules: Set<Seq<u8>>, host: Seq<char>, domain: Seq<char>) -> bool {
    &&& registrable(rules, host) == Some(domain)
    &&& exists|k: int| #[trigger]
        label_start(host, k) && k <= dotless_len(host) && domain == host.subrange(
            k,
            dotless_len(host),
        )
    &&& host.len() > 0 && host.last() != '.' ==> forall|j: int|
        (#[trigger] label_start(host, j) && (domain.len() < host.len() - j || (domain.len()
            == host.len() - j && domain[0] != '.'))) ==> registrable(rules, host.skip(j)) == Some(
            domain,
        )
}

/// Calls `Psl::domain` of `publicsuffix`, and `Domain::trim` on what it finds. What is found
/// rests on the rules and the host alone, and is the end of the host from one of its labels on,
/// without one dot behind it. The labels are looked up from the last on, and no further than the
/// suffix takes it, so a name that has lost labels in front of the domain has the same one. Where
/// the suffix begins is the matter of the rules and not stated.
#[verifier::external_body]
fn registrable_domain(list: &publicsuffix::List, host: &str) -> (r: Option<String>)
    ensures
        match r {
            Some(d) => domain_found(list_rules(*list), host@, d@),
            None => registrable(list_rules(*list), host@) is None,
        },
{
    let domain = list.domain(host.as_bytes())?.trim();
    std::str::from_utf8(domain.as_bytes()).ok().map(ToString::to_string)
}

/// The public suffix of a host with one label more, as in "www.example.com" and "example.com".
pub fn effective_tld_plus_one(list: &publicsuffix::List, host: &str) -> (r: Option<String>)
    ensures
        match r {
            Some(d) => domain_found(list_rules(*list), host@, d@),
            None => registrable(list_rules(*list), host@) is None,
        },
{
    registrable_domain(list, host)
}

/// The longest encoding that is written, in bytes.
pub const DER_LIMIT: usize = 0xfff_ffff;

/// The length of a value in DER: one byte where it fits in seven bits, else the number of its
/// bytes and these.
pub open spec fn der_length(n: nat) -> Seq<u8> {
    if n < 0x80 {
        seq![n as u8]
    } else if n < 0x100 {
        seq![0x81u8, n as u8]
    } else if n < 0x1_0000 {
        seq![0x82u8, (n / 0x100) as u8, (n % 0x100) as u8]
    } else if n < 0x100_0000 {
        seq![0x83u8, (n / 0x1_0000) as u8, (n / 0x100 % 0x100) as u8, (n % 0x100) as u8]
    } else {
        seq![
            0x84u8,
            (n / 0x100_0000) as u8,
            (n / 0x1_0000 % 0x100) as u8,
            (n / 0x100 % 0x100) as u8,
            (n % 0x100) as u8,
        ]
    }
}

/// A value in DER: its tag, its length, and itself. It is read back by `element` of the module
/// `x509`, as `law_value_read_back` says.
pub open spec fn der_value(tag: u8, content: Seq<u8>) -> Seq<u8> {
    seq![tag] + der_length(content.len()) + content
}

/// The error of `der` on a value that it cannot write.
#[verifier::external_type_specification]
#[verifier::external_body]
pub struct ExDerError(der::Error);

/// Calls `AnyRef::new` and `Encode::to_der` of `der`: the value with its tag and its length in
/// front, where the whole is not longer than `der` writes.
#[verifier::external_body]
fn der_encode(tag: u8, content: &[u8]) -> (r: Result<Vec<u8>, der::Error>)
    requires
        tag == 0x04 || tag == 0x30,
    ensures
        match r {
            Ok(v) => v@ == der_value(tag, content@) && v@.len() <= DER_LIMIT,
            Err(_) => der_value(tag, content@).len() > DER_LIMIT,
        },
{
    let tag = der::Tag::try_from(tag)?;
    der::asn1::AnyRef::new(tag, content)?.to_der()
}

/// The version of a private key and the identifier of RSA, as they stand in front of the key.
pub open spec fn rsa_key_head() -> Seq<u8> {
    seq![
        0x02u8,
        0x01,
        0x00,
        0x30,
        0x0d,
        0x06,
        0x09,
        0x2a,
        0x86,
        0x48,
        0x86,
        0xf7,
        0x0d,
        0x01,
        0x01,
        0x01,
        0x05,
        0x00,
    ]
}

/// An RSA key in PKCS#1 as a key in PKCS#8.
pub open spec fn pkcs8(pkcs1: Seq<u8>) -> Seq<u8> {
    der_value(0x30, rsa_key_head() + der_value(0x04, pkcs1))
}

/// Writes an RSA key in PKCS#1 as a key in PKCS#8.
pub fn pkcs1_to_pkcs8(pkcs1: &[u8]) -> (r: Option<Vec<u8>>)
    ensures
        match r {
            Some(k) => k@ == pkcs8(pkcs1@) && k@.len() <= DER_LIMIT,
            None => pkcs8(pkcs1@).len() > DER_LIMIT,
        },
{
    match der_encode(0x04, pkcs1) {
        Ok(octets) => {
            let mut inner: Vec<u8> = Vec::new();
            push_bytes(
                &mut inner,
                [
                    0x02u8,
                    0x01,
                    0x00,
                    0x30,
                    0x0d,
                    0x06,
                    0x09,
                    0x2a,
                    0x86,
                    0x48,
                    0x86,
                    0xf7,
                    0x0d,
                    0x01,
                    0x01,
                    0x01,
                    0x05,
                    0x00,
                ].as_slice(),
            );
            push_bytes(&mut inner, octets.as_slice());
            assert(inner@ =~= rsa_key_head() + der_value(0x04, pkcs1@));
            match der_encode(0x30, inner.as_slice()) {
                Ok(k) => Some(k),
                Err(_) => None,
            }
        },
        Err(_) => None,
    }
}

/// What is written in DER is read back, whatever stands behind it.
pub proof fn law_value_read_back(tag: u8, content: Seq<u8>, behind: Seq<u8>)
    requires
        tag % 32 != 31,
        content.len() < 0x1_0000_0000,
    ensures
        element(der_value(tag, content) + behind) == Some(((tag, content), behind)),
{
    let n = content.len();
    let l = der_length(n);
    let s = der_value(tag, content) + behind;
    assert(s[0] == tag);
    assert(s[1] == l[0]);
    let k = l.len() - 1;
    if n >= 0x80 {
        assert(s.subrange(2, 2 + k) =~= l.skip(1));
        lemma_length_read_back(n);
    }
    assert(header(s) == Some((2 + k, n)));
    assert(s.subrange(2 + k, 2 + k + n) =~= content);
    assert(s.skip(2 + k + n) =~= behind);
}

/// The bytes of a long length spell it.
proof fn lemma_length_read_back(n: nat)
    requires
        0x80 <= n < 0x1_0000_0000,
    ensures
        big_endian(der_length(n).skip(1)) == n,
{
    let d = der_length(n).skip(1);
    assert(d.len() == der_length(n).len() - 1);
    assert(forall|i: int| 0 <= i < d.len() ==> #[trigger] d[i] == der_length(n)[i + 1]);
    lemma_big_endian(d);
}

/// A number in up to four bytes.
proof fn lemma_big_endian(d: Seq<u8>)
    requires
        0 < d.len() <= 4,
    ensures
        d.len() == 1 ==> big_endian(d) == d[0],
        d.len() == 2 ==> big_endian(d) == d[0] * 256 + d[1],
        d.len() == 3 ==> big_endian(d) == (d[0] * 256 + d[1]) * 256 + d[2],
        d.len() == 4 ==> big_endian(d) == ((d[0] * 256 + d[1]) * 256 + d[2]) * 256 + d[3],
    decreases d.len(),
{
    let f = d.drop_last();
    if d.len() == 1 {
        assert(big_endian(f) == 0);
    } else {
        lemma_big_endian(f);
    }
}

/// A key is not changed by being written in PKCS#8: it stands there at the end as it was.
pub proof fn law_pkcs8_holds_key(pkcs1: Seq<u8>)
    ensures
        pkcs8(pkcs1).len() > pkcs1.len(),
        pkcs8(pkcs1).skip(pkcs8(pkcs1).len() - pkcs1.len()) == pkcs1,
{
    assert(pkcs8(pkcs1).skip(pkcs8(pkcs1).len() - pkcs1.len()) =~= pkcs1);
}

/// A private key as it stands in a PEM file.
pub enum PemKey {
    /// In PKCS#8.
    Pkcs8(Vec<u8>),
    /// In PKCS#1.
    Pkcs1(Vec<u8>),
    /// In another form.
    Other,
}

/// A private key as it stands in a PEM file, as plain values.
pub enum KeyBytes {
    /// In PKCS#8.
    Pkcs8(Seq<u8>),
    /// In PKCS#1.
    Pkcs1(Seq<u8>),
    /// In another form.
    Other,
}

impl View for PemKey {
    type V = KeyBytes;

    open spec fn view(&self) -> KeyBytes {
        match self {
            PemKey::Pkcs8(k) => KeyBytes::Pkcs8(k@),
            PemKey::Pkcs1(k) => KeyBytes::Pkcs1(k@),
            PemKey::Other => KeyBytes::Other,
        }
    }
}

/// The error of reading PEM.
#[verifier::external_type_specification]
#[verifier::external_body]
pub struct ExIoError(std::io::Error);

/// The first certificate in a PEM file, as `rustls_pemfile::certs` reads it: none where the
/// file cannot be read up to it, and `Some(None)` where it holds no certificate.
pub uninterp spec fn pem_certificate(pem: Seq<u8>) -> Option<Option<Seq<u8>>>;

/// The first private key in a PEM file, as `rustls_pemfile::private_key` reads it: none where
/// the file cannot be read up to it, and `Some(None)` where it holds no key.
pub uninterp spec fn pem_key(pem: Seq<u8>) -> Option<Option<KeyBytes>>;

/// Calls `rustls_pemfile::certs` and takes the first certificate: what it is, and whether there
/// is one, rests on the bytes alone.
#[verifier::external_body]
fn read_pem_certificate(pem: &[u8]) -> (r: Result<Option<Vec<u8>>, std::io::Error>)
    ensures
        match r {
            Ok(Some(der)) => pem_certificate(pem@) == Some(Some(der@)),
            Ok(None) => pem_certificate(pem@) == Some(None::<Seq<u8>>),
            Err(_) => pem_certificate(pem@) is None,
        },
{
    let mut reader = pem;
    let first = rustls_pemfile::certs(&mut reader).next().transpose()?;
    Ok(first.map(|der| der.to_vec()))
}

/// Calls `rustls_pemfile::private_key`: what the key is, and whether there is one, rests on the
/// bytes alone.
#[verifier::external_body]
fn read_pem_key(pem: &[u8]) -> (r: Result<Option<PemKey>, std::io::Error>)
    ensures
        match r {
            Ok(Some(key)) => pem_key(pem@) == Some(Some(key@)),
            Ok(None) => pem_key(pem@) == Some(None::<KeyBytes>),
            Err(_) => pem_key(pem@) is None,
        },
{
    let mut reader = pem;
    let key = rustls_pemfile::private_key(&mut reader)?;
    Ok(key.map(|k| match k {
        rustls::pki_types::PrivateKeyDer::Pkcs8(k) => PemKey::Pkcs8(k.secret_pkcs8_der().to_vec()),
        rustls::pki_types::PrivateKeyDer::Pkcs1(k) => PemKey::Pkcs1(k.secret_pkcs1_der().to_vec()),
        _ => PemKey::Other,
    }))
}

/// Why there is no certificate.
#[derive(Clone, Copy, Debug, PartialEq, Eq, Structural)]
pub enum CertError {
    /// The client did not say which host it wants.
    NoSni,
    /// The host has no registrable domain.
    InvalidHost,
    /// A PEM file cannot be read.
    BadPem,
    /// There is no certificate in the file.
    NoCertificate,
    /// There is no private key in the file.
    NoKey,
    /// The key is neither in PKCS#1 nor in PKCS#8.
    UnsupportedKey,
    /// The key is too long to be written in PKCS#8.
    KeyTooLong,
    /// The certificate and the key cannot sign.
    Rejected,
    /// The text is no list of public suffixes.
    BadSuffixList,
    /// The list of public suffixes is there already.
    AlreadySet,
    /// The certificate would be valid at a time that cannot be written.
    OutOfRange,
    /// The certificate could not be made.
    NotIssued,
}

/// Who signs: a certificate in DER and its private key in PKCS#8.
pub struct Authority {
    pub cert: Vec<u8>,
    pub key: Vec<u8>,
}

impl View for Authority {
    type V = (Seq<u8>, Seq<u8>);

    open spec fn view(&self) -> (Seq<u8>, Seq<u8>) {
        (self.cert@, self.key@)
    }
}

/// The authority that a certificate and a key make up.
pub open spec fn authority_with(cert: Seq<u8>, key: KeyBytes) -> Result<
    (Seq<u8>, Seq<u8>),
    CertError,
> {
    match key {
        KeyBytes::Pkcs8(k) => Ok((cert, k)),
        KeyBytes::Pkcs1(k) => if pkcs8(k).len() <= DER_LIMIT {
            Ok((cert, pkcs8(k)))
        } else {
            Err(CertError::KeyTooLong)
        },
        KeyBytes::Other => Err(CertError::UnsupportedKey),
    }
}

/// The authority in two PEM files.
pub open spec fn authority_in(cert_pem: Seq<u8>, key_pem: Seq<u8>) -> Result<
    (Seq<u8>, Seq<u8>),
    CertError,
> {
    match pem_certificate(cert_pem) {
        None => Err(CertError::BadPem),
        Some(None) => Err(CertError::NoCertificate),
        Some(Some(cert)) => match pem_key(key_pem) {
            None => Err(CertError::BadPem),
            Some(None) => Err(CertError::NoKey),
            Some(Some(key)) => authority_with(cert, key),
        },
    }
}

/// Puts a certificate and a key together.
pub fn make_authority(cert: Vec<u8>, key: PemKey) -> (r: Result<Authority, CertError>)
    ensures
        match r {
            Ok(a) => authority_with(cert@, key@) == Ok::<(Seq<u8>, Seq<u8>), CertError>(a@),
            Err(e) => authority_with(cert@, key@) == Err::<(Seq<u8>, Seq<u8>), CertError>(e),
        },
{
    match key {
        PemKey::Pkcs8(k) => Ok(Authority { cert: cert, key: k }),
        PemKey::Pkcs1(k) => match pkcs1_to_pkcs8(k.as_slice()) {
            Some(key) => Ok(Authority { cert: cert, key: key }),
            None => Err(CertError::KeyTooLong),
        },
        PemKey::Other => Err(CertError::UnsupportedKey),
    }
}

/// Reads the authority in two PEM files.
pub fn read_authority(cert_pem: &[u8], key_pem: &[u8]) -> (r: Result<Authority, CertError>)
    ensures
        match r {
            Ok(a) => authority_in(cert_pem@, key_pem@) == Ok::<(Seq<u8>, Seq<u8>), CertError>(a@),
            Err(e) => authority_in(cert_pem@, key_pem@) == Err::<(Seq<u8>, Seq<u8>), CertError>(e),
        },
{
    match read_pem_certificate(cert_pem) {
        Err(_) => Err(CertError::BadPem),
        Ok(None) => Err(CertError::NoCertificate),
        Ok(Some(cert)) => match read_pem_key(key_pem) {
            Err(_) => Err(CertError::BadPem),
            Ok(None) => Err(CertError::NoKey),
            Ok(Some(key)) => make_authority(cert, key),
        },
    }
}

/// The error of `rcgen`.
#[verifier::external_type_specification]
#[verifier::external_body]
pub struct ExRcgenError(rcgen::Error);

/// Whether `rcgen` reads a certificate and a key and signs with them.
pub uninterp spec fn can_sign(cert: Seq<u8>, key: Seq<u8>) -> bool;

/// Calls `KeyPair::try_from`, `CertificateParams::from_ca_cert_der` and
/// `CertificateParams::self_signed` of `rcgen`: where they all succeed, the two can sign. That
/// they succeed is not promised, since signing takes random bytes from the system. On a
/// certificate that holds what cannot be written again the last of them panics.
#[verifier::external_body]
fn try_authority(authority: &Authority) -> (r: Result<(), rcgen::Error>)
    requires
        writable_authority(authority.cert@),
    ensures
        r is Ok ==> can_sign(authority.cert@, authority.key@),
{
    let key = KeyPair::try_from(authority.key.as_slice())?;
    CertificateParams::from_ca_cert_der(&authority.cert.as_slice().into())?.self_signed(&key)?;
    Ok(())
}

/// Tries whether an authority can sign. One whose certificate holds what cannot be written again
/// is not tried.
fn signs(authority: &Authority) -> (r: bool)
    ensures
        r ==> writable_authority(authority.cert@) && can_sign(authority.cert@, authority.key@),
{
    authority_is_writable(authority.cert.as_slice()) && try_authority(authority).is_ok()
}

/// The authority that is taken up from two PEM files, by whether it was seen to sign: one whose
/// certificate holds what cannot be written again never is.
pub open spec fn taken_up(cert_pem: Seq<u8>, key_pem: Seq<u8>, signed: bool) -> Result<
    (Seq<u8>, Seq<u8>),
    CertError,
> {
    match authority_in(cert_pem, key_pem) {
        Err(e) => Err(e),
        Ok(a) => if signed && writable_authority(a.0) {
            Ok(a)
        } else {
            Err(CertError::Rejected)
        },
    }
}

/// The files of an authority that was made here, as `generate_ca` gives them, are taken up as soon
/// as it is seen to sign.
pub proof fn law_made_is_taken_up(cert: Seq<char>, key: Seq<char>, made: (Seq<u8>, Seq<u8>))
    requires
        authority_in(encode_utf8(cert), encode_utf8(key)) == Ok::<(Seq<u8>, Seq<u8>), CertError>(made),
        writable_authority(made.0),
    ensures
        taken_up(encode_utf8(cert), encode_utf8(key), true) == Ok::<(Seq<u8>, Seq<u8>), CertError>(
            made,
        ),
{
}

/// The first second that a certificate can give: the year 0 begins.
pub const FIRST_SECOND: i64 = -62167219200;

/// The last second that a certificate can give: the year 9999 ends.
pub const LAST_SECOND: i64 = 253402300799;

/// Whether a second can be written in a certificate.
pub open spec fn writable(t: int) -> bool {
    FIRST_SECOND <= t <= LAST_SECOND
}

/// Calls `OffsetDateTime::now_utc` of `time`: the seconds since 1970 on the clock. Of the clock
/// nothing is claimed.
#[verifier::external_body]
fn now() -> (r: i64) {
    OffsetDateTime::now_utc().unix_timestamp()
}

/// Calls `fill_bytes` of `rand` on the generator of the thread, for the sixteen bytes of a
/// serial number.
#[verifier::external_body]
fn random_serial() -> (r: Vec<u8>)
    ensures
        r@.len() == 16,
{
    let mut serial = [0u8; 16];
    rand::thread_rng().fill_bytes(&mut serial);
    serial.to_vec()
}

/// What a key signs with.
#[derive(Clone, Copy, Debug, PartialEq, Eq, Structural)]
pub enum KeyKind {
    /// ECDSA on the curve P-256, with SHA-256.
    EcdsaP256,
}

/// What every key that is made here signs with.
pub const KEY_KIND: KeyKind = KeyKind::EcdsaP256;

/// Whether a key in PKCS#8 can come of making one of the given kind.
pub uninterp spec fn generated(kind: KeyKind, key: Seq<u8>) -> bool;

/// Calls `KeyPair::generate_for` of `rcgen` for the given kind, and writes the key with
/// `KeyPair::serialize_der`: what comes back is a key that can come of it. It is random, so no
/// more is said of it, and success is not promised.
#[verifier::external_body]
fn generate_key(kind: KeyKind) -> (r: Result<Vec<u8>, rcgen::Error>)
    ensures
        r matches Ok(key) ==> generated(kind, key@),
{
    let algorithm = match kind {
        KeyKind::EcdsaP256 => &PKCS_ECDSA_P256_SHA256,
    };
    Ok(KeyPair::generate_for(algorithm)?.serialize_der())
}

/// What an entry of a distinguished name says.
#[derive(Clone, Copy, Debug, PartialEq, Eq, Structural)]
pub enum TitleKind {
    /// The common name.
    CommonName,
    /// The country.
    Country,
}

/// A distinguished name, as `rcgen` keeps it.
#[verifier::external_type_specification]
#[verifier::external_body]
pub struct ExDistinguishedName(rcgen::DistinguishedName);

/// The entries of a distinguished name that are of the kinds of `TitleKind`, in order.
pub uninterp spec fn title_entries(title: rcgen::DistinguishedName) -> Seq<(TitleKind, Seq<char>)>;

/// Whether a distinguished name holds nothing but entries of the kinds of `TitleKind`, each of
/// them a UTF8String.
pub uninterp spec fn title_is_plain(title: rcgen::DistinguishedName) -> bool;

/// Entries with one more: it takes the place of the one of its kind, where there is one, and
/// else stands behind them.
pub open spec fn with_entry(
    entries: Seq<(TitleKind, Seq<char>)>,
    kind: TitleKind,
    text: Seq<char>,
) -> Seq<(TitleKind, Seq<char>)> {
    if exists|i: int| 0 <= i < entries.len() && (#[trigger] entries[i]).0 == kind {
        Seq::new(
            entries.len(),
            |i: int|
                if entries[i].0 == kind {
                    (kind, text)
                } else {
                    entries[i]
                },
        )
    } else {
        entries.push((kind, text))
    }
}

/// Calls `DistinguishedName::new` of `rcgen`: a name without entries.
#[verifier::external_body]
fn new_title() -> (r: DistinguishedName)
    ensures
        title_entries(r) == Seq::<(TitleKind, Seq<char>)>::empty(),
        title_is_plain(r),
{
    DistinguishedName::new()
}

/// Calls `DistinguishedName::push` of `rcgen`, which puts the entry, a UTF8String, in place of
/// the one of its kind, or behind the others.
#[verifier::external_body]
fn push_title(title: &mut DistinguishedName, kind: TitleKind, text: &str)
    ensures
        title_entries(*final(title)) == with_entry(title_entries(*old(title)), kind, text@),
        title_is_plain(*old(title)) ==> title_is_plain(*final(title)),
{
    let ty = match kind {
        TitleKind::CommonName => DnType::CommonName,
        TitleKind::Country => DnType::CountryName,
    };
    title.push(ty, text);
}

/// What the holder of a certificate may be.
#[derive(Clone, Copy, Debug, PartialEq, Eq, Structural)]
pub enum Role {
    /// One that signs others, with any number of them in between.
    Authority,
    /// One that signs no others.
    Leaf,
}

/// What a certificate may be used for.
#[derive(Clone, Copy, Debug, PartialEq, Eq, Structural)]
pub enum Usage {
    /// To show that a server is the one that was asked for.
    ServerAuth,
}

/// What a certificate is for.
pub struct Subject {
    /// The names and addresses at which it counts.
    pub names: Vec<String>,
    /// The name of its holder.
    pub title: DistinguishedName,
    /// What its holder may be.
    pub role: Role,
    /// What it may be used for.
    pub usages: Vec<Usage>,
}

/// What a certificate is for, as plain values.
pub struct SubjectText {
    /// The names and addresses at which it counts.
    pub names: Seq<Seq<char>>,
    /// The entries of the name of its holder.
    pub title: Seq<(TitleKind, Seq<char>)>,
    /// What its holder may be.
    pub role: Role,
    /// What it may be used for.
    pub usages: Seq<Usage>,
}

impl View for Subject {
    type V = SubjectText;

    open spec fn view(&self) -> SubjectText {
        SubjectText {
            names: views(self.names@),
            title: title_entries(self.title),
            role: self.role,
            usages: self.usages@,
        }
    }
}

impl Subject {
    /// Whether the name of the holder can be written: it holds plain entries alone.
    pub open spec fn wf(&self) -> bool {
        title_is_plain(self.title)
    }
}

/// The common name of an authority that is made here.
pub const AUTHORITY_NAME: &'static str = "gfwsni CA (auto-generated)";

/// What the certificate of an authority that is made here is for: it counts at no name, and signs
/// others.
pub open spec fn authority_subject() -> SubjectText {
    SubjectText {
        names: Seq::empty(),
        title: seq![(TitleKind::CommonName, AUTHORITY_NAME@)],
        role: Role::Authority,
        usages: Seq::empty(),
    }
}

/// What a certificate made out to a name is for: the name and every name one label below it, for
/// a server.
pub open spec fn wildcard_subject(cn: Seq<char>) -> SubjectText {
    SubjectText {
        names: seq!["*."@ + cn, cn],
        title: seq![(TitleKind::CommonName, cn), (TitleKind::Country, "CN"@)],
        role: Role::Leaf,
        usages: seq![Usage::ServerAuth],
    }
}

/// What the certificate of this machine is for.
pub open spec fn local_subject() -> SubjectText {
    SubjectText {
        names: seq!["127.0.0.1"@],
        title: seq![(TitleKind::CommonName, "gfwsni DoH"@)],
        role: Role::Leaf,
        usages: seq![Usage::ServerAuth],
    }
}

/// A distinguished name of one entry.
fn common_title(name: &str) -> (r: DistinguishedName)
    ensures
        title_entries(r) == seq![(TitleKind::CommonName, name@)],
        title_is_plain(r),
{
    let mut title: DistinguishedName = new_title();
    push_title(&mut title, TitleKind::CommonName, name);
    assert(title_entries(title) =~= seq![(TitleKind::CommonName, name@)]);
    title
}

/// What the certificate of an authority that is made here is for.
pub fn authority_subject_of() -> (r: Subject)
    ensures
        r@ == authority_subject(),
        r.wf(),
{
    let r: Subject = Subject {
        names: Vec::new(),
        title: common_title(AUTHORITY_NAME),
        role: Role::Authority,
        usages: Vec::new(),
    };
    assert(r@.names =~= Seq::empty());
    assert(r@.usages =~= Seq::empty());
    r
}

/// What a certificate made out to a name is for.
pub fn wildcard_subject_of(cn: &str) -> (r: Subject)
    ensures
        r@ == wildcard_subject(cn@),
        r.wf(),
{
    let mut star: String = String::new();
    star.append("*.");
    star.append(cn);
    let mut names: Vec<String> = Vec::new();
    names.push(star);
    names.push(cn.to_string());
    let mut title: DistinguishedName = common_title(cn);
    push_title(&mut title, TitleKind::Country, "CN");
    let r: Subject = Subject {
        names: names,
        title: title,
        role: Role::Leaf,
        usages: vec![Usage::ServerAuth],
    };
    assert(r@.names =~= seq!["*."@ + cn@, cn@]);
    assert(r@.title =~= wildcard_subject(cn@).title);
    assert(r@.usages =~= seq![Usage::ServerAuth]);
    r
}

/// What the certificate of this machine is for.
pub fn local_subject_of() -> (r: Subject)
    ensures
        r@ == local_subject(),
        r.wf(),
{
    let mut names: Vec<String> = Vec::new();
    names.push("127.0.0.1".to_string());
    let r: Subject = Subject {
        names: names,
        title: common_title("gfwsni DoH"),
        role: Role::Leaf,
        usages: vec![Usage::ServerAuth],
    };
    assert(r@.names =~= seq!["127.0.0.1"@]);
    assert(r@.usages =~= seq![Usage::ServerAuth]);
    r
}

/// Whether a certificate and a key can come of making an authority for the subject: the
/// certificate is for the key, and signed with it.
pub uninterp spec fn made_authority(subject: SubjectText, cert: Seq<u8>, key: Seq<u8>) -> bool;

/// Calls `KeyPair::generate_for` and `CertificateParams::self_signed` of `rcgen` with parameters
/// that hold the subject, and writes both with `Certificate::pem` and `KeyPair::serialize_pem`:
/// one PEM section each, a certificate and a key in PKCS#8, which `rustls_pemfile` reads. What
/// `rcgen` has written it can read and write again, and sign with. The key is random, so nothing
/// else is said of the two, and success is not promised. A name of the holder that is not plain
/// may make it panic.
#[verifier::external_body]
fn make_authority_pem(subject: Subject, kind: KeyKind) -> (r: Result<(String, String), rcgen::Error>)
    requires
        subject.wf(),
    ensures
        r matches Ok((cert, key)) ==> (pem_certificate(encode_utf8(cert@)) matches Some(Some(c)) && (
        pem_key(encode_utf8(key@)) matches Some(Some(KeyBytes::Pkcs8(k))) && generated(kind, k)
            && made_authority(subject@, c, k) && writable_authority(c) && can_sign(c, k))),
{
    let algorithm = match kind {
        KeyKind::EcdsaP256 => &PKCS_ECDSA_P256_SHA256,
    };
    let key = KeyPair::generate_for(algorithm)?;
    let mut params = CertificateParams::new(subject.names)?;
    params.is_ca = match subject.role {
        Role::Authority => Ca(Unconstrained),
        Role::Leaf => ExplicitNoCa,
    };
    params.extended_key_usages = subject.usages.into_iter().map(|u| match u {
        Usage::ServerAuth => ServerAuth,
    }).collect();
    params.distinguished_name = subject.title;
    let cert = params.self_signed(&key)?;
    Ok((cert.pem(), key.serialize_pem()))
}

/// Makes a new authority, and gives the two PEM files for it: its certificate and its key. They
/// can be read back, and what is read can be taken up and sign.
pub fn generate_ca() -> (r: Result<(String, String), CertError>)
    ensures
        match r {
            Ok((cert, key)) => authority_in(encode_utf8(cert@), encode_utf8(key@)) matches Ok(a)
                && generated(KEY_KIND, a.1) && made_authority(authority_subject(), a.0, a.1)
                && writable_authority(a.0) && can_sign(a.0, a.1),
            Err(e) => e == CertError::NotIssued,
        },
{
    match make_authority_pem(authority_subject_of(), KEY_KIND) {
        Ok(pair) => Ok(pair),
        Err(_) => Err(CertError::NotIssued),
    }
}

/// The bytes of an optional vector.
pub open spec fn option_bytes(v: Option<Vec<u8>>) -> Option<Seq<u8>> {
    match v {
        Some(b) => Some(b@),
        None => None,
    }
}

/// Whether a certificate can come of signing, as the authority, one for the subject and the
/// key with the given limits in time and serial number.
pub uninterp spec fn certified(
    authority: (Seq<u8>, Seq<u8>),
    key: Seq<u8>,
    subject: SubjectText,
    not_before: int,
    not_after: int,
    serial: Option<Seq<u8>>,
    cert: Seq<u8>,
) -> bool;

/// Calls `CertificateParams::signed_by` of `rcgen` with parameters that hold the given values:
/// what comes back is a certificate that can come of it. The signature is random, so no more is
/// said of its bytes, and success is not promised. A time outside the years 0 to 9999 makes it
/// panic, and so may a name of the holder that is not plain, or an authority whose certificate
/// holds what cannot be written again.
#[verifier::external_body]
fn sign_certificate(
    authority: &Authority,
    key: &[u8],
    subject: Subject,
    not_before: i64,
    not_after: i64,
    serial: Option<Vec<u8>>,
) -> (r: Result<Vec<u8>, rcgen::Error>)
    requires
        writable_authority(authority.cert@),
        subject.wf(),
        writable(not_before as int),
        writable(not_after as int),
    ensures
        r matches Ok(cert) ==> certified(
            authority@,
            key@,
            subject@,
            not_before as int,
            not_after as int,
            option_bytes(serial),
            cert@,
        ),
{
    let mut params = CertificateParams::new(subject.names)?;
    params.not_before = OffsetDateTime::UNIX_EPOCH + Duration::seconds(not_before);
    params.not_after = OffsetDateTime::UNIX_EPOCH + Duration::seconds(not_after);
    params.serial_number = serial.map(SerialNumber::from);
    params.is_ca = match subject.role {
        Role::Authority => Ca(Unconstrained),
        Role::Leaf => ExplicitNoCa
    };
    params.extended_key_usages = subject.usages.into_iter().map(|u| match u {
        Usage::ServerAuth => ServerAuth
    }).collect();
    params.distinguished_name = subject.title;
    let ca_key = KeyPair::try_from(authority.key.as_slice())?;
    let ca = CertificateParams::from_ca_cert_der(&authority.cert.as_slice().into())?.self_signed(&ca_key)?;
    Ok(params.signed_by(&KeyPair::try_from(key)?, &ca, &ca_key)?.der().to_vec())
}

/// A certificate with its private key.
pub struct LeafCert {
    /// The chain of certificates in DER, the one for the host first.
    pub certs: Vec<Vec<u8>>,
    /// The private key in PKCS#8.
    pub key_der: Vec<u8>,
}

/// A certificate with its private key, as plain values.
pub struct Leaf {
    /// The chain of certificates in DER, the one for the host first.
    pub certs: Seq<Seq<u8>>,
    /// The private key in PKCS#8.
    pub key: Seq<u8>,
}

impl View for LeafCert {
    type V = Leaf;

    open spec fn view(&self) -> Leaf {
        Leaf { certs: byte_views(self.certs@), key: self.key_der@ }
    }
}

impl LeafCert {
    /// Another certificate that is the same.
    pub fn copy(&self) -> (r: LeafCert)
        ensures
            r@ == self@,
    {
        let mut certs: Vec<Vec<u8>> = Vec::new();
        let mut i: usize = 0;
        while i < self.certs.len()
            invariant
                i <= self.certs@.len(),
                byte_views(certs@) == byte_views(self.certs@).take(i as int),
            decreases self.certs@.len() - i,
        {
            let ghost had = certs@;
            let mut c: Vec<u8> = Vec::new();
            push_bytes(&mut c, self.certs[i].as_slice());
            assert(c@ =~= self.certs@[i as int]@);
            certs.push(c);
            assert(byte_views(certs@) =~= byte_views(had).push(self.certs@[i as int]@));
            assert(byte_views(self.certs@).take(i + 1) =~= byte_views(self.certs@).take(
                i as int,
            ).push(self.certs@[i as int]@));
            i = i + 1;
        }
        let mut key: Vec<u8> = Vec::new();
        push_bytes(&mut key, self.key_der.as_slice());
        assert(key@ =~= self.key_der@);
        assert(byte_views(certs@) =~= byte_views(self.certs@));
        LeafCert { certs: certs, key_der: key }
    }
}

/// A number of seconds as a signed one, in two's complement.
pub open spec fn signed_seconds(secs: u64) -> int {
    if secs <= i64::MAX {
        secs as int
    } else {
        secs - 0x1_0000_0000_0000_0000
    }
}

/// How long a certificate is valid, from the setting for it.
pub fn expiry(secs: u64) -> (r: i64)
    ensures
        r == signed_seconds(secs),
{
    if secs <= i64::MAX as u64 {
        secs as i64
    } else {
        -((u64::MAX - secs) as i64) - 1
    }
}

/// How far before it is made a certificate is valid, in seconds.
pub const BACKDATE: i64 = 60;

/// The limits in time of a certificate, from two looks at the clock: it is valid from a minute
/// before the first on, and for the given time from the second on.
pub open spec fn validity(first: int, second: int, expire: int) -> Option<(int, int)> {
    if writable(first - BACKDATE) && writable(second + expire) {
        Some((first - BACKDATE, second + expire))
    } else {
        None
    }
}

/// The limits in time of a certificate.
pub fn validity_of(first: i64, second: i64, expire: i64) -> (r: Option<(i64, i64)>)
    ensures
        match r {
            Some((a, b)) => validity(first as int, second as int, expire as int) == Some(
                (a as int, b as int),
            ),
            None => validity(first as int, second as int, expire as int) is None,
        },
{
    let a: i128 = first as i128 - BACKDATE as i128;
    let b: i128 = second as i128 + expire as i128;
    if (FIRST_SECOND as i128) <= a && a <= LAST_SECOND as i128 && (FIRST_SECOND as i128) <= b && b
        <= LAST_SECOND as i128 {
        Some((a as i64, b as i64))
    } else {
        None
    }
}

/// A certificate is valid when it is made: at any time between the two looks at the clock, where
/// it is to be valid for any time at all.
pub proof fn law_valid_when_made(first: int, second: int, expire: int, t: int)
    requires
        validity(first, second, expire) is Some,
        first <= t <= second,
        expire >= 0,
    ensures
        ({
            let (not_before, not_after) = validity(first, second, expire).unwrap();
            not_before <= t <= not_after
        }),
{
}

/// Whether a certificate can come of issuing one for the subject as the authority: with a new
/// key of the kind that is made here, valid as two looks at the clock give it, and with a serial
/// number of sixteen bytes where one is drawn.
pub open spec fn issued(
    authority: (Seq<u8>, Seq<u8>),
    subject: SubjectText,
    expire: int,
    drawn: bool,
    leaf: Leaf,
) -> bool {
    leaf.certs.len() == 1 && generated(KEY_KIND, leaf.key) && exists|
        first: int,
        second: int,
        serial: Option<Seq<u8>>,
    |
        issued_at(authority, subject, expire, drawn, leaf, first, second, serial)
}

/// As `issued`, for given looks at the clock and a given serial number.
pub open spec fn issued_at(
    authority: (Seq<u8>, Seq<u8>),
    subject: SubjectText,
    expire: int,
    drawn: bool,
    leaf: Leaf,
    first: int,
    second: int,
    serial: Option<Seq<u8>>,
) -> bool {
    &&& validity(first, second, expire) matches Some((a, b)) && certified(
        authority,
        leaf.key,
        subject,
        a,
        b,
        serial,
        leaf.certs[0],
    )
    &&& drawn <==> serial is Some
    &&& serial matches Some(bytes) ==> bytes.len() == 16
}

/// Issues a certificate for the subject as the authority.
pub fn issue(authority: &Authority, subject: Subject, expire: i64, draw: bool) -> (r: Result<
    LeafCert,
    CertError,
>)
    requires
        writable_authority(authority.cert@),
        subject.wf(),
    ensures
        match r {
            Ok(leaf) => issued(authority@, subject@, expire as int, draw, leaf@),
            Err(e) => e == CertError::NotIssued || e == CertError::OutOfRange,
        },
{
    let key: Vec<u8> = match generate_key(KEY_KIND) {
        Ok(k) => k,
        Err(_) => {
            return Err(CertError::NotIssued);
        },
    };
    let first: i64 = now();
    let second: i64 = now();
    let (not_before, not_after): (i64, i64) = match validity_of(first, second, expire) {
        Some(limits) => limits,
        None => {
            return Err(CertError::OutOfRange);
        },
    };
    let serial: Option<Vec<u8>> = if draw {
        Some(random_serial())
    } else {
        None
    };
    let ghost (asked, number) = (subject@, option_bytes(serial));
    match sign_certificate(authority, key.as_slice(), subject, not_before, not_after, serial) {
        Ok(cert) => {
            let ghost bytes = cert@;
            let leaf: LeafCert = LeafCert { certs: vec![cert], key_der: key };
            assert(leaf@.certs =~= seq![bytes]);
            assert(issued_at(
                authority@,
                asked,
                expire as int,
                draw,
                leaf@,
                first as int,
                second as int,
                number,
            ));
            Ok(leaf)
        },
        Err(_) => Err(CertError::NotIssued),
    }
}

/// The name that the certificate for a host is made out to: the registrable domain itself, or
/// what stands above the host's first label.
pub open spec fn common_name(host: Seq<char>, secondary: Seq<char>) -> Option<Seq<char>> {
    if host == secondary {
        Some(secondary)
    } else {
        match host.index_of_first('.') {
            Some(i) => Some(host.skip(i + 1)),
            None => None,
        }
    }
}

/// The name that the certificate for a host is made out to.
pub fn common_name_of(host: &str, secondary: &str) -> (r: Option<String>)
    ensures
        match r {
            Some(cn) => common_name(host@, secondary@) == Some(cn@),
            None => common_name(host@, secondary@) is None,
        },
{
    let h: Vec<char> = chars_of(host);
    let s: Vec<char> = chars_of(secondary);
    if same(h.as_slice(), s.as_slice()) {
        return Some(string_of(h.as_slice()));
    }
    let n: usize = h.len();
    match find_char(h.as_slice(), '.') {
        Some(i) => {
            let rest: &[char] = slice_subrange(h.as_slice(), i + 1, n);
            assert(rest@ =~= h@.skip(i + 1));
            Some(string_of(rest))
        },
        None => None,
    }
}

/// Whether a certificate made out to a name counts for a host: the host is that name, or stands
/// one label below it.
pub open spec fn covers(cn: Seq<char>, host: Seq<char>) -> bool {
    ||| host == cn
    ||| exists|label: Seq<char>| !label.contains('.') && host == #[trigger] label.push('.') + cn
}

/// Whether a name is a domain, or stands below it.
pub open spec fn within(name: Seq<char>, domain: Seq<char>) -> bool {
    let k = name.len() - domain.len();
    name == domain || (k > 0 && name[k - 1] == '.' && name.skip(k) == domain)
}

/// Whether a name has a registrable domain, and is it or stands below it: so it is no public
/// suffix. Of a name with a dot at either end nothing is said.
pub open spec fn below_suffix(rules: Set<Seq<u8>>, name: Seq<char>) -> bool {
    name.len() > 0 && name[0] != '.' && name.last() != '.' ==> (registrable(rules, name) matches Some(
        domain,
    ) && within(name, domain))
}

/// The name that a certificate for a host is made out to is no public suffix.
proof fn lemma_below_suffix(
    rules: Set<Seq<u8>>,
    host: Seq<char>,
    domain: Seq<char>,
    cn: Seq<char>,
)
    requires
        domain_found(rules, host, domain),
        common_name(host, domain) == Some(cn),
    ensures
        below_suffix(rules, cn),
{
    if cn.len() > 0 && cn[0] != '.' && cn.last() != '.' {
        let n = dotless_len(host);
        let k = choose|k: int| #[trigger]
            label_start(host, k) && k <= n && domain == host.subrange(k, n);
        if host == domain {
            assert(label_start(host, 0));
            assert(host.skip(0) =~= host);
        } else {
            host.index_of_first_ensures('.');
            let i = host.index_of_first('.').unwrap();
            assert(cn == host.skip(i + 1));
            assert(cn.last() == host.last());
            assert(n == host.len());
            if k == 0 {
                assert(domain =~= host);
            }
            assert(i <= k - 1) by {
                if i > k - 1 {
                    assert(host[k - 1] == '.');
                }
            }
            assert(label_start(host, i + 1));
            let d = cn.len() - domain.len();
            assert(d == k - (i + 1));
            if d == 0 {
                assert(cn =~= domain);
            } else {
                assert(cn[d - 1] == host[k - 1]);
                assert(cn.skip(d) =~= domain);
            }
        }
    }
}

/// Whether a certificate was issued for the subject by the authority, at some time.
pub open spec fn issued_by(
    authority: (Seq<u8>, Seq<u8>),
    subject: SubjectText,
    drawn: bool,
    leaf: Leaf,
) -> bool {
    exists|expire: int| #[trigger] issued(authority, subject, expire, drawn, leaf)
}

/// What becomes of a request for a certificate.
pub enum Plan {
    /// It is refused.
    Refuse(CertError),
    /// It is answered with a certificate that is there.
    Use(LeafCert),
    /// A certificate made out to this name is issued for it.
    Issue(String),
}

/// What becomes of a request for a certificate, as plain values.
pub enum Planned {
    /// It is refused.
    Refuse(CertError),
    /// It is answered with a certificate that is there.
    Use(Leaf),
    /// A certificate made out to this name is issued for it.
    Issue(Seq<char>),
}

impl View for Plan {
    type V = Planned;

    open spec fn view(&self) -> Planned {
        match self {
            Plan::Refuse(e) => Planned::Refuse(*e),
            Plan::Use(leaf) => Planned::Use(leaf@),
            Plan::Issue(cn) => Planned::Issue(cn@),
        }
    }
}

/// What becomes of a request for the certificate of a host, by the certificates that are there
/// and the registrable domain of the host: the host's own certificate is used, else that of the
/// name it would be made out to, else one is issued to that name.
pub open spec fn planned(
    cache: Map<Seq<char>, Leaf>,
    host: Seq<char>,
    secondary: Option<Seq<char>>,
) -> Planned {
    if host.len() == 0 {
        Planned::Refuse(CertError::NoSni)
    } else if cache.contains_key(host) {
        Planned::Use(cache[host])
    } else {
        match secondary {
            None => Planned::Refuse(CertError::InvalidHost),
            Some(s) => match common_name(host, s) {
                None => Planned::Refuse(CertError::InvalidHost),
                Some(cn) => if cache.contains_key(cn) {
                    Planned::Use(cache[cn])
                } else {
                    Planned::Issue(cn)
                },
            },
        }
    }
}

/// The authority, the list of public suffixes, and the certificates that were issued.
pub struct CertStore {
    ca: Option<Authority>,
    list: Option<publicsuffix::List>,
    cache: StringHashMap<LeafCert>,
    doh: Option<LeafCert>,
}

impl CertStore {
    /// Who signs.
    pub closed spec fn ca(&self) -> Option<(Seq<u8>, Seq<u8>)> {
        match self.ca {
            Some(a) => Some(a@),
            None => None,
        }
    }

    /// The rules of the list of public suffixes.
    pub closed spec fn rules(&self) -> Option<Set<Seq<u8>>> {
        match self.list {
            Some(l) => Some(list_rules(l)),
            None => None,
        }
    }

    /// The certificates that were issued, by the names they are made out to.
    pub closed spec fn cache(&self) -> Map<Seq<char>, Leaf> {
        Map::new(|k: Seq<char>| self.cache@.contains_key(k), |k: Seq<char>| self.cache@[k]@)
    }

    /// The certificate of this machine.
    pub closed spec fn doh(&self) -> Option<Leaf> {
        match self.doh {
            Some(l) => Some(l@),
            None => None,
        }
    }

    /// Whether certificates can be signed.
    pub open spec fn can_issue(&self) -> bool {
        self.ca() matches Some(a) && writable_authority(a.0)
    }

    /// Whether certificates can be issued for hosts.
    pub open spec fn ready(&self) -> bool {
        self.can_issue() && self.rules() is Some
    }

    /// Whether a certificate was issued, by who signs now, made out to the name, and the name is
    /// no public suffix.
    pub open spec fn issued_here(&self, cn: Seq<char>, leaf: Leaf) -> bool {
        self.ca() matches Some(a) && self.rules() matches Some(rules) && issued_by(
            a,
            wildcard_subject(cn),
            true,
            leaf,
        ) && below_suffix(rules, cn)
    }

    /// Whether a certificate was issued, by who signs now, for this machine.
    pub open spec fn issued_locally(&self, leaf: Leaf) -> bool {
        self.ca() matches Some(a) && issued_by(a, local_subject(), false, leaf)
    }

    /// Whether every certificate that is kept was issued by who signs now: those of hosts made
    /// out to the names they are kept under, which are no public suffixes, and that of this
    /// machine.
    pub open spec fn sound(&self) -> bool {
        &&& forall|cn: Seq<char>| #[trigger]
            self.cache().contains_key(cn) ==> self.issued_here(cn, self.cache()[cn])
        &&& self.doh() matches Some(leaf) ==> self.issued_locally(leaf)
    }

    /// Whether a certificate serves a host: it was issued by who signs now, made out to a name
    /// that covers the host and is no public suffix.
    pub open spec fn serves(&self, host: Seq<char>, leaf: Leaf) -> bool {
        exists|cn: Seq<char>| #[trigger] covers(cn, host) && self.issued_here(cn, leaf)
    }

    /// Whether a store holds all that another held, with the same authority and list.
    pub open spec fn keeps(&self, before: &CertStore) -> bool {
        &&& self.ca() == before.ca()
        &&& self.rules() == before.rules()
        &&& forall|cn: Seq<char>| #[trigger]
            before.cache().contains_key(cn) ==> self.cache().contains_key(cn) && self.cache()[cn]
                == before.cache()[cn]
        &&& before.doh() is Some ==> self.doh() == before.doh()
    }

    /// Whether nothing differs between two stores.
    pub open spec fn same_as(&self, other: &CertStore) -> bool {
        self.ca() == other.ca() && self.rules() == other.rules() && self.cache() == other.cache()
            && self.doh() == other.doh()
    }

    /// A store with nothing in it.
    pub fn new() -> (r: CertStore)
        ensures
            r.ca() is None,
            r.rules() is None,
            r.cache() == Map::<Seq<char>, Leaf>::empty(),
            r.doh() is None,
            r.sound(),
    {
        let r: CertStore = CertStore {
            ca: None,
            list: None,
            cache: StringHashMap::new(),
            doh: None,
        };
        assert(r.cache() =~= Map::<Seq<char>, Leaf>::empty());
        r
    }

    /// Whether certificates can be issued for hosts.
    pub fn is_ready(&self) -> (r: bool)
        ensures
            r == self.ready(),
    {
        match &self.ca {
            Some(a) => self.list.is_some() && authority_is_writable(a.cert.as_slice()),
            None => false,
        }
    }

    /// The list of public suffixes.
    pub fn suffix_list(&self) -> (r: Option<&publicsuffix::List>)
        ensures
            match r {
                Some(list) => self.rules() == Some(list_rules(*list)),
                None => self.rules() is None,
            },
    {
        match &self.list {
            Some(list) => Some(list),
            None => None,
        }
    }

    /// Takes up the authority in two PEM files and a list of public suffixes; the list only
    /// once. Nothing is kept that another authority issued.
    pub fn init(&mut self, cert_pem: &[u8], key_pem: &[u8], suffixes: &[u8]) -> (r: Result<
        (),
        CertError,
    >)
        ensures
            match r {
                Ok(_) => {
                    &&& authority_in(cert_pem@, key_pem@) matches Ok(a) && final(self).ca() == Some(
                        a,
                    ) && can_sign(a.0, a.1)
                    &&& rules_in(suffixes@) is Some
                    &&& final(self).rules() == rules_in(suffixes@)
                    &&& old(self).rules() is None
                    &&& final(self).cache() == Map::<Seq<char>, Leaf>::empty()
                    &&& final(self).doh() is None
                    &&& final(self).ready()
                    &&& final(self).sound()
                },
                Err(e) => {
                    &&& final(self).same_as(old(self))
                    &&& match authority_in(cert_pem@, key_pem@) {
                        Err(why) => e == why,
                        Ok(a) => e == CertError::Rejected || (writable_authority(a.0) && can_sign(
                            a.0,
                            a.1,
                        ) && e == (if rules_in(suffixes@) is None {
                            CertError::BadSuffixList
                        } else {
                            CertError::AlreadySet
                        }) && (e == CertError::AlreadySet ==> old(self).rules() is Some)),
                    }
                },
            },
            old(self).sound() ==> final(self).sound(),
    {
        let authority: Authority = match read_authority(cert_pem, key_pem) {
            Ok(a) => a,
            Err(e) => {
                return Err(e);
            },
        };
        if !signs(&authority) {
            return Err(CertError::Rejected);
        }
        match read_suffix_list(suffixes) {
            Ok(list) => self.adopt(authority, list),
            Err(_) => Err(CertError::BadSuffixList),
        }
    }

    /// Takes up an authority that can sign and a list of public suffixes; the list only once.
    /// Nothing is kept that another authority issued.
    pub fn adopt(&mut self, authority: Authority, list: publicsuffix::List) -> (r: Result<
        (),
        CertError,
    >)
        ensures
            if old(self).rules() is Some {
                r == Err::<(), CertError>(CertError::AlreadySet) && final(self).same_as(old(self))
            } else {
                &&& r == Ok::<(), CertError>(())
                &&& final(self).ca() == Some(authority@)
                &&& final(self).rules() == Some(list_rules(list))
                &&& final(self).cache() == Map::<Seq<char>, Leaf>::empty()
                &&& final(self).doh() is None
                &&& final(self).sound()
            },
            old(self).sound() ==> final(self).sound(),
    {
        if self.list.is_some() {
            return Err(CertError::AlreadySet);
        }
        self.replace(authority);
        let ghost before = *self;
        self.list = Some(list);
        assert(self.cache() =~= before.cache());
        Ok(())
    }

    /// Takes up another authority; what was issued before is forgotten.
    pub fn reset(&mut self, cert_pem: &[u8], key_pem: &[u8]) -> (r: Result<(), CertError>)
        ensures
            final(self).rules() == old(self).rules(),
            match r {
                Ok(_) => {
                    &&& authority_in(cert_pem@, key_pem@) matches Ok(a) && final(self).ca() == Some(
                        a,
                    ) && can_sign(a.0, a.1)
                    &&& final(self).cache() == Map::<Seq<char>, Leaf>::empty()
                    &&& final(self).doh() is None
                    &&& final(self).can_issue()
                    &&& final(self).sound()
                },
                Err(e) => {
                    &&& final(self).same_as(old(self))
                    &&& match authority_in(cert_pem@, key_pem@) {
                        Err(why) => e == why,
                        Ok(_) => e == CertError::Rejected,
                    }
                },
            },
            exists|signed: bool|
                match #[trigger] taken_up(cert_pem@, key_pem@, signed) {
                    Ok(a) => r is Ok && final(self).ca() == Some(a),
                    Err(e) => r == Err::<(), CertError>(e),
                },
            old(self).sound() ==> final(self).sound(),
    {
        let authority: Authority = match read_authority(cert_pem, key_pem) {
            Ok(a) => a,
            Err(e) => {
                assert(taken_up(cert_pem@, key_pem@, false) is Err);
                return Err(e);
            },
        };
        let signed: bool = signs(&authority);
        assert(taken_up(cert_pem@, key_pem@, signed) is Ok <==> signed);
        self.settle_reset(authority, signed)
    }

    /// Ends the change of the authority: the new one is taken up where it was seen to sign, and
    /// what was issued before is forgotten.
    pub fn settle_reset(&mut self, authority: Authority, signed: bool) -> (r: Result<(), CertError>)
        ensures
            if signed {
                &&& r == Ok::<(), CertError>(())
                &&& final(self).ca() == Some(authority@)
                &&& final(self).rules() == old(self).rules()
                &&& final(self).cache() == Map::<Seq<char>, Leaf>::empty()
                &&& final(self).doh() is None
                &&& final(self).sound()
            } else {
                r == Err::<(), CertError>(CertError::Rejected) && final(self).same_as(old(self))
            },
    {
        if !signed {
            return Err(CertError::Rejected);
        }
        self.replace(authority);
        Ok(())
    }

    /// Takes up another authority that can sign; what was issued before is forgotten.
    pub fn replace(&mut self, authority: Authority)
        ensures
            final(self).ca() == Some(authority@),
            final(self).rules() == old(self).rules(),
            final(self).cache() == Map::<Seq<char>, Leaf>::empty(),
            final(self).doh() is None,
            final(self).sound(),
    {
        self.ca = Some(authority);
        self.doh = None;
        self.cache.clear();
        assert(self.cache() =~= Map::<Seq<char>, Leaf>::empty());
    }

    /// Decides what becomes of a request for the certificate of a host, given the registrable
    /// domain of the host.
    pub fn plan_with(&self, host: &str, secondary: Option<String>) -> (r: Plan)
        ensures
            r@ == planned(self.cache(), host@, option_text(secondary)),
    {
        if is_empty(host) {
            return Plan::Refuse(CertError::NoSni);
        }
        match self.cache.get(host) {
            Some(leaf) => {
                return Plan::Use(leaf.copy());
            },
            None => {},
        }
        match secondary {
            None => Plan::Refuse(CertError::InvalidHost),
            Some(s) => match common_name_of(host, s.as_str()) {
                None => Plan::Refuse(CertError::InvalidHost),
                Some(cn) => match self.cache.get(cn.as_str()) {
                    Some(leaf) => Plan::Use(leaf.copy()),
                    None => Plan::Issue(cn),
                },
            },
        }
    }

    /// Decides what becomes of a request for the certificate of a host. A name that one is to be
    /// issued to is no public suffix.
    pub fn plan(&self, host: &str) -> (r: Plan)
        requires
            host@.len() > 0 ==> self.ready(),
        ensures
            r@ == planned(self.cache(), host@, registrable(self.rules().unwrap(), host@)),
            r@ matches Planned::Issue(cn) ==> below_suffix(self.rules().unwrap(), cn),
    {
        let secondary: Option<String> = match self.suffix_list() {
            Some(list) => effective_tld_plus_one(list, host),
            None => None,
        };
        let ghost found = option_text(secondary);
        let r: Plan = self.plan_with(host, secondary);
        proof {
            if let Planned::Issue(cn) = r@ {
                lemma_below_suffix(self.rules().unwrap(), host@, found.unwrap(), cn);
            }
        }
        r
    }

    /// The certificate for a host: one that is there, or a new one, which is kept.
    pub fn get_certificate(&mut self, host: &str, expire: i64) -> (r: Result<LeafCert, CertError>)
        requires
            host@.len() > 0 ==> old(self).ready(),
        ensures
            final(self).ca() == old(self).ca(),
            final(self).rules() == old(self).rules(),
            final(self).doh() == old(self).doh(),
            match planned(
                old(self).cache(),
                host@,
                registrable(old(self).rules().unwrap(), host@),
            ) {
                Planned::Refuse(e) => r == Err::<LeafCert, CertError>(e) && final(self).cache()
                    == old(self).cache(),
                Planned::Use(leaf) => (r matches Ok(l) && l@ == leaf) && final(self).cache() == old(self).cache(),
                Planned::Issue(cn) => match r {
                    Ok(leaf) => issued(
                        old(self).ca().unwrap(),
                        wildcard_subject(cn),
                        expire as int,
                        true,
                        leaf@,
                    ) && final(self).cache() == old(self).cache().insert(cn, leaf@),
                    Err(e) => (e == CertError::NotIssued || e == CertError::OutOfRange)
                        && final(self).cache() == old(self).cache(),
                },
            },
            final(self).keeps(old(self)),
            old(self).sound() ==> final(self).sound(),
            old(self).sound() ==> (r matches Ok(leaf) ==> final(self).serves(host@, leaf@)),
            old(self).sound() && host@.len() > 0 && host@[0] != '.' && host@.last() != '.'
                && registrable(old(self).rules().unwrap(), host@) is None ==> r == Err::<
                LeafCert,
                CertError,
            >(CertError::InvalidHost),
    {
        let ghost before = *self;
        match self.plan(host) {
            Plan::Refuse(e) => Err(e),
            Plan::Use(leaf) => {
                proof {
                    if before.sound() {
                        before.lemma_use_serves(host@, registrable(before.rules().unwrap(), host@));
                    }
                }
                Ok(leaf)
            },
            Plan::Issue(cn) => {
                let subject: Subject = wildcard_subject_of(cn.as_str());
                let made: Result<LeafCert, CertError> = match &self.ca {
                    Some(authority) => issue(authority, subject, expire, true),
                    None => Err(CertError::NotIssued),
                };
                proof {
                    let s = registrable(before.rules().unwrap(), host@).unwrap();
                    law_name_covers_host(host@, s);
                    if made is Ok {
                        assert(issued(
                            before.ca().unwrap(),
                            wildcard_subject(cn@),
                            expire as int,
                            true,
                            made->Ok_0@,
                        ));
                        assert(before.issued_here(cn@, made->Ok_0@));
                    }
                }
                self.settle(cn, made)
            },
        }
    }

    /// A certificate that is there and is used for a host serves it.
    proof fn lemma_use_serves(&self, host: Seq<char>, secondary: Option<Seq<char>>)
        requires
            self.sound(),
            planned(self.cache(), host, secondary) is Use,
        ensures
            planned(self.cache(), host, secondary) matches Planned::Use(leaf) && self.serves(host, leaf),
    {
        let leaf = planned(self.cache(), host, secondary)->Use_0;
        if self.cache().contains_key(host) {
            assert(covers(host, host));
            assert(self.issued_here(host, leaf));
        } else {
            let cn = common_name(host, secondary.unwrap()).unwrap();
            law_name_covers_host(host, secondary.unwrap());
            assert(covers(cn, host));
            assert(self.issued_here(cn, leaf));
        }
    }

    /// Ends the request for a certificate made out to a name: one that was issued is kept.
    pub fn settle(&mut self, cn: String, made: Result<LeafCert, CertError>) -> (r: Result<
        LeafCert,
        CertError,
    >)
        ensures
            final(self).ca() == old(self).ca(),
            final(self).rules() == old(self).rules(),
            final(self).doh() == old(self).doh(),
            match made {
                Ok(leaf) => (r matches Ok(l) && l@ == leaf@) && final(self).cache() == old(self).cache().insert(cn@, leaf@),
                Err(e) => r == Err::<LeafCert, CertError>(e) && final(self).cache() == old(self).cache(),
            },
            old(self).sound() && (made matches Ok(leaf) ==> old(self).issued_here(cn@, leaf@))
                ==> final(self).sound(),
    {
        match made {
            Ok(leaf) => {
                self.keep(cn, &leaf);
                Ok(leaf)
            },
            Err(e) => Err(e),
        }
    }

    /// Keeps a certificate under the name that it is made out to.
    pub fn keep(&mut self, cn: String, leaf: &LeafCert)
        ensures
            final(self).cache() == old(self).cache().insert(cn@, leaf@),
            final(self).ca() == old(self).ca(),
            final(self).rules() == old(self).rules(),
            final(self).doh() == old(self).doh(),
            old(self).sound() && old(self).issued_here(cn@, leaf@) ==> final(self).sound(),
    {
        let ghost before = *self;
        let ghost name = cn@;
        self.cache.insert(cn, leaf.copy());
        proof {
            assert(self.cache() =~= before.cache().insert(name, leaf@));
            if before.sound() && before.issued_here(name, leaf@) {
                assert forall|k: Seq<char>| #[trigger]
                    self.cache().contains_key(k) implies self.issued_here(k, self.cache()[k]) by {
                    if k != name {
                        assert(before.cache().contains_key(k));
                    }
                }
            }
        }
    }

    /// The certificate of this machine, for requests by address: the one that is there, or a
    /// new one, which is kept.
    pub fn doh_server_config(&mut self, expire: i64) -> (r: Result<LeafCert, CertError>)
        requires
            old(self).doh() is None ==> old(self).can_issue(),
        ensures
            final(self).ca() == old(self).ca(),
            final(self).rules() == old(self).rules(),
            final(self).cache() == old(self).cache(),
            match old(self).doh() {
                Some(leaf) => (r matches Ok(l) && l@ == leaf) && final(self).doh() == old(self).doh(),
                None => match r {
                    Ok(leaf) => issued(
                        old(self).ca().unwrap(),
                        local_subject(),
                        expire as int,
                        false,
                        leaf@,
                    ) && final(self).doh() == Some(leaf@),
                    Err(e) => (e == CertError::NotIssued || e == CertError::OutOfRange)
                        && final(self).doh() is None,
                },
            },
            final(self).keeps(old(self)),
            r matches Ok(leaf) ==> final(self).doh() == Some(leaf@),
            old(self).sound() ==> final(self).sound(),
            old(self).sound() ==> (r matches Ok(leaf) ==> final(self).issued_locally(leaf@)),
    {
        match &self.doh {
            Some(leaf) => {
                return Ok(leaf.copy());
            },
            None => {},
        }
        let subject: Subject = local_subject_of();
        let made: Result<LeafCert, CertError> = match &self.ca {
            Some(authority) => issue(authority, subject, expire, false),
            None => Err(CertError::NotIssued),
        };
        proof {
            if made is Ok {
                assert(issued(
                    self.ca().unwrap(),
                    local_subject(),
                    expire as int,
                    false,
                    made->Ok_0@,
                ));
                assert(self.issued_locally(made->Ok_0@));
            }
        }
        self.settle_local(made)
    }

    /// Ends the request for the certificate of this machine: one that was issued is kept.
    pub fn settle_local(&mut self, made: Result<LeafCert, CertError>) -> (r: Result<
        LeafCert,
        CertError,
    >)
        ensures
            final(self).ca() == old(self).ca(),
            final(self).rules() == old(self).rules(),
            final(self).cache() == old(self).cache(),
            match made {
                Ok(leaf) => (r matches Ok(l) && l@ == leaf@) && final(self).doh() == Some(leaf@),
                Err(e) => r == Err::<LeafCert, CertError>(e) && final(self).doh() == old(self).doh(),
            },
            old(self).sound() && (made matches Ok(leaf) ==> old(self).issued_locally(leaf@))
                ==> final(self).sound(),
    {
        let ghost before = *self;
        match made {
            Ok(leaf) => {
                self.doh = Some(leaf.copy());
                assert(self.cache() =~= before.cache());
                Ok(leaf)
            },
            Err(e) => Err(e),
        }
    }
}

/// A certificate that was issued for a host is used for it from then on.
pub proof fn law_issued_once(
    cache: Map<Seq<char>, Leaf>,
    host: Seq<char>,
    secondary: Option<Seq<char>>,
    cn: Seq<char>,
    leaf: Leaf,
)
    requires
        planned(cache, host, secondary) == Planned::Issue(cn),
    ensures
        planned(cache.insert(cn, leaf), host, secondary) == Planned::Use(leaf),
{
}

/// Hosts side by side below one name share a certificate: what was issued for one is used for
/// the other, unless it has one of its own.
pub proof fn law_siblings_share(
    cache: Map<Seq<char>, Leaf>,
    a: Seq<char>,
    b: Seq<char>,
    parent: Seq<char>,
    secondary: Seq<char>,
    leaf: Leaf,
)
    requires
        !a.contains('.'),
        !b.contains('.'),
        secondary != a.push('.') + parent,
        secondary != b.push('.') + parent,
        planned(cache, a.push('.') + parent, Some(secondary)) == Planned::Issue(parent),
        !cache.contains_key(b.push('.') + parent),
    ensures
        planned(cache.insert(parent, leaf), b.push('.') + parent, Some(secondary)) == Planned::Use(
            leaf,
        ),
{
    let host = b.push('.') + parent;
    host.index_of_first_ensures('.');
    assert(host[b.len() as int] == '.');
    let i = host.index_of_first('.').unwrap();
    assert(i == b.len()) by {
        if i < b.len() {
            assert(b[i] == '.');
        }
    }
    assert(host.skip(i + 1) =~= parent);
}

/// A certificate made out to a name counts for a host that it is used for: the host is that
/// name, or stands one label below it.
pub proof fn law_name_covers_host(host: Seq<char>, secondary: Seq<char>)
    requires
        common_name(host, secondary) is Some,
    ensures
        covers(common_name(host, secondary).unwrap(), host),
{
    if host != secondary {
        host.index_of_first_ensures('.');
        let i = host.index_of_first('.').unwrap();
        let label = host.take(i);
        assert(!label.contains('.')) by {
            if label.contains('.') {
                let j = choose|j: int| 0 <= j < label.len() && label[j] == '.';
                assert(host[j] == '.');
            }
        }
        assert(host =~= label.push('.') + host.skip(i + 1));
    }
}

/// After the authority was changed no certificate of the one before is used.
pub proof fn law_reset_forgets(host: Seq<char>, secondary: Option<Seq<char>>)
    ensures
        !(planned(Map::<Seq<char>, Leaf>::empty(), host, secondary) is Use),
{
}

/// What a store holds it holds until its authority is changed: over any run in which each store
/// keeps what the one before it held, who signs, the certificates of hosts and that of this
/// machine stay what they were.
pub proof fn law_kept_throughout(run: Seq<CertStore>)
    requires
        run.len() > 0,
        forall|i: int| 0 <= i < run.len() - 1 ==> (#[trigger] run[i + 1]).keeps(&run[i]),
    ensures
        run.last().keeps(&run[0]),
    decreases run.len(),
{
    if run.len() > 1 {
        let front = run.drop_last();
        assert forall|i: int| 0 <= i < front.len() - 1 implies (#[trigger] front[i + 1]).keeps(
            &front[i],
        ) by {
            assert(run[i + 1].keeps(&run[i]));
        }
        law_kept_throughout(front);
        assert(run[run.len() - 2 + 1].keeps(&run[run.len() - 2]));
    }
}

/// No certificate that is shown to clients is one of an authority, and each is for a server.
pub proof fn law_no_leaf_signs(cn: Seq<char>)
    ensures
        wildcard_subject(cn).role == Role::Leaf,
        wildcard_subject(cn).usages == seq![Usage::ServerAuth],
        local_subject().role == Role::Leaf,
        local_subject().usages == seq![Usage::ServerAuth],
{
}

/// A certificate made out to a name is for that name and for every name one label below it, and
/// for nothing else: its alternative names are the name itself and the name behind `*.`.
pub proof fn law_alternative_names(cn: Seq<char>)
    ensures
        wildcard_subject(cn).names.len() == 2,
        wildcard_subject(cn).names.contains(cn),
        wildcard_subject(cn).names.contains(seq!['*', '.'] + cn),
{
    reveal_strlit("*.");
    let names = wildcard_subject(cn).names;
    assert(names[1] == cn);
    assert(names[0] =~= seq!['*', '.'] + cn);
}

/// Whether an alternative name of a certificate matches a host: it is the host, or has a star in
/// place of its first label.
pub open spec fn name_matches(name: Seq<char>, host: Seq<char>) -> bool {
    name == host || exists|label: Seq<char>, above: Seq<char>|
        !label.contains('.') && host == #[trigger] (label.push('.') + above) && name == seq!['*', '.']
            + above
}

/// The certificate for a host counts for it: one of its alternative names matches the host, of
/// whatever length the names are.
pub proof fn law_certificate_matches(host: Seq<char>, secondary: Seq<char>, cn: Seq<char>)
    ensures
        common_name(host, secondary) == Some(cn) ==> exists|i: int|
            0 <= i < wildcard_subject(cn).names.len() && name_matches(
                #[trigger] wildcard_subject(cn).names[i],
                host,
            ),
        covers(cn, host) ==> exists|i: int|
            0 <= i < wildcard_subject(cn).names.len() && name_matches(
                #[trigger] wildcard_subject(cn).names[i],
                host,
            ),
{
    let names = wildcard_subject(cn).names;
    if common_name(host, secondary) == Some(cn) {
        law_name_covers_host(host, secondary);
    }
    if covers(cn, host) {
        law_alternative_names(cn);
        if host == cn {
            let i = choose|i: int| 0 <= i < names.len() && names[i] == cn;
            assert(name_matches(names[i], host));
        } else {
            let star = seq!['*', '.'] + cn;
            let i = choose|i: int| 0 <= i < names.len() && names[i] == star;
            let label = choose|label: Seq<char>|
                !label.contains('.') && host == #[trigger] label.push('.') + cn;
            assert(host == label.push('.') + cn);
            assert(name_matches(names[i], host));
        }
    }
}

/// The holder of a certificate for a host is the name it is made out to, in the country CN; the
/// certificate of this machine counts at 127.0.0.1 alone, and that of an authority at no name.
pub proof fn law_holders(cn: Seq<char>)
    ensures
        wildcard_subject(cn).title == seq![
            (TitleKind::CommonName, cn),
            (TitleKind::Country, seq!['C', 'N']),
        ],
        local_subject().names == seq!["127.0.0.1"@],
        local_subject().title == seq![(TitleKind::CommonName, "gfwsni DoH"@)],
        authority_subject().names.len() == 0,
        authority_subject().title == seq![(TitleKind::CommonName, "gfwsni CA (auto-generated)"@)],
        authority_subject().role == Role::Authority,
        authority_subject().usages.len() == 0,
{
    reveal_strlit("CN");
    assert("CN"@ =~= seq!['C', 'N']);
    assert(wildcard_subject(cn).title =~= seq![
        (TitleKind::CommonName, cn),
        (TitleKind::Country, seq!['C', 'N']),
    ]);
}

/// A certificate is made out to the registrable domain for that domain itself, and for any host
/// below it to what stands above the host's first label: so hosts side by side have one name.
pub proof fn law_made_out_to(label: Seq<char>, above: Seq<char>, domain: Seq<char>)
    requires
        !label.contains('.'),
    ensures
        common_name(domain, domain) == Some(domain),
        label.push('.') + above != domain ==> common_name(label.push('.') + above, domain) == Some(
            above,
        ),
        label != domain ==> common_name(label, domain) is None,
{
    let host = label.push('.') + above;
    host.index_of_first_ensures('.');
    label.index_of_first_ensures('.');
    assert(host[label.len() as int] == '.');
    let i = host.index_of_first('.').unwrap();
    assert(i == label.len()) by {
        if i < label.len() {
            assert(label[i] == '.');
        }
    }
    assert(host.skip(i + 1) =~= above);
}

/// A certificate is valid from sixty seconds before the first look at the clock, and for as long as
/// was set from the second; it is not made only where one of these times is outside the years 0 to
/// 9999.
pub proof fn law_validity(first: int, second: int, expire: int)
    ensures
        match validity(first, second, expire) {
            Some((not_before, not_after)) => not_before + 60 == first && not_after - second == expire,
            None => first - 60 < -62167219200 || first - 60 > 253402300799 || second + expire
                < -62167219200 || second + expire > 253402300799,
        },
        validity(first, second, expire) is Some ==> -62167219200 <= first - 60 <= 253402300799
            && -62167219200 <= second + expire <= 253402300799,
{
}

/// The setting for how long certificates are valid is taken as a signed number of 64 bits.
pub proof fn law_signed_seconds(secs: u64)
    ensures
        -0x8000_0000_0000_0000 <= signed_seconds(secs) <= 0x7fff_ffff_ffff_ffff,
        signed_seconds(secs) == secs || signed_seconds(secs) + 0x1_0000_0000_0000_0000 == secs,
{
}

/// What it is that a certificate was issued: the authority signed one certificate for the subject
/// and for a new key on P-256, valid as two looks at the clock say, with a serial number of sixteen
/// bytes where, and only where, one was to be drawn.
pub proof fn law_issued(
    authority: (Seq<u8>, Seq<u8>),
    subject: SubjectText,
    expire: int,
    drawn: bool,
    leaf: Leaf,
)
    requires
        issued(authority, subject, expire, drawn, leaf),
    ensures
        leaf.certs.len() == 1,
        generated(KeyKind::EcdsaP256, leaf.key),
        exists|first: int, second: int, serial: Option<Seq<u8>>|
            #![trigger certified(
                authority,
                leaf.key,
                subject,
                first - 60,
                second + expire,
                serial,
                leaf.certs[0],
            )]
            certified(
                authority,
                leaf.key,
                subject,
                first - 60,
                second + expire,
                serial,
                leaf.certs[0],
            ) && (match serial {
                Some(bytes) => drawn && bytes.len() == 16,
                None => !drawn,
            }),
{
    let (first, second, serial) = choose|first: int, second: int, serial: Option<Seq<u8>>|
        issued_at(authority, subject, expire, drawn, leaf, first, second, serial);
    assert(issued_at(authority, subject, expire, drawn, leaf, first, second, serial));
    law_validity(first, second, expire);
    assert(certified(
        authority,
        leaf.key,
        subject,
        first - 60,
        second + expire,
        serial,
        leaf.certs[0],
    ));
}

/// What becomes of a request: without a host, or where no name can be found for the host, it is
/// refused; a certificate that is there for the host, or else for the name, is used; and only where
/// there is none is one issued, to the name.
pub proof fn law_request_planned(
    cache: Map<Seq<char>, Leaf>,
    host: Seq<char>,
    secondary: Option<Seq<char>>,
    leaf: Leaf,
    cn: Seq<char>,
)
    ensures
        planned(cache, Seq::empty(), secondary) == Planned::Refuse(CertError::NoSni),
        host.len() > 0 ==> planned(cache.insert(host, leaf), host, secondary) == Planned::Use(leaf),
        host.len() > 0 && !cache.contains_key(host) && secondary is None ==> planned(
            cache,
            host,
            secondary,
        ) == Planned::Refuse(CertError::InvalidHost),
        host.len() > 0 && !cache.contains_key(host) && secondary is Some && common_name(
            host,
            secondary.unwrap(),
        ) is None ==> planned(cache, host, secondary) == Planned::Refuse(CertError::InvalidHost),
        host.len() > 0 && !cache.contains_key(host) && secondary is Some && common_name(
            host,
            secondary.unwrap(),
        ) == Some(cn) ==> planned(cache, host, secondary) == if cache.contains_key(cn) {
            Planned::Use(cache[cn])
        } else {
            Planned::Issue(cn)
        },
{
}

/// The authority in two files is the first certificate of the one and the first key of the other:
/// a key in PKCS#8 as it is, one in PKCS#1 written in PKCS#8, and no other. Each file that cannot
/// be read, or holds none, is an error of its own, the certificate's first.
pub proof fn law_authority_read(
    cert_pem: Seq<u8>,
    key_pem: Seq<u8>,
    cert: Seq<u8>,
    key: Seq<u8>,
)
    ensures
        pem_certificate(cert_pem) is None ==> authority_in(cert_pem, key_pem) == Err::<
            (Seq<u8>, Seq<u8>),
            CertError,
        >(CertError::BadPem),
        pem_certificate(cert_pem) == Some(None::<Seq<u8>>) ==> authority_in(cert_pem, key_pem) == Err::<
            (Seq<u8>, Seq<u8>),
            CertError,
        >(CertError::NoCertificate),
        pem_certificate(cert_pem) == Some(Some(cert)) ==> match pem_key(key_pem) {
            None => authority_in(cert_pem, key_pem) == Err::<(Seq<u8>, Seq<u8>), CertError>(
                CertError::BadPem,
            ),
            Some(None) => authority_in(cert_pem, key_pem) == Err::<(Seq<u8>, Seq<u8>), CertError>(
                CertError::NoKey,
            ),
            Some(Some(KeyBytes::Other)) => authority_in(cert_pem, key_pem) == Err::<
                (Seq<u8>, Seq<u8>),
                CertError,
            >(CertError::UnsupportedKey),
            Some(Some(KeyBytes::Pkcs8(k))) => authority_in(cert_pem, key_pem) == Ok::<
                (Seq<u8>, Seq<u8>),
                CertError,
            >((cert, k)),
            Some(Some(KeyBytes::Pkcs1(k))) => authority_in(cert_pem, key_pem) == if pkcs8(k).len()
                <= 0xfff_ffff {
                Ok::<(Seq<u8>, Seq<u8>), CertError>((cert, pkcs8(k)))
            } else {
                Err(CertError::KeyTooLong)
            },
        },
{
}

/// A key in PKCS#8, read as DER: a sequence of the version 0, the identifier 1.2.840.113549.1.1.1
/// with no parameters, and the key as it was.
#[verifier::spinoff_prover]
pub proof fn law_pkcs8_read(pkcs1: Seq<u8>)
    requires
        pkcs1.len() < 0x1000_0000,
    ensures
        element(pkcs8(pkcs1)) matches Some((whole, rest)) && whole.0 == 0x30 && rest.len() == 0
            && elements(whole.1) == Some(
            seq![
                (0x02u8, seq![0u8]),
                (
                    0x30u8,
                    seq![
                        0x06u8,
                        0x09,
                        0x2a,
                        0x86,
                        0x48,
                        0x86,
                        0xf7,
                        0x0d,
                        0x01,
                        0x01,
                        0x01,
                        0x05,
                        0x00,
                    ],
                ),
                (0x04u8, pkcs1),
            ],
        ),
{
    let octets = der_value(0x04, pkcs1);
    let none: Seq<u8> = Seq::empty();
    let inner = rsa_key_head() + octets;
    assert(octets.len() <= pkcs1.len() + 6);
    law_value_read_back(0x30, inner, none);
    assert(der_value(0x30, inner) + none =~= pkcs8(pkcs1));
    law_value_read_back(0x04, pkcs1, none);
    assert(octets + none =~= octets);
    assert(elements(none) == Some(Seq::<(u8, Seq<u8>)>::empty()));
    assert(elements(octets) == Some(seq![(0x04u8, pkcs1)] + Seq::empty()));
    assert(seq![(0x04u8, pkcs1)] + Seq::<(u8, Seq<u8>)>::empty() =~= seq![(0x04u8, pkcs1)]);
    let id = seq![
        0x06u8,
        0x09,
        0x2a,
        0x86,
        0x48,
        0x86,
        0xf7,
        0x0d,
        0x01,
        0x01,
        0x01,
        0x05,
        0x00,
    ];
    law_value_read_back(0x30, id, octets);
    let second = der_value(0x30, id) + octets;
    assert(elements(second) == Some(seq![(0x30u8, id)] + seq![(0x04u8, pkcs1)]));
    law_value_read_back(0x02, seq![0u8], second);
    assert(der_value(0x02, seq![0u8]) + second =~= inner);
    assert(elements(inner) == Some(
        seq![(0x02u8, seq![0u8])] + (seq![(0x30u8, id)] + seq![(0x04u8, pkcs1)]),
    ));
    assert(seq![(0x02u8, seq![0u8])] + (seq![(0x30u8, id)] + seq![(0x04u8, pkcs1)]) =~= seq![
        (0x02u8, seq![0u8]),
        (0x30u8, id),
        (0x04u8, pkcs1),
    ]);
}

/// An entry that is added stands in its place with the text that was given, once, and the others
/// stay as they were.
pub proof fn law_entry_added(
    entries: Seq<(TitleKind, Seq<char>)>,
    kind: TitleKind,
    text: Seq<char>,
    i: int,
)
    ensures
        ({
            let after = with_entry(entries, kind, text);
            &&& after.contains((kind, text))
            &&& forall|j: int| 0 <= j < after.len() && (#[trigger] after[j]).0 == kind ==> after[j].1
                == text
            &&& 0 <= i < entries.len() ==> i < after.len() && after[i].0 == entries[i].0 && (entries[i].0
                != kind ==> after[i] == entries[i])
            &&& after.len() <= entries.len() + 1
            &&& (exists|j: int| 0 <= j < entries.len() && (#[trigger] entries[j]).0 == kind)
                ==> after.len() == entries.len()
        }),
{
    let after = with_entry(entries, kind, text);
    if exists|j: int| 0 <= j < entries.len() && (#[trigger] entries[j]).0 == kind {
        let j = choose|j: int| 0 <= j < entries.len() && (#[trigger] entries[j]).0 == kind;
        assert(after[j] == (kind, text));
    } else {
        assert(after[entries.len() as int] == (kind, text));
    }
}

/// What is said of a store that is sound: a certificate that it keeps for a name was issued by who
/// signs now, for that name and the names one label below it, and the name is no public suffix; and
/// the one that it keeps for this machine was issued by who signs now, for 127.0.0.1.
pub proof fn law_sound_store(store: CertStore, cn: Seq<char>)
    requires
        store.sound(),
    ensures
        store.cache().contains_key(cn) ==> store.ca() is Some && store.rules() is Some && (exists|
            expire: int,
        | #[trigger]
            issued(
                store.ca().unwrap(),
                wildcard_subject(cn),
                expire,
                true,
                store.cache()[cn],
            )) && (cn.len() > 0 && cn[0] != '.' && cn.last() != '.' ==> registrable(
            store.rules().unwrap(),
            cn,
        ) is Some),
        store.doh() matches Some(leaf) ==> store.ca() is Some && exists|expire: int| #[trigger]
            issued(store.ca().unwrap(), local_subject(), expire, false, leaf),
{
    if store.cache().contains_key(cn) {
        assert(store.issued_here(cn, store.cache()[cn]));
    }
}

/// What is said of a name that is no public suffix: it has a registrable domain, and is that or
/// ends in a dot and that.
pub proof fn law_below_suffix(rules: Set<Seq<u8>>, name: Seq<char>)
    requires
        below_suffix(rules, name),
        name.len() > 0 && name[0] != '.' && name.last() != '.',
    ensures
        registrable(rules, name) matches Some(domain) && (name == domain || exists|sub: Seq<char>|
            name == #[trigger] (sub.push('.') + domain)),
{
    let domain = registrable(rules, name).unwrap();
    if name != domain {
        let k = name.len() - domain.len();
        let sub = name.take(k - 1);
        assert(name =~= sub.push('.') + domain);
    }
}

/// What is said of a certificate that serves a host: it was issued by who signs now, and one of its
/// alternative names matches the host.
pub proof fn law_served(store: CertStore, host: Seq<char>, leaf: Leaf)
    requires
        store.serves(host, leaf),
    ensures
        exists|cn: Seq<char>, expire: int, i: int|
            #![trigger issued(store.ca().unwrap(), wildcard_subject(cn), expire, true, leaf), wildcard_subject(cn).names[i]]
            store.ca() is Some && issued(
                store.ca().unwrap(),
                wildcard_subject(cn),
                expire,
                true,
                leaf,
            ) && 0 <= i < wildcard_subject(cn).names.len() && name_matches(
                wildcard_subject(cn).names[i],
                host,
            ),
{
    let cn = choose|cn: Seq<char>| #[trigger] covers(cn, host) && store.issued_here(cn, leaf);
    let a = store.ca().unwrap();
    let expire = choose|expire: int| #[trigger]
        issued(a, wildcard_subject(cn), expire, true, leaf);
    law_certificate_matches(host, cn, cn);
    let i = choose|i: int|
        0 <= i < wildcard_subject(cn).names.len() && name_matches(
            #[trigger] wildcard_subject(cn).names[i],
            host,
        );
    assert(issued(store.ca().unwrap(), wildcard_subject(cn), expire, true, leaf));
    assert(name_matches(wildcard_subject(cn).names[i], host));
}

/// The registrable domain of a host stands at its end, but for one dot behind it, and begins with
/// one of its labels.
pub proof fn law_domain_at_end(rules: Set<Seq<u8>>, host: Seq<char>, domain: Seq<char>)
    requires
        domain_found(rules, host, domain),
    ensures
        registrable(rules, host) == Some(domain),
        exists|front: Seq<char>|
            (front.len() == 0 || front.last() == '.') && (host == #[trigger] (front + domain) || host
                == (front + domain).push('.')),
{
    let n = dotless_len(host);
    let k = choose|k: int| #[trigger]
        label_start(host, k) && k <= n && domain == host.subrange(k, n);
    let front = host.take(k);
    assert(front.len() > 0 ==> front.last() == host[k - 1]);
    if n == host.len() {
        assert(host =~= front + domain);
    } else {
        assert(host =~= (front + domain).push('.'));
    }
}

/// When certificates can be issued for hosts: where there is an authority whose certificate can be
/// written again, and a list of public suffixes.
pub proof fn law_ready(store: CertStore)
    ensures
        store.ready() <==> store.ca() is Some && writable_authority(store.ca().unwrap().0)
            && store.rules() is Some,
        store.can_issue() <==> store.ca() is Some && writable_authority(store.ca().unwrap().0),
{
}

/// What is said of a store that keeps what another held: a request that found a certificate in the
/// other finds the same one in it.
pub proof fn law_kept_is_found(
    store: CertStore,
    before: CertStore,
    host: Seq<char>,
    secondary: Option<Seq<char>>,
)
    requires
        store.keeps(&before),
    ensures
        store.ca() == before.ca(),
        store.rules() == before.rules(),
        before.doh() is Some ==> store.doh() == before.doh(),
        before.cache().contains_key(host) ==> store.cache().contains_key(host) && store.cache()[host]
            == before.cache()[host],
        host.len() > 0 && before.cache().contains_key(host) ==> planned(
            store.cache(),
            host,
            secondary,
        ) == planned(before.cache(), host, secondary),
{
}

} // verus!
