//! The certificate authority: the root certificate that users install, and the certificates
//! that are issued under it, one for each host.

use crate::config::cmd_err;
use crate::text;
use crate::text::CharClass;
use rcgen::{Certificate, CertificateParams, DistinguishedName, KeyPair};
use rustls::sign::CertifiedKey;
use std::sync::Arc;
use vstd::hash_map::StringHashMap;
use vstd::prelude::*;

verus! {

/// A certificate, with the parameters it was made from.
#[verifier::external_type_specification]
#[verifier::external_body]
pub struct ExCertificate(Certificate);

/// What a certificate is to say.
#[verifier::external_type_specification]
#[verifier::external_body]
pub struct ExCertificateParams(CertificateParams);

/// The name of the subject of a certificate.
#[verifier::external_type_specification]
#[verifier::external_body]
pub struct ExDistinguishedName(DistinguishedName);

/// A private key with its public key.
#[verifier::external_type_specification]
#[verifier::external_body]
pub struct ExKeyPair(KeyPair);

/// Why a certificate or a key cannot be made.
#[verifier::external_type_specification]
#[verifier::external_body]
pub struct ExRcgenError(rcgen::Error);

/// A certificate chain and the key for it, as a TLS server uses them.
#[verifier::external_type_specification]
#[verifier::external_body]
pub struct ExCertifiedKey(CertifiedKey);

/// Why a TLS server cannot use a key.
#[verifier::external_type_specification]
#[verifier::external_body]
pub struct ExRustlsError(rustls::Error);

/// Why a file cannot be read or written.
#[verifier::external_type_specification]
#[verifier::external_body]
pub struct ExIoError(std::io::Error);

/// What can go wrong with certificates.
pub enum CertError {
    /// A certificate or a key cannot be made or read.
    Rcgen(rcgen::Error),
    /// A file cannot be read or written.
    Io(std::io::Error),
    /// A key cannot be used; with the reason.
    Key(String),
}

/// The parts of a subject's name.
#[derive(Clone, Copy, Debug, PartialEq, Eq)]
pub enum NameField {
    CountryName,
    LocalityName,
    StateOrProvinceName,
    OrganizationName,
    OrganizationalUnitName,
    CommonName,
}

/// What a part of a subject's name is.
pub enum PartKind {
    /// One of the usual parts.
    Known(NameField),
    /// Another one, by its object identifier.
    Custom(Seq<u64>),
}

/// A part of a subject's name.
pub struct NamePart {
    pub kind: PartKind,
    pub text: Seq<char>,
    /// It is kept as an ASN.1 `PrintableString`.
    pub printable: bool,
}

/// The name of a subject, part by part.
pub type NameView = Seq<NamePart>;

/// One of the names that a certificate is for.
pub enum AltName {
    /// A host.
    Dns(Seq<char>),
    /// An address, byte by byte.
    Ip(Seq<u8>),
    /// A mailbox.
    Email(Seq<char>),
    /// A URI.
    Uri(Seq<char>),
    /// A name of another kind, with the object identifier of the kind.
    Other(Seq<u64>, Seq<char>),
}

/// What the certificates under a certificate may be for, or not.
pub enum ConstraintView {
    /// Mailboxes or hosts.
    Text(Seq<char>),
    /// Subjects.
    Name(NameView),
    /// Addresses.
    Address,
}

/// A date, as far as it matters how it is written.
pub struct DateView {
    /// The year on the clock that it was read from.
    pub year: int,
    /// The seconds since 1970, in universal time.
    pub seconds: int,
}

/// Whether a certificate may sign others.
#[derive(Clone, Copy, Debug, PartialEq, Eq)]
pub enum CaStatus {
    /// It may not, and does not say so.
    NoCa,
    /// It may not, and says so.
    ExplicitNoCa,
    /// It may, through this many others at most.
    Constrained(u8),
    /// It may.
    Unconstrained,
}

/// What the key of a certificate may be used for.
#[derive(Clone, Copy, Debug, PartialEq, Eq)]
pub enum KeyUse {
    DigitalSignature,
    ContentCommitment,
    KeyEncipherment,
    DataEncipherment,
    KeyAgreement,
    KeyCertSign,
    CrlSign,
    EncipherOnly,
    DecipherOnly,
}

/// What a certificate may be used for.
#[derive(Clone, Copy, Debug, PartialEq, Eq)]
pub enum ExtendedUse {
    Any,
    ServerAuth,
    ClientAuth,
    CodeSigning,
    EmailProtection,
    TimeStamping,
    OcspSigning,
}

/// What the parameters of a certificate say.
#[verifier::ext_equal]
pub struct ParamsView {
    pub alt_names: Seq<AltName>,
    pub subject: NameView,
    pub ca: CaStatus,
    pub uses: Set<KeyUse>,
    /// `None` is a use of another kind.
    pub extended_uses: Seq<Option<ExtendedUse>>,
    pub constraints: Seq<ConstraintView>,
    pub not_before: DateView,
    pub not_after: DateView,
    /// There are distribution points or custom extensions.
    pub more: bool,
}

/// A key pair.
pub struct KeyView {
    /// The private key in PKCS#8; `None` where it is held elsewhere.
    pub pkcs8: Option<Seq<u8>>,
    /// The public key.
    pub public: Seq<u8>,
    /// It is a P-256 key that signs with SHA-256.
    pub p256: bool,
}

/// A certificate.
pub struct CertificateView {
    pub params: ParamsView,
    /// Its encoding.
    pub der: Seq<u8>,
    /// The public key that it certifies.
    pub subject_key: Seq<u8>,
    /// The name of its issuer.
    pub issuer: NameView,
    /// The public key that its signature is checked with.
    pub signer: Seq<u8>,
}

/// What a TLS server presents.
pub struct CertifiedView {
    /// The encodings of the certificates.
    pub chain: Seq<Seq<u8>>,
    /// The private key in PKCS#8.
    pub key: Seq<u8>,
}

/// What a `DistinguishedName` holds.
pub uninterp spec fn name_view(name: DistinguishedName) -> NameView;

/// What `CertificateParams` hold.
pub uninterp spec fn params_view(params: CertificateParams) -> ParamsView;

/// What a `KeyPair` holds.
pub uninterp spec fn key_view(key: KeyPair) -> KeyView;

/// What a `Certificate` holds.
pub uninterp spec fn certificate_view(cert: Certificate) -> CertificateView;

/// What a `CertifiedKey` holds.
pub uninterp spec fn certified_view(key: CertifiedKey) -> CertifiedView;

/// `DistinguishedName::new` makes a name without parts.
pub assume_specification[ DistinguishedName::new ]() -> (name: DistinguishedName)
    ensures
        name_view(name).len() == 0,
;

/// `name` with `value` for the part `field`: in its place if there is such a part, else at the
/// end.
pub open spec fn with_part(name: NameView, field: NameField, value: Seq<char>) -> NameView
    decreases name.len(),
{
    if name.len() == 0 {
        seq![text_part(field, value)]
    } else if name[0].kind == PartKind::Known(field) {
        seq![text_part(field, value)] + name.drop_first()
    } else {
        seq![name[0]] + with_part(name.drop_first(), field, value)
    }
}

/// A part that is kept as UTF-8.
pub open spec fn text_part(field: NameField, value: Seq<char>) -> NamePart {
    NamePart { kind: PartKind::Known(field), text: value, printable: false }
}

/// Calls `DistinguishedName::push`, which replaces a part of the name or adds one, as UTF-8.
#[verifier::external_body]
fn push_part(name: &mut DistinguishedName, field: NameField, value: &str)
    ensures
        name_view(*final(name)) == with_part(name_view(*old(name)), field, value@),
{
    let kind = match field {
        NameField::CountryName => rcgen::DnType::CountryName,
        NameField::LocalityName => rcgen::DnType::LocalityName,
        NameField::StateOrProvinceName => rcgen::DnType::StateOrProvinceName,
        NameField::OrganizationName => rcgen::DnType::OrganizationName,
        NameField::OrganizationalUnitName => rcgen::DnType::OrganizationalUnitName,
        NameField::CommonName => rcgen::DnType::CommonName,
    };
    name.push(kind, value)
}

/// The bytes of the address that a text is read as by `CertificateParams::new`; `None` where it
/// is read as a host.
pub uninterp spec fn ip_octets(s: Seq<char>) -> Option<Seq<u8>>;

/// The name that a text stands for, where `octets` are those of the address that it is.
pub open spec fn alt_name(s: Seq<char>, octets: Option<Seq<u8>>) -> AltName {
    match octets {
        Some(octets) => AltName::Ip(octets),
        None => AltName::Dns(s),
    }
}

/// The parameters that `CertificateParams::new` makes for one name.
pub open spec fn default_params(name: AltName) -> ParamsView {
    ParamsView {
        alt_names: seq![name],
        subject: seq![text_part(NameField::CommonName, "rcgen self signed cert"@)],
        ca: CaStatus::NoCa,
        uses: Set::empty(),
        extended_uses: Seq::empty(),
        constraints: Seq::empty(),
        not_before: DateView { year: 1975, seconds: 157766400 },
        not_after: DateView { year: 4096, seconds: 67090118400 },
        more: false,
    }
}

/// Calls `CertificateParams::new` for one name, which makes parameters with defaults for all
/// else. The name is read as an address if it is one, else as a host; it fails exactly where the
/// name is not ASCII.
#[verifier::external_body]
fn new_params(host: String) -> (r: Result<CertificateParams, rcgen::Error>)
    ensures
        match r {
            Ok(params) => vstd::utf8::is_ascii_chars(host@) && params_view(params)
                == default_params(alt_name(host@, ip_octets(host@))),
            Err(_) => !vstd::utf8::is_ascii_chars(host@),
        },
{
    CertificateParams::new(vec![host])
}

/// Sets `CertificateParams::distinguished_name`.
#[verifier::external_body]
fn set_subject(params: &mut CertificateParams, name: DistinguishedName)
    ensures
        params_view(*final(params)) == (ParamsView {
            subject: name_view(name),
            ..params_view(*old(params))
        }),
{
    params.distinguished_name = name;
}

/// Sets `CertificateParams::is_ca`.
#[verifier::external_body]
fn set_ca(params: &mut CertificateParams, ca: CaStatus)
    ensures
        params_view(*final(params)) == (ParamsView { ca, ..params_view(*old(params)) }),
{
    params.is_ca = match ca {
        CaStatus::NoCa => rcgen::IsCa::NoCa,
        CaStatus::ExplicitNoCa => rcgen::IsCa::ExplicitNoCa,
        CaStatus::Constrained(n) => rcgen::IsCa::Ca(rcgen::BasicConstraints::Constrained(n)),
        CaStatus::Unconstrained => rcgen::IsCa::Ca(rcgen::BasicConstraints::Unconstrained),
    };
}

/// Sets `CertificateParams::key_usages`.
#[verifier::external_body]
fn set_uses(params: &mut CertificateParams, uses: &[KeyUse])
    ensures
        params_view(*final(params)) == (ParamsView {
            uses: uses@.to_set(),
            ..params_view(*old(params))
        }),
{
    params.key_usages = uses.iter().map(|u| match u {
        KeyUse::DigitalSignature => rcgen::KeyUsagePurpose::DigitalSignature,
        KeyUse::ContentCommitment => rcgen::KeyUsagePurpose::ContentCommitment,
        KeyUse::KeyEncipherment => rcgen::KeyUsagePurpose::KeyEncipherment,
        KeyUse::DataEncipherment => rcgen::KeyUsagePurpose::DataEncipherment,
        KeyUse::KeyAgreement => rcgen::KeyUsagePurpose::KeyAgreement,
        KeyUse::KeyCertSign => rcgen::KeyUsagePurpose::KeyCertSign,
        KeyUse::CrlSign => rcgen::KeyUsagePurpose::CrlSign,
        KeyUse::EncipherOnly => rcgen::KeyUsagePurpose::EncipherOnly,
        KeyUse::DecipherOnly => rcgen::KeyUsagePurpose::DecipherOnly,
    }).collect();
}

/// Each use, as one of the known kinds.
pub open spec fn known_uses(uses: Seq<ExtendedUse>) -> Seq<Option<ExtendedUse>> {
    Seq::new(uses.len(), |i: int| Some(uses[i]))
}

/// Sets `CertificateParams::extended_key_usages`.
#[verifier::external_body]
fn set_extended_uses(params: &mut CertificateParams, uses: &[ExtendedUse])
    ensures
        params_view(*final(params)) == (ParamsView {
            extended_uses: known_uses(uses@),
            ..params_view(*old(params))
        }),
{
    params.extended_key_usages = uses.iter().map(|u| match u {
        ExtendedUse::Any => rcgen::ExtendedKeyUsagePurpose::Any,
        ExtendedUse::ServerAuth => rcgen::ExtendedKeyUsagePurpose::ServerAuth,
        ExtendedUse::ClientAuth => rcgen::ExtendedKeyUsagePurpose::ClientAuth,
        ExtendedUse::CodeSigning => rcgen::ExtendedKeyUsagePurpose::CodeSigning,
        ExtendedUse::EmailProtection => rcgen::ExtendedKeyUsagePurpose::EmailProtection,
        ExtendedUse::TimeStamping => rcgen::ExtendedKeyUsagePurpose::TimeStamping,
        ExtendedUse::OcspSigning => rcgen::ExtendedKeyUsagePurpose::OcspSigning,
    }).collect();
}

/// Calls `KeyPair::generate_for` for P-256 with SHA-256. The key is random; whether there is one
/// depends on the machine's source of randomness.
#[verifier::external_body]
fn generate_key() -> (r: Result<KeyPair, rcgen::Error>)
    ensures
        r matches Ok(key) ==> key_view(key).p256 && key_view(key).pkcs8 is Some,
{
    KeyPair::generate_for(&rcgen::PKCS_ECDSA_P256_SHA256)
}

/// The key that `KeyPair::from_pem` reads in a text.
pub uninterp spec fn key_in_pem(pem: Seq<char>) -> Option<KeyView>;

/// `KeyPair::from_pem` reads a private key. It can fail on a good key where the machine has no
/// randomness to spare.
pub assume_specification[ KeyPair::from_pem ](pem_str: &str) -> (r: Result<KeyPair, rcgen::Error>)
    ensures
        r matches Ok(key) ==> key_in_pem(pem_str@) == Some(key_view(key)) && key_view(
            key,
        ).pkcs8 is Some,
;

/// The text that `KeyPair::serialize_pem` writes a private key as.
pub uninterp spec fn key_pem(pkcs8: Seq<u8>) -> Seq<char>;

/// Calls `KeyPair::serialize_pem`, which writes the private key as text. A P-256 key can be read
/// from it again.
#[verifier::external_body]
fn write_key(key: &KeyPair) -> (r: String)
    requires
        key_view(*key).pkcs8 is Some,
    ensures
        r@ == key_pem(key_view(*key).pkcs8->0),
        key_view(*key).p256 ==> key_in_pem(r@) == Some(key_view(*key)),
{
    key.serialize_pem()
}

/// Calls `KeyPair::serialize_der`, which gives the private key in PKCS#8.
#[verifier::external_body]
fn key_der(key: &KeyPair) -> (r: Vec<u8>)
    requires
        key_view(*key).pkcs8 is Some,
    ensures
        key_view(*key).pkcs8 == Some(r@),
{
    key.serialize_der()
}

/// The parameters that `CertificateParams::from_ca_cert_pem` reads in a text.
pub uninterp spec fn params_in_pem(pem: Seq<char>) -> Option<ParamsView>;

/// `CertificateParams::from_ca_cert_pem` reads the parameters of a certificate. What it reads
/// depends on the text alone; distribution points, unknown extensions and unknown uses are not
/// read.
pub assume_specification[ CertificateParams::from_ca_cert_pem ](pem_str: &str) -> (r: Result<
    CertificateParams,
    rcgen::Error,
>)
    ensures
        match r {
            Ok(params) => params_in_pem(pem_str@) == Some(params_view(params)) && no_extras(
                params_view(params),
            ),
            Err(_) => params_in_pem(pem_str@) is None,
        },
;

/// The text that `Certificate::pem` writes a certificate as.
pub uninterp spec fn certificate_pem(der: Seq<u8>) -> Seq<char>;

/// `Certificate::pem` writes the encoding of a certificate as text. From that of a root
/// certificate such as this library makes, its parameters can be read again.
pub assume_specification[ Certificate::pem ](cert: &Certificate) -> (pem: String)
    ensures
        pem@ == certificate_pem(certificate_view(*cert).der),
        certificate_view(*cert).params == root_params() ==> params_in_pem(pem@) == Some(
            root_params(),
        ),
;

/// Calls `Certificate::der`, which gives the encoding of a certificate.
#[verifier::external_body]
fn cert_der(cert: &Certificate) -> (r: Vec<u8>)
    ensures
        r@ == certificate_view(*cert).der,
{
    cert.der().as_ref().to_vec()
}

/// An object identifier can be written: it has two components at least, and the first two are
/// within the limits of their encoding.
pub open spec fn oid_fits(oid: Seq<u64>) -> bool {
    &&& oid.len() >= 2
    &&& oid[0] < 3
    &&& oid[1] < 18446744073709551535
    &&& oid[0] < 2 ==> oid[1] < 40
}

/// A name can be written: so can its object identifiers, and no `PrintableString` holds a
/// question mark, which the encoding takes and the encoder does not.
pub open spec fn name_fits(name: NameView) -> bool {
    forall|i: int| 0 <= i < name.len() ==> #[trigger] part_fits(name[i])
}

/// A part of a name can be written.
pub open spec fn part_fits(part: NamePart) -> bool {
    &&& part.kind matches PartKind::Custom(oid) ==> oid_fits(oid)
    &&& part.printable ==> !part.text.contains('?')
}

/// An alternative name can be written.
pub open spec fn alt_name_fits(name: AltName) -> bool {
    name matches AltName::Other(oid, _) ==> oid_fits(oid)
}

/// A constraint can be written.
pub open spec fn constraint_fits(constraint: ConstraintView) -> bool {
    match constraint {
        ConstraintView::Text(text) => vstd::utf8::is_ascii_chars(text),
        ConstraintView::Name(name) => name_fits(name),
        ConstraintView::Address => true,
    }
}

/// The seconds since 1970 at which the year 0 begins.
pub const YEAR_0: i64 = -62167219200;

/// The seconds since 1970 at which the year 1950 begins.
pub const YEAR_1950: i64 = -631152000;

/// The seconds since 1970 at which the year 2050 begins.
pub const YEAR_2050: i64 = 2524608000;

/// The seconds since 1970 at which the year 10000 begins.
pub const YEAR_10000: i64 = 253402300800;

/// A date can be written. The form is chosen by the year on its own clock: one for the years
/// from 1950 to 2049, another for the rest. In universal time the date has to be one that this
/// form can hold.
pub open spec fn date_fits(date: DateView) -> bool {
    if 1950 <= date.year < 2050 {
        YEAR_1950 <= date.seconds < YEAR_2050
    } else {
        YEAR_0 <= date.seconds < YEAR_10000
    }
}

/// A certificate with these parameters can be written.
pub open spec fn encodable(params: ParamsView) -> bool {
    &&& name_fits(params.subject)
    &&& forall|i: int|
        0 <= i < params.alt_names.len() ==> #[trigger] alt_name_fits(params.alt_names[i])
    &&& forall|i: int|
        0 <= i < params.constraints.len() ==> #[trigger] constraint_fits(params.constraints[i])
    &&& date_fits(params.not_before)
    &&& date_fits(params.not_after)
    &&& no_extras(params)
}

/// The parameters hold nothing but what a certificate's text is read for.
pub open spec fn no_extras(params: ParamsView) -> bool {
    &&& !params.more
    &&& forall|i: int|
        0 <= i < params.extended_uses.len() ==> #[trigger] params.extended_uses[i] is Some
}

/// `CertificateParams::self_signed` makes a certificate for the key that signs it. Signing uses
/// randomness, so nothing more is claimed of the encoding, nor that it succeeds.
pub assume_specification[ CertificateParams::self_signed ](
    params: CertificateParams,
    key_pair: &KeyPair,
) -> (r: Result<Certificate, rcgen::Error>)
    requires
        encodable(params_view(params)),
        key_view(*key_pair).pkcs8 is Some,
    ensures
        r matches Ok(cert) ==> certificate_view(cert).params == params_view(params)
            && certificate_view(cert).subject_key == key_view(*key_pair).public
            && certificate_view(cert).issuer == params_view(params).subject && certificate_view(
            cert,
        ).signer == key_view(*key_pair).public,
;

/// Calls `CertificateParams::signed_by`, which makes a certificate for `key`, issued under the
/// name of `issuer` and signed with `issuer_key`. Signing uses randomness, so nothing more is
/// claimed of the encoding, nor that it succeeds.
#[verifier::external_body]
fn sign_leaf(
    params: CertificateParams,
    key: &KeyPair,
    issuer: &Certificate,
    issuer_key: &KeyPair,
) -> (r: Result<Certificate, rcgen::Error>)
    requires
        encodable(params_view(params)),
        name_fits(certificate_view(*issuer).params.subject),
        key_view(*issuer_key).pkcs8 is Some,
    ensures
        r matches Ok(cert) ==> certificate_view(cert).params == params_view(params)
            && certificate_view(cert).subject_key == key_view(*key).public && certificate_view(
            cert,
        ).issuer == certificate_view(*issuer).params.subject && certificate_view(cert).signer
            == key_view(*issuer_key).public,
{
    params.signed_by(key, issuer, issuer_key)
}

/// Calls `any_supported_type` of rustls' `ring` provider for a PKCS#8 key and, with the signing
/// key that it gives, `CertifiedKey::new`. It can fail on a good key where the machine has no
/// randomness to spare.
#[verifier::external_body]
fn certify(cert: Vec<u8>, key: Vec<u8>) -> (r: Result<CertifiedKey, rustls::Error>)
    ensures
        r matches Ok(certified) ==> certified_view(certified) == (CertifiedView {
            chain: seq![cert@],
            key: key@,
        }),
{
    let key = rustls::pki_types::PrivatePkcs8KeyDer::from(key);
    let signing_key = rustls::crypto::ring::sign::any_supported_type(&key.into())?;
    Ok(CertifiedKey::new(vec![rustls::pki_types::CertificateDer::from(cert)], signing_key))
}

/// The name that the root certificate is for.
pub const ROOT_NAME: &'static str = "Steam++ Accelerator Root CA";

/// The organization that all certificates name.
pub const ORGANIZATION: &'static str = "Steam++ Accelerator";

/// The country that all certificates name.
pub const COUNTRY: &'static str = "CN";

/// The name of the subject of a certificate for `cn`.
pub open spec fn subject_for(cn: Seq<char>) -> NameView {
    seq![
        text_part(NameField::CommonName, cn),
        text_part(NameField::OrganizationName, ORGANIZATION@),
        text_part(NameField::CountryName, COUNTRY@),
    ]
}

/// The name of the subject of a certificate for `cn`.
pub fn smart_name(cn: &str) -> (name: DistinguishedName)
    ensures
        name_view(name) == subject_for(cn@),
{
    reveal_with_fuel(with_part, 4);
    let mut name = DistinguishedName::new();
    push_part(&mut name, NameField::CommonName, cn);
    assert(name_view(name) =~= seq![text_part(NameField::CommonName, cn@)]);
    push_part(&mut name, NameField::OrganizationName, ORGANIZATION);
    assert(name_view(name) =~= seq![
        text_part(NameField::CommonName, cn@),
        text_part(NameField::OrganizationName, ORGANIZATION@),
    ]);
    let ghost two = name_view(name);
    push_part(&mut name, NameField::CountryName, COUNTRY);
    assert(two.drop_first().drop_first() =~= Seq::<NamePart>::empty());
    assert(name_view(name) =~= subject_for(cn@));
    name
}

/// What the root certificate says: it may sign certificates and revocation lists.
pub open spec fn root_params() -> ParamsView {
    ParamsView {
        alt_names: seq![alt_name(ROOT_NAME@, ip_octets(ROOT_NAME@))],
        subject: subject_for(ROOT_NAME@),
        ca: CaStatus::Unconstrained,
        uses: set![KeyUse::KeyCertSign, KeyUse::DigitalSignature, KeyUse::CrlSign],
        extended_uses: Seq::empty(),
        constraints: Seq::empty(),
        not_before: DateView { year: 1975, seconds: 157766400 },
        not_after: DateView { year: 4096, seconds: 67090118400 },
        more: false,
    }
}

/// What the certificate for a host says: it is for that host, as a server, and signs no others.
pub open spec fn leaf_params_view(host: Seq<char>) -> ParamsView {
    ParamsView {
        alt_names: seq![alt_name(host, ip_octets(host))],
        subject: subject_for(host),
        ca: CaStatus::NoCa,
        uses: Set::empty(),
        extended_uses: seq![Some(ExtendedUse::ServerAuth)],
        constraints: Seq::empty(),
        not_before: DateView { year: 1975, seconds: 157766400 },
        not_after: DateView { year: 4096, seconds: 67090118400 },
        more: false,
    }
}

/// The parameters of the root certificate.
pub fn ca_params() -> (r: Result<CertificateParams, CertError>)
    ensures
        r matches Ok(params) && params_view(params) == root_params(),
{
    proof {
        reveal_strlit("Steam++ Accelerator Root CA");
    }
    let mut params = match new_params(ROOT_NAME.to_owned()) {
        Ok(params) => params,
        Err(e) => return Err(CertError::Rcgen(e)),
    };
    set_subject(&mut params, smart_name(ROOT_NAME));
    set_ca(&mut params, CaStatus::Unconstrained);
    let uses: [KeyUse; 3] = [KeyUse::KeyCertSign, KeyUse::DigitalSignature, KeyUse::CrlSign];
    set_uses(&mut params, uses.as_slice());
    assert(uses@.to_set() =~= root_params().uses) by {
        assert(uses@[0] == KeyUse::KeyCertSign);
        assert(uses@[1] == KeyUse::DigitalSignature);
        assert(uses@[2] == KeyUse::CrlSign);
    }
    Ok(params)
}

/// The parameters of the certificate for a host; there are none for a host that is not ASCII.
pub fn leaf_params(host: &str) -> (r: Result<CertificateParams, CertError>)
    ensures
        match r {
            Ok(params) => vstd::utf8::is_ascii_chars(host@) && params_view(params)
                == leaf_params_view(host@),
            Err(e) => !vstd::utf8::is_ascii_chars(host@) && e is Rcgen,
        },
{
    let mut params = match new_params(host.to_owned()) {
        Ok(params) => params,
        Err(e) => return Err(CertError::Rcgen(e)),
    };
    set_subject(&mut params, smart_name(host));
    set_ca(&mut params, CaStatus::NoCa);
    let uses: [ExtendedUse; 1] = [ExtendedUse::ServerAuth];
    set_extended_uses(&mut params, uses.as_slice());
    assert(known_uses(uses@) =~= leaf_params_view(host@).extended_uses);
    Ok(params)
}

/// What the library makes can be written.
proof fn lemma_own_params_fit(host: Seq<char>)
    ensures
        encodable(root_params()),
        encodable(leaf_params_view(host)),
{
    assert(name_fits(subject_for(ROOT_NAME@)));
    assert(name_fits(subject_for(host)));
}

/// What decides whether a part of a name can be written: its object identifier where it is of no
/// usual kind, and its text where it is a `PrintableString`.
struct PartForm {
    oid: Option<Vec<u64>>,
    printable: Option<String>,
}

impl PartForm {
    /// This is the form of `part`.
    spec fn is_of(self, part: NamePart) -> bool {
        &&& match self.oid {
            Some(oid) => part.kind == PartKind::Custom(oid@),
            None => part.kind is Known,
        }
        &&& match self.printable {
            Some(text) => part.printable && part.text == text@,
            None => !part.printable,
        }
    }
}

/// What decides whether a constraint can be written.
enum ConstraintForm {
    Text(String),
    Name(DistinguishedName),
    Address,
}

impl ConstraintForm {
    /// This is the form of `constraint`.
    spec fn is_of(self, constraint: ConstraintView) -> bool {
        match self {
            ConstraintForm::Text(text) => constraint == ConstraintView::Text(text@),
            ConstraintForm::Name(name) => constraint == ConstraintView::Name(name_view(name)),
            ConstraintForm::Address => constraint is Address,
        }
    }
}

/// The forms are those of the parts, one by one.
spec fn forms_of(forms: Seq<PartForm>, name: NameView) -> bool {
    forms.len() == name.len() && forall|i: int|
        0 <= i < name.len() ==> (#[trigger] forms[i]).is_of(name[i])
}

/// The identifiers are those of the names of another kind, one by one.
spec fn oids_of(oids: Seq<Option<Vec<u64>>>, names: Seq<AltName>) -> bool {
    oids.len() == names.len() && forall|i: int|
        0 <= i < names.len() ==> (match #[trigger] oids[i] {
            Some(oid) => names[i] matches AltName::Other(o, _) && o == oid@,
            None => !(names[i] is Other),
        })
}

/// The forms are those of the constraints, one by one.
spec fn constraints_of(forms: Seq<ConstraintForm>, list: Seq<ConstraintView>) -> bool {
    forms.len() == list.len() && forall|i: int|
        0 <= i < list.len() ==> (#[trigger] forms[i]).is_of(list[i])
}

/// A year and the seconds since 1970 stand for the date.
spec fn is_date(seen: (i32, i64), date: DateView) -> bool {
    seen.0 == date.year && seen.1 == date.seconds
}

/// Reads `CertificateParams::distinguished_name`.
#[verifier::external_body]
fn subject_of(params: &CertificateParams) -> (name: &DistinguishedName)
    ensures
        name_view(*name) == params_view(*params).subject,
{
    &params.distinguished_name
}

/// Calls `DistinguishedName::iter`, which visits the parts of a name in order.
#[verifier::external_body]
fn part_forms(name: &DistinguishedName) -> (forms: Vec<PartForm>)
    ensures
        forms_of(forms@, name_view(*name)),
{
    name.iter().map(|(kind, value)| PartForm {
        oid: match kind {
            rcgen::DnType::CustomDnType(oid) => Some(oid.clone()),
            _ => None,
        },
        printable: match value {
            rcgen::DnValue::PrintableString(text) => Some(text.as_str().to_owned()),
            _ => None,
        },
    }).collect()
}

/// Reads `CertificateParams::subject_alt_names`.
#[verifier::external_body]
fn alt_name_oids(params: &CertificateParams) -> (oids: Vec<Option<Vec<u64>>>)
    ensures
        oids_of(oids@, params_view(*params).alt_names),
{
    params.subject_alt_names.iter().map(|name| match name {
        rcgen::SanType::OtherName((oid, _)) => Some(oid.clone()),
        _ => None,
    }).collect()
}

/// Reads `CertificateParams::name_constraints`: first what is permitted, then what is excluded.
#[verifier::external_body]
fn constraint_forms(params: &CertificateParams) -> (forms: Vec<ConstraintForm>)
    ensures
        constraints_of(forms@, params_view(*params).constraints),
{
    params.name_constraints.iter().flat_map(|c| {
        c.permitted_subtrees.iter().chain(c.excluded_subtrees.iter())
    }).map(|tree| match tree {
        rcgen::GeneralSubtree::Rfc822Name(text) => ConstraintForm::Text(text.clone()),
        rcgen::GeneralSubtree::DnsName(text) => ConstraintForm::Text(text.clone()),
        rcgen::GeneralSubtree::DirectoryName(name) => ConstraintForm::Name(name.clone()),
        _ => ConstraintForm::Address,
    }).collect()
}

/// Reads `CertificateParams::not_before` and `CertificateParams::not_after`, with the methods
/// `year` and `unix_timestamp` of their type.
#[verifier::external_body]
fn dates_of(params: &CertificateParams) -> (dates: ((i32, i64), (i32, i64)))
    ensures
        is_date(dates.0, params_view(*params).not_before),
        is_date(dates.1, params_view(*params).not_after),
{
    let (from, until) = (params.not_before, params.not_after);
    ((from.year(), from.unix_timestamp()), (until.year(), until.unix_timestamp()))
}

/// The error of rcgen for a certificate that it cannot handle.
#[verifier::external_body]
fn unreadable_certificate() -> rcgen::Error {
    rcgen::Error::CouldNotParseCertificate
}

/// Whether an object identifier can be written.
fn oid_can_be_written(oid: &[u64]) -> (b: bool)
    ensures
        b == oid_fits(oid@),
{
    oid.len() >= 2 && oid[0] < 3 && oid[1] < 18446744073709551535 && (oid[0] >= 2 || oid[1] < 40)
}

/// Whether a name can be written.
fn name_can_be_written(name: &DistinguishedName) -> (b: bool)
    ensures
        b == name_fits(name_view(*name)),
{
    let forms = part_forms(name);
    let ghost parts = name_view(*name);
    let mut k: usize = 0;
    while k < forms.len()
        invariant
            k <= forms@.len(),
            parts == name_view(*name),
            forms_of(forms@, parts),
            forall|i: int| 0 <= i < k ==> #[trigger] part_fits(parts[i]),
        decreases forms@.len() - k,
    {
        let form = &forms[k];
        assert(forms@[k as int].is_of(parts[k as int]));
        let oid_ok = match &form.oid {
            Some(oid) => oid_can_be_written(oid.as_slice()),
            None => true,
        };
        let text_ok = match &form.printable {
            Some(printable) => {
                let cs = text::chars_of(printable.as_str());
                let found = text::find_last(cs.as_slice(), CharClass::Is('?')).is_some();
                proof {
                    text::lemma_last_in(cs@, CharClass::Is('?'));
                }
                !found
            },
            None => true,
        };
        if !(oid_ok && text_ok) {
            assert(!part_fits(parts[k as int]));
            return false;
        }
        assert(part_fits(parts[k as int]));
        k += 1;
    }
    true
}

/// Whether a text is ASCII.
fn is_ascii_text(s: &str) -> (b: bool)
    ensures
        b == vstd::utf8::is_ascii_chars(s@),
{
    let cs = text::chars_of(s);
    let mut k: usize = 0;
    while k < cs.len()
        invariant
            k <= cs@.len(),
            cs@ == s@,
            forall|i: int| 0 <= i < k ==> '\0' <= #[trigger] cs@[i] <= '\u{7f}',
        decreases cs@.len() - k,
    {
        if !('\0' <= cs[k] && cs[k] <= '\u{7f}') {
            assert(!('\0' <= s@[k as int] <= '\u{7f}'));
            return false;
        }
        k += 1;
    }
    true
}

/// Whether a date can be written.
fn date_can_be_written(year: i32, seconds: i64) -> (b: bool)
    ensures
        b == date_fits(DateView { year: year as int, seconds: seconds as int }),
{
    if 1950 <= year && year < 2050 {
        YEAR_1950 <= seconds && seconds < YEAR_2050
    } else {
        YEAR_0 <= seconds && seconds < YEAR_10000
    }
}

/// Whether a certificate can be written with parameters that were read from one.
fn can_encode(params: &CertificateParams) -> (b: bool)
    requires
        no_extras(params_view(*params)),
    ensures
        b == encodable(params_view(*params)),
{
    let ghost view = params_view(*params);
    if !name_can_be_written(subject_of(params)) {
        return false;
    }
    let oids = alt_name_oids(params);
    let mut k: usize = 0;
    while k < oids.len()
        invariant
            k <= oids@.len(),
            oids_of(oids@, view.alt_names),
            view == params_view(*params),
            forall|i: int| 0 <= i < k ==> #[trigger] alt_name_fits(view.alt_names[i]),
        decreases oids@.len() - k,
    {
        if let Some(oid) = &oids[k] {
            if !oid_can_be_written(oid.as_slice()) {
                assert(!alt_name_fits(view.alt_names[k as int]));
                return false;
            }
        }
        assert(alt_name_fits(view.alt_names[k as int]));
        k += 1;
    }
    let forms = constraint_forms(params);
    let mut n: usize = 0;
    while n < forms.len()
        invariant
            n <= forms@.len(),
            constraints_of(forms@, view.constraints),
            view == params_view(*params),
            forall|i: int| 0 <= i < n ==> #[trigger] constraint_fits(view.constraints[i]),
        decreases forms@.len() - n,
    {
        assert(forms@[n as int].is_of(view.constraints[n as int]));
        let ok = match &forms[n] {
            ConstraintForm::Text(text) => is_ascii_text(text.as_str()),
            ConstraintForm::Name(name) => name_can_be_written(name),
            ConstraintForm::Address => true,
        };
        if !ok {
            assert(!constraint_fits(view.constraints[n as int]));
            return false;
        }
        assert(constraint_fits(view.constraints[n as int]));
        n += 1;
    }
    let (from, until) = dates_of(params);
    date_can_be_written(from.0, from.1) && date_can_be_written(until.0, until.1)
}

/// `cert` is a root certificate that `key` has signed for itself.
pub open spec fn is_root(cert: CertificateView, key: KeyView) -> bool {
    &&& cert.subject_key == key.public
    &&& cert.signer == key.public
    &&& cert.issuer == cert.params.subject
}

/// `cert` certifies `key` for `host`, under the authority of `ca` and signed by its key.
pub open spec fn is_leaf(
    ca: CertificateView,
    ca_key: KeyView,
    host: Seq<char>,
    cert: CertificateView,
    key: KeyView,
) -> bool {
    &&& cert.params == leaf_params_view(host)
    &&& cert.subject_key == key.public
    &&& cert.issuer == ca.params.subject
    &&& cert.signer == ca_key.public
    &&& key.p256
    &&& key.pkcs8 is Some
}

/// What is presented for `host` is a single certificate for it, which was issued by the
/// authority, with the private key that belongs to it.
pub open spec fn presents_leaf(
    ca: CertificateView,
    ca_key: KeyView,
    host: Seq<char>,
    shown: CertifiedView,
) -> bool {
    exists|cert: Certificate, key: KeyPair|
        #![trigger is_leaf(ca, ca_key, host, certificate_view(cert), key_view(key))]
        is_leaf(ca, ca_key, host, certificate_view(cert), key_view(key)) && shown.chain
            == seq![certificate_view(cert).der] && Some(shown.key) == key_view(key).pkcs8
}

/// The text is what a `rustls::Error` shows.
pub open spec fn is_rustls_text(text: String) -> bool {
    exists|e: rustls::Error| #[trigger]
        vstd::string::to_string_from_display_ensures::<rustls::Error>(&e, text)
}

/// What can go wrong with a new certificate for `host`: it cannot be made, or its key cannot be
/// used, for a reason that rustls gives. For a host that is not ASCII, it cannot be made.
pub open spec fn is_issue_error(host: Seq<char>, e: CertError) -> bool {
    match e {
        CertError::Rcgen(_) => true,
        CertError::Key(text) => vstd::utf8::is_ascii_chars(host) && is_rustls_text(text),
        CertError::Io(_) => false,
    }
}

/// What becomes of a request for the certificate of `host`: one that was issued before is given
/// out again; otherwise one is issued and kept, or nothing changes.
pub open spec fn leaf_outcome(
    before: Map<Seq<char>, Arc<CertifiedKey>>,
    after: Map<Seq<char>, Arc<CertifiedKey>>,
    host: Seq<char>,
    r: Result<Arc<CertifiedKey>, CertError>,
) -> bool {
    if before.contains_key(host) {
        after == before && r == Ok::<Arc<CertifiedKey>, CertError>(before[host])
    } else {
        match r {
            Ok(leaf) => vstd::utf8::is_ascii_chars(host) && after == before.insert(host, leaf),
            Err(e) => after == before && is_issue_error(host, e),
        }
    }
}

/// The certificate authority: its certificate and key, and what it has issued, by host.
pub struct CertManager {
    ca_cert: Certificate,
    ca_key: KeyPair,
    cache: StringHashMap<Arc<CertifiedKey>>,
}

impl CertManager {
    /// The root certificate.
    pub closed spec fn ca(&self) -> CertificateView {
        certificate_view(self.ca_cert)
    }

    /// The key that certificates are signed with.
    pub closed spec fn key(&self) -> KeyView {
        key_view(self.ca_key)
    }

    /// What has been issued, by host.
    pub closed spec fn issued(&self) -> Map<Seq<char>, Arc<CertifiedKey>> {
        self.cache@
    }

    /// The root certificate is that of the key and can be named in others, and what is kept for a
    /// host has been issued for it.
    pub open spec fn wf(&self) -> bool {
        &&& is_root(self.ca(), self.key())
        &&& encodable(self.ca().params)
        &&& self.key().pkcs8 is Some
        &&& forall|host: Seq<char>| #[trigger]
            self.issued().contains_key(host) ==> presents_leaf(
                self.ca(),
                self.key(),
                host,
                certified_view(*self.issued()[host]),
            )
    }

    /// Every authority is like that.
    #[verifier::type_invariant]
    spec fn valid(self) -> bool {
        self.wf()
    }

    /// The authority of a root certificate and its key, which has issued nothing yet.
    pub fn new(ca_cert: Certificate, ca_key: KeyPair) -> (manager: CertManager)
        requires
            is_root(certificate_view(ca_cert), key_view(ca_key)),
            encodable(certificate_view(ca_cert).params),
            key_view(ca_key).pkcs8 is Some,
        ensures
            manager.wf(),
            manager.ca() == certificate_view(ca_cert),
            manager.key() == key_view(ca_key),
            manager.issued() == Map::<Seq<char>, Arc<CertifiedKey>>::empty(),
    {
        CertManager { ca_cert, ca_key, cache: StringHashMap::new() }
    }

    /// A new root certificate and its key.
    pub fn generate_ca() -> (r: Result<(Certificate, KeyPair), CertError>)
        ensures
            match r {
                Ok((cert, key)) => is_root(certificate_view(cert), key_view(key))
                    && certificate_view(cert).params == root_params() && key_view(key).p256
                    && key_view(key).pkcs8 is Some,
                Err(e) => e is Rcgen,
            },
    {
        let key = match generate_key() {
            Ok(key) => key,
            Err(e) => return Err(CertError::Rcgen(e)),
        };
        let params = ca_params()?;
        proof {
            lemma_own_params_fit(ROOT_NAME@);
        }
        match params.self_signed(&key) {
            Ok(cert) => Ok((cert, key)),
            Err(e) => Err(CertError::Rcgen(e)),
        }
    }

    /// The authority whose root certificate and key were stored as text: the key is the stored
    /// one, and the certificate is made anew for it, with what the stored one says. A certificate
    /// that cannot be written again is refused.
    pub fn load(cert_pem: &str, key_pem: &str) -> (r: Result<CertManager, CertError>)
        ensures
            match r {
                Ok(manager) => manager.wf() && restored_from(manager, cert_pem@, key_pem@)
                    && manager.issued() == Map::<Seq<char>, Arc<CertifiedKey>>::empty(),
                Err(e) => e is Rcgen,
            },
    {
        let key = match KeyPair::from_pem(key_pem) {
            Ok(key) => key,
            Err(e) => return Err(CertError::Rcgen(e)),
        };
        let params = CertManager::stored_params(CertificateParams::from_ca_cert_pem(cert_pem))?;
        let signed = params.self_signed(&key);
        CertManager::restored(signed, key)
    }

    /// The parameters that were read from a stored root certificate, unless none can be written
    /// with them again.
    pub fn stored_params(read: Result<CertificateParams, rcgen::Error>) -> (r: Result<
        CertificateParams,
        CertError,
    >)
        requires
            read matches Ok(params) ==> no_extras(params_view(params)),
        ensures
            match read {
                Ok(params) => if encodable(params_view(params)) {
                    r == Ok::<CertificateParams, CertError>(params)
                } else {
                    r matches Err(e) && e is Rcgen
                },
                Err(e) => r == Err::<CertificateParams, CertError>(CertError::Rcgen(e)),
            },
    {
        match read {
            Ok(params) => if can_encode(&params) {
                Ok(params)
            } else {
                Err(CertError::Rcgen(unreadable_certificate()))
            },
            Err(e) => Err(CertError::Rcgen(e)),
        }
    }

    /// The authority of a root certificate that has been made anew for a stored key.
    pub fn restored(signed: Result<Certificate, rcgen::Error>, key: KeyPair) -> (r: Result<
        CertManager,
        CertError,
    >)
        requires
            signed matches Ok(cert) ==> is_root(certificate_view(cert), key_view(key))
                && encodable(certificate_view(cert).params),
            key_view(key).pkcs8 is Some,
        ensures
            match signed {
                Ok(cert) => r matches Ok(manager) && manager.wf() && manager.ca()
                    == certificate_view(cert) && manager.key() == key_view(key)
                    && manager.issued() == Map::<Seq<char>, Arc<CertifiedKey>>::empty(),
                Err(e) => r matches Err(CertError::Rcgen(given)) && given == e,
            },
    {
        match signed {
            Ok(cert) => Ok(CertManager::new(cert, key)),
            Err(e) => Err(CertError::Rcgen(e)),
        }
    }

    /// The authority that was stored, or, where none was, a new one together with the texts to
    /// store it as.
    pub fn load_or_create(stored: Option<(&str, &str)>) -> (r: Result<
        (CertManager, Option<StoredRoot>),
        CertError,
    >)
        ensures
            match r {
                Ok((manager, to_store)) => {
                    &&& manager.wf()
                    &&& manager.issued() == Map::<Seq<char>, Arc<CertifiedKey>>::empty()
                    &&& match stored {
                        Some((cert_pem, key_pem)) => to_store is None && restored_from(
                            manager,
                            cert_pem@,
                            key_pem@,
                        ),
                        None => to_store matches Some(texts) && stored_as(
                            manager,
                            texts.cert@,
                            texts.key@,
                        ),
                    }
                },
                Err(e) => e is Rcgen,
            },
    {
        if let Some((cert_pem, key_pem)) = stored {
            return match CertManager::load(cert_pem, key_pem) {
                Ok(manager) => Ok((manager, None)),
                Err(e) => Err(e),
            };
        }
        CertManager::founded(CertManager::generate_ca())
    }

    /// The authority of a root that has just been made, together with the texts to store it as.
    pub fn founded(made: Result<(Certificate, KeyPair), CertError>) -> (r: Result<
        (CertManager, Option<StoredRoot>),
        CertError,
    >)
        requires
            made matches Ok((cert, key)) ==> is_root(certificate_view(cert), key_view(key))
                && certificate_view(cert).params == root_params() && key_view(key).p256
                && key_view(key).pkcs8 is Some,
        ensures
            match made {
                Ok((cert, key)) => r matches Ok((manager, Some(texts))) && manager.wf()
                    && manager.ca() == certificate_view(cert) && manager.key() == key_view(key)
                    && manager.issued() == Map::<Seq<char>, Arc<CertifiedKey>>::empty()
                    && stored_as(manager, texts.cert@, texts.key@),
                Err(e) => r == Err::<(CertManager, Option<StoredRoot>), CertError>(e),
            },
    {
        match made {
            Ok((ca_cert, ca_key)) => {
                let texts = StoredRoot { cert: ca_cert.pem(), key: write_key(&ca_key) };
                proof {
                    lemma_own_params_fit(ROOT_NAME@);
                }
                Ok((CertManager::new(ca_cert, ca_key), Some(texts)))
            },
            Err(e) => Err(e),
        }
    }

    /// The root certificate as text.
    pub fn ca_pem(&self) -> (pem: String)
        ensures
            pem@ == certificate_pem(self.ca().der),
    {
        self.ca_cert.pem()
    }

    /// A new key for the certificate of a host.
    pub fn leaf_key_pair() -> (r: Result<KeyPair, CertError>)
        ensures
            match r {
                Ok(key) => key_view(key).p256 && key_view(key).pkcs8 is Some,
                Err(e) => e is Rcgen,
            },
    {
        match generate_key() {
            Ok(key) => Ok(key),
            Err(e) => Err(CertError::Rcgen(e)),
        }
    }

    /// A new certificate for a host, which is not kept.
    pub fn issue(&self, host: &str) -> (r: Result<CertifiedKey, CertError>)
        ensures
            match r {
                Ok(leaf) => vstd::utf8::is_ascii_chars(host@) && presents_leaf(
                    self.ca(),
                    self.key(),
                    host@,
                    certified_view(leaf),
                ),
                Err(e) => is_issue_error(host@, e),
            },
    {
        proof {
            use_type_invariant(self);
        }
        let leaf_key = CertManager::leaf_key_pair()?;
        let params = leaf_params(host)?;
        proof {
            lemma_own_params_fit(host@);
        }
        let signed = match sign_leaf(params, &leaf_key, &self.ca_cert, &self.ca_key) {
            Ok(signed) => signed,
            Err(e) => return Err(CertError::Rcgen(e)),
        };
        assert(is_leaf(
            self.ca(),
            self.key(),
            host@,
            certificate_view(signed),
            key_view(leaf_key),
        ));
        to_rustls(&signed, &leaf_key)
    }

    /// Keeps what has been issued for a host.
    pub fn remember(&mut self, host: &str, issued: Result<CertifiedKey, CertError>) -> (r: Result<
        Arc<CertifiedKey>,
        CertError,
    >)
        requires
            issued matches Ok(leaf) ==> presents_leaf(
                old(self).ca(),
                old(self).key(),
                host@,
                certified_view(leaf),
            ),
        ensures
            final(self).wf(),
            final(self).ca() == old(self).ca(),
            final(self).key() == old(self).key(),
            match issued {
                Ok(leaf) => r matches Ok(kept) && *kept == leaf && final(self).issued() == old(
                    self,
                ).issued().insert(host@, kept),
                Err(e) => r == Err::<Arc<CertifiedKey>, CertError>(e) && final(self).issued()
                    == old(self).issued(),
            },
    {
        proof {
            use_type_invariant(&*self);
        }
        match issued {
            Ok(leaf) => {
                let leaf = Arc::new(leaf);
                let mut cache: StringHashMap<Arc<CertifiedKey>> = StringHashMap::new();
                std::mem::swap(&mut cache, &mut self.cache);
                cache.insert(host.to_owned(), Arc::clone(&leaf));
                assert forall|h: Seq<char>| #[trigger] cache@.contains_key(h) implies presents_leaf(
                    self.ca(),
                    self.key(),
                    h,
                    certified_view(*cache@[h]),
                ) by {
                    if h != host@ {
                        assert(old(self).issued().contains_key(h));
                    }
                }
                self.cache = cache;
                Ok(leaf)
            },
            Err(e) => Err(e),
        }
    }

    /// The certificate for a host: the one that was issued before, or a new one.
    pub fn leaf_for_host(&mut self, host: &str) -> (r: Result<Arc<CertifiedKey>, CertError>)
        ensures
            final(self).wf(),
            final(self).ca() == old(self).ca(),
            final(self).key() == old(self).key(),
            leaf_outcome(old(self).issued(), final(self).issued(), host@, r),
            r matches Ok(leaf) ==> presents_leaf(
                final(self).ca(),
                final(self).key(),
                host@,
                certified_view(*leaf),
            ),
    {
        proof {
            use_type_invariant(&*self);
        }
        if let Some(leaf) = self.cache.get(host) {
            return Ok(Arc::clone(leaf));
        }
        let issued = self.issue(host);
        self.remember(host, issued)
    }

    /// The certificate to present to a client that asks for `server_name`; there is none for one
    /// that names no host.
    pub fn resolve(&mut self, server_name: Option<&str>) -> (r: Option<Arc<CertifiedKey>>)
        ensures
            final(self).wf(),
            final(self).ca() == old(self).ca(),
            final(self).key() == old(self).key(),
            match server_name {
                None => r is None && final(self).issued() == old(self).issued(),
                Some(host) => resolve_outcome(
                    old(self).issued(),
                    final(self).issued(),
                    host@,
                    r,
                ),
            },
            r matches Some(leaf) ==> server_name matches Some(host) && presents_leaf(
                final(self).ca(),
                final(self).key(),
                host@,
                certified_view(*leaf),
            ),
    {
        proof {
            use_type_invariant(&*self);
        }
        match server_name {
            None => None,
            Some(host) => match self.leaf_for_host(host) {
                Ok(leaf) => Some(leaf),
                Err(_) => None,
            },
        }
    }
}

/// What becomes of a client's request for the certificate of `host`: as in `leaf_outcome`, with
/// the reasons left out.
pub open spec fn resolve_outcome(
    before: Map<Seq<char>, Arc<CertifiedKey>>,
    after: Map<Seq<char>, Arc<CertifiedKey>>,
    host: Seq<char>,
    r: Option<Arc<CertifiedKey>>,
) -> bool {
    if before.contains_key(host) {
        after == before && r == Some(before[host])
    } else {
        match r {
            Some(leaf) => vstd::utf8::is_ascii_chars(host) && after == before.insert(host, leaf),
            None => after == before,
        }
    }
}

/// The texts that a root certificate and its key are stored as.
pub struct StoredRoot {
    pub cert: String,
    pub key: String,
}

/// `manager` is a new authority, and `cert` and `key` are its root certificate and its key.
pub open spec fn stored_as(manager: CertManager, cert: Seq<char>, key: Seq<char>) -> bool {
    &&& manager.ca().params == root_params()
    &&& manager.key().p256
    &&& manager.key().pkcs8 is Some
    &&& cert == certificate_pem(manager.ca().der)
    &&& key == key_pem(manager.key().pkcs8->0)
    &&& params_in_pem(cert) == Some(root_params())
    &&& key_in_pem(key) == Some(manager.key())
}

/// `manager` has the key that `key` holds, and a root certificate that says what `cert` says.
pub open spec fn restored_from(manager: CertManager, cert: Seq<char>, key: Seq<char>) -> bool {
    &&& params_in_pem(cert) == Some(manager.ca().params)
    &&& key_in_pem(key) == Some(manager.key())
}

/// A certificate and its key, as a TLS server uses them.
pub fn to_rustls(cert: &Certificate, kp: &KeyPair) -> (r: Result<CertifiedKey, CertError>)
    requires
        key_view(*kp).pkcs8 is Some,
    ensures
        match r {
            Ok(certified) => certified_view(certified) == (CertifiedView {
                chain: seq![certificate_view(*cert).der],
                key: key_view(*kp).pkcs8->0,
            }),
            Err(e) => e matches CertError::Key(text) && is_rustls_text(text),
        },
{
    match certify(cert_der(cert), key_der(kp)) {
        Ok(certified) => Ok(certified),
        Err(e) => Err(CertError::Key(cmd_err(e))),
    }
}

/// The texts that a new authority is stored as can be read: they hold its key, and a certificate
/// that can be written again, so that it is not refused when it is loaded.
pub proof fn law_own_root_is_not_refused(manager: CertManager, cert: Seq<char>, key: Seq<char>)
    requires
        stored_as(manager, cert, key),
    ensures
        params_in_pem(cert) == Some(manager.ca().params),
        encodable(manager.ca().params),
        key_in_pem(key) == Some(manager.key()),
{
    lemma_own_params_fit(ROOT_NAME@);
}

/// An authority that is stored and restored keeps its key and what its root certificate says,
/// so that what the one has issued is trusted under the other.
pub proof fn law_stored_root_is_restored(
    created: CertManager,
    restored: CertManager,
    cert: Seq<char>,
    key: Seq<char>,
)
    requires
        created.wf(),
        restored.wf(),
        stored_as(created, cert, key),
        restored_from(restored, cert, key),
    ensures
        restored.key() == created.key(),
        restored.ca().params == created.ca().params,
        restored.ca().issuer == created.ca().issuer,
        restored.ca().subject_key == created.ca().subject_key,
        forall|host: Seq<char>, shown: CertifiedView|
            #![trigger presents_leaf(created.ca(), created.key(), host, shown)]
            presents_leaf(created.ca(), created.key(), host, shown) ==> presents_leaf(
                restored.ca(),
                restored.key(),
                host,
                shown,
            ),
{
    assert forall|host: Seq<char>, shown: CertifiedView|
        #![trigger presents_leaf(created.ca(), created.key(), host, shown)]
        presents_leaf(created.ca(), created.key(), host, shown) implies presents_leaf(
        restored.ca(),
        restored.key(),
        host,
        shown,
    ) by {
        let (cert, key) = choose|cert: Certificate, key: KeyPair|
            #![trigger is_leaf(
                created.ca(),
                created.key(),
                host,
                certificate_view(cert),
                key_view(key),
            )]
            is_leaf(created.ca(), created.key(), host, certificate_view(cert), key_view(key))
                && shown.chain == seq![certificate_view(cert).der] && Some(shown.key) == key_view(
                key,
            ).pkcs8;
        assert(is_leaf(
            restored.ca(),
            restored.key(),
            host,
            certificate_view(cert),
            key_view(key),
        ));
    }
}

/// The certificate for a host is issued once: who asks for it again gets the same one, and
/// nothing changes.
pub proof fn law_leaf_is_issued_once(
    first: Map<Seq<char>, Arc<CertifiedKey>>,
    second: Map<Seq<char>, Arc<CertifiedKey>>,
    third: Map<Seq<char>, Arc<CertifiedKey>>,
    host: Seq<char>,
    leaf: Arc<CertifiedKey>,
    again: Result<Arc<CertifiedKey>, CertError>,
)
    requires
        leaf_outcome(first, second, host, Ok(leaf)),
        leaf_outcome(second, third, host, again),
    ensures
        again == Ok::<Arc<CertifiedKey>, CertError>(leaf),
        third == second,
{
}

/// What was issued for one host is not affected by a request for another.
pub proof fn law_other_leaves_are_kept(
    before: Map<Seq<char>, Arc<CertifiedKey>>,
    after: Map<Seq<char>, Arc<CertifiedKey>>,
    host: Seq<char>,
    other: Seq<char>,
    r: Result<Arc<CertifiedKey>, CertError>,
)
    requires
        leaf_outcome(before, after, host, r),
        other != host,
    ensures
        after.contains_key(other) == before.contains_key(other),
        after.contains_key(other) ==> after[other] == before[other],
{
}

} // verus!
