//! Laws of certificates: what those say that the library makes, and who vouches for them.

use crate::cert::{
    AltName, CaStatus, CertificateView, CertifiedView, ConstraintView, DateView, ExtendedUse,
    KeyUse, KeyView, NameField, ParamsView, PartKind,
};
use rcgen::{Certificate, KeyPair};
use vstd::prelude::*;

verus! {

/// The name has three parts: the common name, the organization and the country.
pub open spec fn is_name_for(name: crate::cert::NameView, cn: Seq<char>) -> bool {
    &&& name.len() == 3
    &&& name[0].kind == PartKind::Known(NameField::CommonName)
    &&& name[0].text == cn
    &&& name[1].kind == PartKind::Known(NameField::OrganizationName)
    &&& name[1].text == "Steam++ Accelerator"@
    &&& name[2].kind == PartKind::Known(NameField::CountryName)
    &&& name[2].text == "CN"@
    &&& !name[0].printable && !name[1].printable && !name[2].printable
}

/// The parameters are those of a certificate for a host: its subject and the only name that it is
/// for is the host; it is for servers; it signs no other certificates; and it does not restrict
/// its key to any uses, so that the key can sign a handshake.
pub open spec fn is_for_server(params: ParamsView, host: Seq<char>) -> bool {
    &&& is_name_for(params.subject, host)
    &&& params.alt_names.len() == 1
    &&& crate::cert::ip_octets(host) is None ==> params.alt_names[0] == AltName::Dns(host)
    &&& crate::cert::ip_octets(host) matches Some(octets) ==> params.alt_names[0] == AltName::Ip(
        octets,
    )
    &&& params.ca == CaStatus::NoCa
    &&& forall|u: KeyUse| !#[trigger] params.uses.contains(u)
    &&& params.extended_uses == seq![Some(ExtendedUse::ServerAuth)]
    &&& params.constraints.len() == 0
    &&& !params.more
    &&& params.not_before == (DateView { year: 1975, seconds: 157766400 })
    &&& params.not_after == (DateView { year: 4096, seconds: 67090118400 })
}

/// The name of a subject is made of its common name, the organization and the country.
pub proof fn law_subjects(cn: Seq<char>)
    ensures
        is_name_for(crate::cert::subject_for(cn), cn),
{
}

/// The certificate for any host says that it is for that host, as a server, and for nothing else.
pub proof fn law_leaf_certificates(host: Seq<char>)
    ensures
        is_for_server(crate::cert::leaf_params_view(host), host),
{
}

/// The root certificate names the program, and may sign certificates, through any number of
/// others, and revocation lists, and make signatures; it is restricted to no other purpose.
pub proof fn law_root_certificate(u: KeyUse)
    ensures
        ({
            let root = crate::cert::root_params();
            let name = "Steam++ Accelerator Root CA"@;
            &&& is_name_for(root.subject, name)
            &&& root.alt_names.len() == 1
            &&& crate::cert::ip_octets(name) is None ==> root.alt_names[0] == AltName::Dns(name)
            &&& crate::cert::ip_octets(name) matches Some(octets) ==> root.alt_names[0]
                == AltName::Ip(octets)
            &&& root.ca == CaStatus::Unconstrained
            &&& root.uses.contains(u) <==> u == KeyUse::KeyCertSign || u == KeyUse::DigitalSignature
                || u == KeyUse::CrlSign
            &&& root.extended_uses.len() == 0
            &&& root.constraints.len() == 0
            &&& !root.more
            &&& root.not_before == (DateView { year: 1975, seconds: 157766400 })
            &&& root.not_after == (DateView { year: 4096, seconds: 67090118400 })
        }),
{
}

/// What is presented for a host is one certificate and the private key that belongs to it. The
/// certificate says what a certificate for that host says; it is issued under the name of the
/// authority and signed with its key; and the key is a P-256 key of its own.
pub proof fn law_what_is_presented(
    ca: CertificateView,
    ca_key: KeyView,
    host: Seq<char>,
    shown: CertifiedView,
)
    requires
        crate::cert::presents_leaf(ca, ca_key, host, shown),
    ensures
        shown.chain.len() == 1,
        exists|made: Certificate, key: KeyPair|
            {
                &&& (#[trigger] crate::cert::certificate_view(made)).der == shown.chain[0]
                &&& is_for_server(crate::cert::certificate_view(made).params, host)
                &&& crate::cert::certificate_view(made).issuer == ca.params.subject
                &&& crate::cert::certificate_view(made).signer == ca_key.public
                &&& crate::cert::certificate_view(made).subject_key == (#[trigger] crate::cert::key_view(
                    key,
                )).public
                &&& crate::cert::key_view(key).pkcs8 == Some(shown.key)
                &&& crate::cert::key_view(key).p256
            },
{
    let (made, key) = choose|made: Certificate, key: KeyPair|
        #![trigger crate::cert::is_leaf(
            ca,
            ca_key,
            host,
            crate::cert::certificate_view(made),
            crate::cert::key_view(key),
        )]
        crate::cert::is_leaf(ca, ca_key, host, crate::cert::certificate_view(made), crate::cert::key_view(key))
            && shown.chain == seq![crate::cert::certificate_view(made).der] && Some(shown.key)
            == crate::cert::key_view(key).pkcs8;
    assert(crate::cert::certificate_view(made).der == shown.chain[0]);
    assert(crate::cert::key_view(key).pkcs8 == Some(shown.key));
}

/// A root certificate certifies the key that has signed it, under its own name.
pub proof fn law_roots_sign_themselves(root: CertificateView, key: KeyView)
    ensures
        crate::cert::is_root(root, key) <==> root.subject_key == key.public && root.signer == key.public
            && root.issuer == root.params.subject,
{
}

/// What a request for a certificate leads to. A host that has one gets it, and nothing changes. A
/// host that has none gets one only if it is ASCII, and then has that one; or there is an error,
/// and nothing changes.
pub proof fn law_requests_for_leaves(
    before: Map<Seq<char>, std::sync::Arc<rustls::sign::CertifiedKey>>,
    after: Map<Seq<char>, std::sync::Arc<rustls::sign::CertifiedKey>>,
    host: Seq<char>,
    r: Result<std::sync::Arc<rustls::sign::CertifiedKey>, crate::cert::CertError>,
)
    requires
        crate::cert::leaf_outcome(before, after, host, r),
    ensures
        before.contains_key(host) ==> r is Ok && r->Ok_0 == before[host] && after == before,
        !before.contains_key(host) && r is Ok ==> after == before.insert(host, r->Ok_0)
            && vstd::utf8::is_ascii_chars(host),
        r is Err ==> after == before && !before.contains_key(host),
        r is Err ==> r->Err_0 is Rcgen || r->Err_0 is Key,
        !vstd::utf8::is_ascii_chars(host) && !before.contains_key(host) ==> r is Err
            && r->Err_0 is Rcgen,
{
}

/// What a client gets that asks for the certificate of a host. One that was issued before is
/// given out again; a new one is kept, and there is none for a host that is not ASCII; and where
/// there is none, nothing changes.
pub proof fn law_what_clients_get(
    before: Map<Seq<char>, std::sync::Arc<rustls::sign::CertifiedKey>>,
    after: Map<Seq<char>, std::sync::Arc<rustls::sign::CertifiedKey>>,
    host: Seq<char>,
    r: Option<std::sync::Arc<rustls::sign::CertifiedKey>>,
)
    requires
        crate::cert::resolve_outcome(before, after, host, r),
    ensures
        before.contains_key(host) ==> r == Some(before[host]) && after == before,
        !before.contains_key(host) && r is Some ==> after == before.insert(host, r->0)
            && vstd::utf8::is_ascii_chars(host),
        r is None ==> after == before && !before.contains_key(host),
        !vstd::utf8::is_ascii_chars(host) && !before.contains_key(host) ==> r is None,
{
}

/// An authority holds a root certificate that its own key has signed, and every certificate that
/// it keeps for a host is one that it has issued for that host.
pub proof fn law_authorities(manager: crate::cert::CertManager, host: Seq<char>)
    requires
        manager.wf(),
    ensures
        manager.ca().subject_key == manager.key().public,
        manager.ca().signer == manager.key().public,
        manager.ca().issuer == manager.ca().params.subject,
        manager.key().pkcs8 is Some,
        crate::cert::encodable(manager.ca().params),
        manager.issued().contains_key(host) ==> crate::cert::presents_leaf(
            manager.ca(),
            manager.key(),
            host,
            crate::cert::certified_view(*manager.issued()[host]),
        ),
{
}

/// A new authority is stored as the texts of its root certificate and of its private key, which
/// hold the same certificate parameters and the same key.
pub proof fn law_stored_texts(
    manager: crate::cert::CertManager,
    written: Seq<char>,
    key: Seq<char>,
)
    requires
        crate::cert::stored_as(manager, written, key),
    ensures
        manager.ca().params == crate::cert::root_params(),
        manager.key().p256,
        manager.key().pkcs8 is Some,
        written == crate::cert::certificate_pem(manager.ca().der),
        key == crate::cert::key_pem(manager.key().pkcs8->0),
        crate::cert::params_in_pem(written) == Some(manager.ca().params),
        crate::cert::key_in_pem(key) == Some(manager.key()),
{
}

/// An authority that is restored has the key that was stored, and a root certificate that says
/// what the stored one says.
pub proof fn law_restored_texts(
    manager: crate::cert::CertManager,
    written: Seq<char>,
    key: Seq<char>,
)
    requires
        crate::cert::restored_from(manager, written, key),
    ensures
        crate::cert::params_in_pem(written) == Some(manager.ca().params),
        crate::cert::key_in_pem(key) == Some(manager.key()),
{
}

/// The object identifier has the components that its encoding allows.
pub open spec fn oid_is_possible(oid: Seq<u64>) -> bool {
    oid.len() >= 2 && (oid[0] == 0 || oid[0] == 1 || oid[0] == 2) && (oid[0] == 2 ==> oid[1]
        < 0xffff_ffff_ffff_ffaf) && (oid[0] != 2 ==> oid[1] < 40)
}

/// A name can be written if each of its parts can: its object identifier has the components that
/// the encoding allows, and no printable text holds a question mark.
pub proof fn law_names_that_can_be_written(name: crate::cert::NameView)
    ensures
        crate::cert::name_fits(name) <==> forall|i: int|
            0 <= i < name.len() ==> {
                &&& (#[trigger] name[i]).kind matches PartKind::Custom(oid) ==> oid_is_possible(oid)
                &&& name[i].printable ==> !name[i].text.contains('?')
            },
{
    assert(forall|oid: Seq<u64>| crate::cert::oid_fits(oid) == oid_is_possible(oid));
    if crate::cert::name_fits(name) {
        assert forall|i: int| 0 <= i < name.len() implies crate::cert::part_fits(
            #[trigger] name[i],
        ) by {}
    }
}

/// What can be written: exactly what the encoding has room for.
pub proof fn law_what_can_be_written(params: ParamsView)
    ensures
        crate::cert::encodable(params) <==> {
            &&& forall|i: int|
                0 <= i < params.subject.len() ==> {
                    &&& (#[trigger] params.subject[i]).kind matches PartKind::Custom(oid)
                        ==> oid_is_possible(oid)
                    &&& params.subject[i].printable ==> !params.subject[i].text.contains('?')
                }
            &&& forall|i: int|
                0 <= i < params.alt_names.len() ==> (#[trigger] params.alt_names[i] matches AltName::Other(
                    oid,
                    _,
                ) ==> oid_is_possible(oid))
            &&& forall|i: int|
                0 <= i < params.constraints.len() ==> (match #[trigger] params.constraints[i] {
                    ConstraintView::Text(text) => vstd::utf8::is_ascii_chars(text),
                    ConstraintView::Name(name) => crate::cert::name_fits(name),
                    ConstraintView::Address => true,
                })
            &&& date_is_possible(params.not_before)
            &&& date_is_possible(params.not_after)
            &&& !params.more
            &&& forall|i: int|
                0 <= i < params.extended_uses.len() ==> #[trigger] params.extended_uses[i] is Some
        },
{
    assert(forall|oid: Seq<u64>| crate::cert::oid_fits(oid) == oid_is_possible(oid));
    if crate::cert::encodable(params) {
        assert forall|i: int| 0 <= i < params.subject.len() implies crate::cert::part_fits(
            #[trigger] params.subject[i],
        ) by {}
        assert forall|i: int| 0 <= i < params.alt_names.len() implies crate::cert::alt_name_fits(
            #[trigger] params.alt_names[i],
        ) by {}
        assert forall|i: int| 0 <= i < params.constraints.len() implies crate::cert::constraint_fits(
            #[trigger] params.constraints[i],
        ) by {}
    }
}

/// A date from 1950 to 2049 on its own clock is, in universal time, too; any other is one of the
/// years from 0 to 9999.
pub open spec fn date_is_possible(date: DateView) -> bool {
    if 1950 <= date.year <= 2049 {
        -631152000 <= date.seconds <= 2524607999
    } else {
        -62167219200 <= date.seconds <= 253402300799
    }
}

} // verus!
