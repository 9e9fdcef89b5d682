//! Certificates
//!
//! The proxy presents its clients with certificates that it issues itself,
//! under a certificate authority of its own. This module holds what those
//! certificates are to say: for how long they are valid, whom they name and
//! what their keys may be used for. A [`CertificateProfile`] states it in
//! plain values; turning a profile into a signed certificate is the work of
//! an X.509 library. Certificates and keys are kept as PEM text.
//!
//! Times are seconds since the start of 1970, UTC.

use vstd::prelude::*;
use vstd::string::*;

verus! {

/// The seconds of a day.
pub const SECONDS_PER_DAY: i64 = 86_400;

/// The days for which the certificate of the authority is valid: three
/// years.
pub const AUTHORITY_DAYS: u32 = 365 * 3;

/// The days for which a certificate for a host is valid.
pub const LEAF_DAYS: u32 = 30;

/// The start of the day of `now`.
pub open spec fn midnight(now: int) -> int {
    now - now % 86_400
}

/// The time from `not_before` to `not_after`, if both can be held.
pub open spec fn window(not_before: int, not_after: int) -> Option<Validity> {
    if i64::MIN <= not_before <= i64::MAX && i64::MIN <= not_after <= i64::MAX {
        Some(Validity { not_before: not_before as i64, not_after: not_after as i64 })
    } else {
        None
    }
}

/// The time for which a certificate is valid.
#[derive(Clone, Copy, Debug, PartialEq, Eq, Structural)]
pub struct Validity {
    /// The first second of the time.
    pub not_before: i64,
    /// The end of the time.
    pub not_after: i64,
}

impl Validity {
    /// `days` days from the start of the day of `now`, if the times can be
    /// held.
    pub open spec fn days_from_midnight(now: int, days: int) -> Option<Validity> {
        window(midnight(now), midnight(now) + days * 86_400)
    }

    /// From a day before `now` to `days` days after `now`, if the times can
    /// be held.
    pub open spec fn days_from_yesterday(now: int, days: int) -> Option<Validity> {
        window(now - 86_400, now + days * 86_400)
    }

    /// `days` days from the start of the day of `now`; `None` if the times
    /// cannot be held.
    pub fn from_midnight(now: i64, days: u32) -> (r: Option<Validity>)
        ensures
            r == Validity::days_from_midnight(now as int, days as int),
    {
        let into_day = match now.checked_rem_euclid(SECONDS_PER_DAY) {
            Some(seconds) => seconds,
            None => {
                return None;
            },
        };
        let length: i64 = (days as i64) * SECONDS_PER_DAY;
        match now.checked_sub(into_day) {
            None => None,
            Some(not_before) => match not_before.checked_add(length) {
                None => None,
                Some(not_after) => Some(Validity { not_before, not_after }),
            },
        }
    }

    /// From a day before `now` to `days` days after `now`; `None` if the
    /// times cannot be held.
    pub fn from_yesterday(now: i64, days: u32) -> (r: Option<Validity>)
        ensures
            r == Validity::days_from_yesterday(now as int, days as int),
    {
        let length: i64 = (days as i64) * SECONDS_PER_DAY;
        match now.checked_sub(SECONDS_PER_DAY) {
            None => None,
            Some(not_before) => match now.checked_add(length) {
                None => None,
                Some(not_after) => Some(Validity { not_before, not_after }),
            },
        }
    }
}

/// Whether a certificate may sign other certificates.
#[derive(Clone, Copy, Debug, PartialEq, Eq, Structural)]
pub enum IsCa {
    /// The certificate says that it is no authority.
    ExplicitNoCa,
    /// The certificate is an authority, with no limit on the length of the
    /// chains below it.
    Unconstrained,
}

/// What the key of a certificate may be used for.
#[derive(Clone, Copy, Debug, PartialEq, Eq, Structural)]
pub enum KeyUsagePurpose {
    DigitalSignature,
    KeyCertSign,
    CrlSign,
}

/// What else the key of a certificate may be used for.
#[derive(Clone, Copy, Debug, PartialEq, Eq, Structural)]
pub enum ExtendedKeyUsagePurpose {
    ServerAuth,
    ClientAuth,
}

/// The attributes of a distinguished name.
#[derive(Clone, Copy, Debug, PartialEq, Eq, Structural)]
pub enum DnType {
    CountryName,
    OrganizationName,
    OrganizationalUnitName,
    CommonName,
}

/// A subject alternative name. An address stands here as its text.
#[derive(Debug, PartialEq, Eq)]
pub enum SanType {
    /// An e-mail address.
    Rfc822Name(String),
    /// The name of a host.
    DnsName(String),
    /// A URI.
    URI(String),
    /// An IP address.
    IpAddress(String),
    /// A name of another kind, told by its object identifier.
    OtherName(Vec<u64>, String),
}

impl SanType {
    /// The text of the name.
    pub open spec fn text(self) -> Seq<char> {
        match self {
            SanType::Rfc822Name(text) => text@,
            SanType::DnsName(text) => text@,
            SanType::URI(text) => text@,
            SanType::IpAddress(text) => text@,
            SanType::OtherName(_, text) => text@,
        }
    }

    /// The common name of a certificate that names this subject first: the
    /// text of the name.
    pub fn common_name(&self) -> (r: String)
        ensures
            r@ == self.text(),
    {
        match self {
            SanType::Rfc822Name(text) => text.clone(),
            SanType::DnsName(text) => text.clone(),
            SanType::URI(text) => text.clone(),
            SanType::IpAddress(text) => text.clone(),
            SanType::OtherName(_, text) => text.clone(),
        }
    }
}

/// A distinguished name as a contract speaks of it: the attributes in
/// order, each with its text.
pub open spec fn name_view(name: Seq<(DnType, String)>) -> Seq<(DnType, Seq<char>)> {
    Seq::new(name.len(), |i: int| (name[i].0, name[i].1@))
}

/// The distinguished name of the proxy's own authority. The common name
/// stands first.
pub open spec fn authority_name() -> Seq<(DnType, Seq<char>)> {
    seq![
        (DnType::CommonName, "Decryption CA"@),
        (DnType::CountryName, "US"@),
        (DnType::OrganizationName, "Mouse Widgits LLC"@),
        (DnType::OrganizationalUnitName, "Network Services"@),
    ]
}

/// What a certificate is to say.
pub struct CertificateProfile {
    /// For how long the certificate is valid.
    pub validity: Validity,
    /// Whether the certificate may sign other certificates.
    pub is_ca: IsCa,
    /// What the key may be used for.
    pub key_usages: Vec<KeyUsagePurpose>,
    /// What else the key may be used for.
    pub extended_key_usages: Vec<ExtendedKeyUsagePurpose>,
    /// The name of the subject.
    pub distinguished_name: Vec<(DnType, String)>,
    /// The other names of the subject.
    pub subject_alt_names: Vec<SanType>,
}

impl CertificateProfile {
    /// What the certificate of the proxy's own authority says, if it is
    /// made at `now`: it is valid for three years from the start of the
    /// day, it is an authority, and its key signs certificates and
    /// revocation lists. `None` if the times cannot be held.
    pub fn authority(now: i64) -> (r: Option<Self>)
        ensures
            r is Some <==> Validity::days_from_midnight(now as int, AUTHORITY_DAYS as int) is Some,
            r is Some ==> {
                let profile = r->Some_0;
                &&& Some(profile.validity) == Validity::days_from_midnight(
                    now as int,
                    AUTHORITY_DAYS as int,
                )
                &&& profile.is_ca == IsCa::Unconstrained
                &&& profile.key_usages@ == seq![
                    KeyUsagePurpose::DigitalSignature,
                    KeyUsagePurpose::KeyCertSign,
                    KeyUsagePurpose::CrlSign,
                ]
                &&& profile.extended_key_usages@ == Seq::<ExtendedKeyUsagePurpose>::empty()
                &&& name_view(profile.distinguished_name@) == authority_name()
                &&& profile.subject_alt_names@ == Seq::<SanType>::empty()
            },
    {
        let validity = match Validity::from_midnight(now, AUTHORITY_DAYS) {
            Some(validity) => validity,
            None => {
                return None;
            },
        };
        let mut key_usages = Vec::new();
        key_usages.push(KeyUsagePurpose::DigitalSignature);
        key_usages.push(KeyUsagePurpose::KeyCertSign);
        key_usages.push(KeyUsagePurpose::CrlSign);
        let mut distinguished_name = Vec::new();
        distinguished_name.push((DnType::CommonName, "Decryption CA".to_owned()));
        distinguished_name.push((DnType::CountryName, "US".to_owned()));
        distinguished_name.push((DnType::OrganizationName, "Mouse Widgits LLC".to_owned()));
        distinguished_name.push((DnType::OrganizationalUnitName, "Network Services".to_owned()));
        let profile = CertificateProfile {
            validity,
            is_ca: IsCa::Unconstrained,
            key_usages,
            extended_key_usages: Vec::new(),
            distinguished_name,
            subject_alt_names: Vec::new(),
        };
        assert(name_view(profile.distinguished_name@) =~= authority_name());
        assert(profile.key_usages@ =~= seq![
            KeyUsagePurpose::DigitalSignature,
            KeyUsagePurpose::KeyCertSign,
            KeyUsagePurpose::CrlSign,
        ]);
        Some(profile)
    }

    /// What a certificate for `names` says, if it is made at `now`: it is
    /// valid for thirty days from the start of the day, its common name is
    /// the first of the names, it is no authority, and its key signs, for a
    /// server or for a client. `None` if the times cannot be held.
    pub fn leaf(names: Vec<SanType>, now: i64) -> (r: Option<Self>)
        requires
            names@.len() > 0,
        ensures
            r is Some <==> Validity::days_from_midnight(now as int, LEAF_DAYS as int) is Some,
            r is Some ==> {
                let profile = r->Some_0;
                &&& Some(profile.validity) == Validity::days_from_midnight(now as int, LEAF_DAYS as int)
                &&& profile.is_ca == IsCa::ExplicitNoCa
                &&& profile.key_usages@ == seq![KeyUsagePurpose::DigitalSignature]
                &&& profile.extended_key_usages@ == seq![
                    ExtendedKeyUsagePurpose::ServerAuth,
                    ExtendedKeyUsagePurpose::ClientAuth,
                ]
                &&& name_view(profile.distinguished_name@) == seq![
                    (DnType::CommonName, names@[0].text()),
                ]
                &&& profile.subject_alt_names == names
            },
    {
        let validity = match Validity::from_midnight(now, LEAF_DAYS) {
            Some(validity) => validity,
            None => {
                return None;
            },
        };
        let common_name = names[0].common_name();
        let mut distinguished_name = Vec::new();
        distinguished_name.push((DnType::CommonName, common_name));
        let mut key_usages = Vec::new();
        key_usages.push(KeyUsagePurpose::DigitalSignature);
        let mut extended_key_usages = Vec::new();
        extended_key_usages.push(ExtendedKeyUsagePurpose::ServerAuth);
        extended_key_usages.push(ExtendedKeyUsagePurpose::ClientAuth);
        let profile = CertificateProfile {
            validity,
            is_ca: IsCa::ExplicitNoCa,
            key_usages,
            extended_key_usages,
            distinguished_name,
            subject_alt_names: names,
        };
        assert(name_view(profile.distinguished_name@) =~= seq![
            (DnType::CommonName, names@[0].text()),
        ]);
        assert(profile.key_usages@ =~= seq![KeyUsagePurpose::DigitalSignature]);
        assert(profile.extended_key_usages@ =~= seq![
            ExtendedKeyUsagePurpose::ServerAuth,
            ExtendedKeyUsagePurpose::ClientAuth,
        ]);
        Some(profile)
    }
}

/// A certificate with its key, both in DER.
pub struct CertificateWithKey {
    /// Certificate chain, with end-entity certificate first
    pub certificate_chain: Vec<Vec<u8>>,
    /// Private key
    pub key: Vec<u8>,
}

impl CertificateWithKey {
    /// The certificate `leaf`, signed by the authority whose certificate is
    /// `authority`, with the key of `leaf`.
    pub fn new(leaf: Vec<u8>, authority: Vec<u8>, key: Vec<u8>) -> (r: Self)
        ensures
            r.certificate_chain@ == seq![leaf, authority],
            r.key == key,
    {
        let mut certificate_chain = Vec::new();
        certificate_chain.push(leaf);
        certificate_chain.push(authority);
        assert(certificate_chain@ =~= seq![leaf, authority]);
        CertificateWithKey { certificate_chain, key }
    }
}

/// The PEM text of one block with the label `tag` around `contents`.
pub uninterp spec fn pem_encoding(tag: Seq<char>, contents: Seq<u8>) -> Seq<char>;

/// Calls `pem::encode` on a `pem::Pem` made of `tag` and `contents`, with
/// no headers. The text that comes back is taken on trust to depend on the
/// label and the contents alone: the encoder reads nothing else, and breaks
/// its lines the same way on every system.
#[verifier::external_body]
fn pem_encode(tag: &str, contents: Vec<u8>) -> (text: String)
    ensures
        text@ == pem_encoding(tag@, contents@),
{
    pem::encode(&pem::Pem::new(tag, contents))
}

/// The PEM text of a certificate in DER.
pub fn certificate_pem(der: Vec<u8>) -> (text: String)
    ensures
        text@ == pem_encoding("CERTIFICATE"@, der@),
{
    pem_encode("CERTIFICATE", der)
}

/// The PEM text of a private key in DER.
pub fn private_key_pem(der: Vec<u8>) -> (text: String)
    ensures
        text@ == pem_encoding("PRIVATE KEY"@, der@),
{
    pem_encode("PRIVATE KEY", der)
}

} // verus!
