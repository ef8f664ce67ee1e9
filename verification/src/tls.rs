//! Certificates: which of them a server can offer, and what is said of the rest.
//!
//! Each site offers one certificate under each of its names, so that a client is
//! only ever offered one for a configured host.
use vstd::prelude::*;
use vstd::string::StringExecFns;

use rustls::crypto::ring::sign::any_supported_type;
use rustls::pki_types::{
    CertificateDer, PrivateKeyDer, PrivatePkcs1KeyDer, PrivatePkcs8KeyDer, PrivateSec1KeyDer,
};
use rustls::server::ResolvesServerCertUsingSni;
use rustls::sign::CertifiedKey;
use rustls::{Error, InconsistentKeys};

use crate::config::{comma_joined, join_hosts, SiteConfig, SiteModel};
use crate::text::lowered;

verus! {

/// How a private key is encoded.
#[derive(Clone, Copy, PartialEq, Eq, Debug, Structural)]
pub enum KeyForm {
    Pkcs1,
    Sec1,
    Pkcs8,
}

/// A private key.
pub struct KeyDer {
    pub form: KeyForm,
    pub der: Vec<u8>,
}

/// The bytes of a certificate chain.
pub open spec fn chain_bytes(v: Seq<Vec<u8>>) -> Seq<Seq<u8>> {
    Seq::new(v.len(), |i: int| v[i]@)
}

// ----------------------------------------------------------------- PEM files

/// The certificates that `rustls_pemfile::certs` finds in a PEM file, or what it
/// says is wrong with the file.
pub uninterp spec fn certs_in(pem: Seq<u8>) -> Result<Seq<Seq<u8>>, Seq<char>>;

/// The first private key that `rustls_pemfile::private_key` finds in a PEM file,
/// if any, or what it says is wrong with the file.
pub uninterp spec fn key_in(pem: Seq<u8>) -> Result<Option<(KeyForm, Seq<u8>)>, Seq<char>>;

/// `rustls_pemfile::certs` over a slice, which cannot fail to be read: the
/// certificates in the order of the file, or the first thing that is wrong with
/// it. Both follow from the bytes.
#[verifier::external_body]
fn pem_certs(pem: &[u8]) -> (r: Result<Vec<Vec<u8>>, String>)
    ensures
        found_certs(r) == certs_in(pem@),
{
    let mut rd = pem;
    rustls_pemfile::certs(&mut rd)
        .map(|c| c.map(|c| c.as_ref().to_vec()).map_err(|e| e.to_string()))
        .collect()
}

/// `rustls_pemfile::private_key` over a slice: the first private key in the file,
/// in the encoding it has there, or what is wrong with the file. Both follow from
/// the bytes.
#[verifier::external_body]
fn pem_key(pem: &[u8]) -> (r: Result<Option<KeyDer>, String>)
    ensures
        found_key(r) == key_in(pem@),
{
    let mut rd = pem;
    let found = rustls_pemfile::private_key(&mut rd).map_err(|e| e.to_string())?;
    Ok(found.map(|key| match key {
        PrivateKeyDer::Pkcs1(k) => KeyDer { form: KeyForm::Pkcs1, der: k.secret_pkcs1_der().to_vec() },
        PrivateKeyDer::Sec1(k) => KeyDer { form: KeyForm::Sec1, der: k.secret_sec1_der().to_vec() },
        PrivateKeyDer::Pkcs8(k) => KeyDer { form: KeyForm::Pkcs8, der: k.secret_pkcs8_der().to_vec() },
        _ => KeyDer { form: KeyForm::Pkcs8, der: key.secret_der().to_vec() },
    }))
}

/// What is wrong with what was found in a certificate file, if anything.
pub open spec fn certs_refused(s: SiteModel, found: Result<Seq<Seq<u8>>, Seq<char>>) -> Option<
    Seq<char>,
> {
    let label = comma_joined(s.hosts);
    match found {
        Err(e) => Some(label + ": cannot parse cert: "@ + e),
        Ok(v) => if v.len() == 0 {
            Some(label + ": no certificates in "@ + s.cert)
        } else {
            None
        },
    }
}

/// What is wrong with what was found in a key file, if anything.
pub open spec fn key_refused(
    s: SiteModel,
    found: Result<Option<(KeyForm, Seq<u8>)>, Seq<char>>,
) -> Option<Seq<char>> {
    let label = comma_joined(s.hosts);
    match found {
        Err(e) => Some(label + ": cannot read key: "@ + e),
        Ok(None) => Some(label + ": no private key in "@ + s.key),
        Ok(Some(_)) => None,
    }
}

/// A chain that was read, or what was said instead.
pub open spec fn found_certs(r: Result<Vec<Vec<u8>>, String>) -> Result<
    Seq<Seq<u8>>,
    Seq<char>,
> {
    match r {
        Ok(v) => Ok(chain_bytes(v@)),
        Err(e) => Err(e@),
    }
}

/// A key that was read, if there was one, or what was said instead.
pub open spec fn found_key(r: Result<Option<KeyDer>, String>) -> Result<
    Option<(KeyForm, Seq<u8>)>,
    Seq<char>,
> {
    match r {
        Ok(Some(k)) => Ok(Some((k.form, k.der@))),
        Ok(None) => Ok(None),
        Err(e) => Err(e@),
    }
}

/// Says something of a site, with a word behind it.
fn said_of(s: &SiteConfig, what: &str, word: &str) -> (r: String)
    ensures
        r@ == comma_joined(s@.hosts) + what@ + word@,
{
    let mut m = join_hosts(&s.hosts);
    m.append(what);
    m.append(word);
    m
}

/// Says that a file of a site cannot be opened.
pub fn cannot_open(s: &SiteConfig, what: &str, path: &str, why: &str) -> (r: String)
    ensures
        r@ == comma_joined(s@.hosts) + ": cannot open "@ + what@ + " "@ + path@ + ": "@ + why@,
{
    let mut m = said_of(s, ": cannot open ", what);
    m.append(" ");
    m.append(path);
    m.append(": ");
    m.append(why);
    m
}

/// Takes a site's certificates as they were found in its file.
pub fn take_certs(s: &SiteConfig, found: Result<Vec<Vec<u8>>, String>) -> (r: Result<
    Vec<Vec<u8>>,
    String,
>)
    ensures
        match r {
            Ok(v) => certs_refused(s@, found_certs(found)) is None && found == Ok::<
                Vec<Vec<u8>>,
                String,
            >(v),
            Err(e) => certs_refused(s@, found_certs(found)) == Some(e@),
        },
{
    match found {
        Err(e) => Err(said_of(s, ": cannot parse cert: ", e.as_str())),
        Ok(v) => if v.len() == 0 {
            Err(said_of(s, ": no certificates in ", s.cert.as_str()))
        } else {
            Ok(v)
        },
    }
}

/// Takes a site's key as it was found in its file.
pub fn take_key(s: &SiteConfig, found: Result<Option<KeyDer>, String>) -> (r: Result<
    KeyDer,
    String,
>)
    ensures
        match r {
            Ok(k) => found == Ok::<Option<KeyDer>, String>(Some(k)),
            Err(e) => key_refused(s@, found_key(found)) == Some(e@),
        },
{
    match found {
        Err(e) => Err(said_of(s, ": cannot read key: ", e.as_str())),
        Ok(None) => Err(said_of(s, ": no private key in ", s.key.as_str())),
        Ok(Some(k)) => Ok(k),
    }
}

/// Reads a site's certificate file.
pub fn load_certs(s: &SiteConfig, pem: &[u8]) -> (r: Result<Vec<Vec<u8>>, String>)
    ensures
        match r {
            Ok(v) => certs_refused(s@, certs_in(pem@)) is None && certs_in(pem@) == found_certs(r),
            Err(e) => certs_refused(s@, certs_in(pem@)) == Some(e@),
        },
{
    take_certs(s, pem_certs(pem))
}

/// Reads a site's key file.
pub fn load_key(s: &SiteConfig, pem: &[u8]) -> (r: Result<KeyDer, String>)
    ensures
        match r {
            Ok(k) => key_refused(s@, key_in(pem@)) is None && key_in(pem@) == Ok::<
                Option<(KeyForm, Seq<u8>)>,
                Seq<char>,
            >(Some((k.form, k.der@))),
            Err(e) => key_refused(s@, key_in(pem@)) == Some(e@),
        },
{
    take_key(s, pem_key(pem))
}

// ---------------------------------------------------------------------- pairs

/// How a key goes with a certificate.
pub enum Pairing {
    /// The key is of no type that is spoken.
    Unsupported,
    /// They are two halves of one pair.
    Match,
    /// The key does not show a public half that could be compared. That is no
    /// evidence of a mismatch.
    Unknown,
    /// They are not, or the certificate cannot be read.
    Mismatch(String),
}

/// What a [`Pairing`] says.
#[verifier::ext_equal]
pub enum PairingModel {
    Unsupported,
    Match,
    Unknown,
    Mismatch(Seq<char>),
}

impl View for Pairing {
    type V = PairingModel;

    open spec fn view(&self) -> PairingModel {
        match self {
            Pairing::Unsupported => PairingModel::Unsupported,
            Pairing::Match => PairingModel::Match,
            Pairing::Unknown => PairingModel::Unknown,
            Pairing::Mismatch(e) => PairingModel::Mismatch(e@),
        }
    }
}

/// What `rustls::sign::CertifiedKey::keys_match` says of a chain and a key, where
/// `any_supported_type` can load the key.
pub uninterp spec fn pairing_of(chain: Seq<Seq<u8>>, form: KeyForm, der: Seq<u8>) -> PairingModel;

/// `rustls::crypto::ring::sign::any_supported_type`, then `keys_match` on a
/// `rustls::sign::CertifiedKey` of the chain and the key: how they go together.
/// Loading an elliptic-curve key draws on the system's source of randomness, and
/// where that fails the key counts as unsupported; otherwise the answer follows
/// from the chain and the key. A PKCS#1 key is tried as an RSA key only, which
/// draws no randomness.
#[verifier::external_body]
fn pair_keys(chain: &Vec<Vec<u8>>, key: &KeyDer) -> (r: Pairing)
    ensures
        r is Unsupported || r@ == pairing_of(chain_bytes(chain@), key.form, key.der@),
        key.form == KeyForm::Pkcs1 ==> r@ == pairing_of(
            chain_bytes(chain@),
            key.form,
            key.der@,
        ),
{
    let der: PrivateKeyDer<'static> = match key.form {
        KeyForm::Pkcs1 => PrivatePkcs1KeyDer::from(key.der.clone()).into(),
        KeyForm::Sec1 => PrivateSec1KeyDer::from(key.der.clone()).into(),
        KeyForm::Pkcs8 => PrivatePkcs8KeyDer::from(key.der.clone()).into(),
    };
    let certs = chain.iter().map(|c| CertificateDer::from(c.clone())).collect();
    match any_supported_type(&der) {
        Err(_) => Pairing::Unsupported,
        Ok(k) => match CertifiedKey::new(certs, k).keys_match() {
            Ok(()) => Pairing::Match,
            Err(Error::InconsistentKeys(InconsistentKeys::Unknown)) => Pairing::Unknown,
            Err(e) => Pairing::Mismatch(e.to_string()),
        },
    }
}

/// What is said of a key that is not spoken.
pub open spec fn unsupported_text(s: SiteModel) -> Seq<char> {
    comma_joined(s.hosts) + ": unsupported key type"@
}

/// What is wrong with a pair, if anything. Nothing else on the way catches a key
/// that belongs to another certificate: both files parse, and every handshake
/// would then fail.
pub open spec fn pair_refused(s: SiteModel, p: PairingModel) -> Option<Seq<char>> {
    match p {
        PairingModel::Unsupported => Some(unsupported_text(s)),
        PairingModel::Mismatch(e) => Some(
            comma_joined(s.hosts) + ": key "@ + s.key + " does not match cert "@ + s.cert + ": "@ + e,
        ),
        _ => None,
    }
}

/// Says that a site's key is not spoken.
fn unsupported(s: &SiteConfig) -> (r: String)
    ensures
        r@ == unsupported_text(s@),
{
    let mut m = join_hosts(&s.hosts);
    m.append(": unsupported key type");
    m
}

/// Rejects a certificate and a key that are not two halves of one pair.
pub fn check_pair(s: &SiteConfig, pairing: &Pairing) -> (r: Result<(), String>)
    ensures
        match r {
            Ok(()) => pair_refused(s@, pairing@) is None,
            Err(e) => pair_refused(s@, pairing@) == Some(e@),
        },
{
    match pairing {
        Pairing::Unsupported => Err(unsupported(s)),
        Pairing::Mismatch(e) => {
            let mut m = said_of(s, ": key ", s.key.as_str());
            m.append(" does not match cert ");
            m.append(s.cert.as_str());
            m.append(": ");
            m.append(e.as_str());
            Err(m)
        },
        _ => Ok(()),
    }
}

// ---------------------------------------------------------------------- names

/// The resolver that picks a certificate by the name a client asks for.
#[verifier::external_type_specification]
#[verifier::external_body]
pub struct ExResolvesServerCertUsingSni(ResolvesServerCertUsingSni);

/// What a resolver holds: names, each with the chain and the key it is offered
/// with.
pub uninterp spec fn offered(r: ResolvesServerCertUsingSni) -> Map<
    Seq<char>,
    (Seq<Seq<u8>>, KeyForm, Seq<u8>),
>;

/// Why `rustls::server::ResolvesServerCertUsingSni::add` refuses a chain for a
/// name, if it does.
pub uninterp spec fn name_refusal(chain: Seq<Seq<u8>>, host: Seq<char>) -> Option<Seq<char>>;

/// `rustls::server::ResolvesServerCertUsingSni::new`: a resolver that offers
/// nothing.
#[verifier::external_body]
fn new_resolver() -> (r: ResolvesServerCertUsingSni)
    ensures
        offered(r).dom() == Set::<Seq<char>>::empty(),
{
    ResolvesServerCertUsingSni::new()
}

/// What came of offering a certificate under a name.
pub enum Cover {
    /// The key could not be loaded.
    NoKey,
    Covered,
    /// The certificate is not for this name.
    Refused(String),
}

/// `rustls::server::ResolvesServerCertUsingSni::add` with a
/// `rustls::sign::CertifiedKey` of the chain and the key. It refuses what is no
/// DNS name and a chain whose first certificate does not name the host, and then
/// changes nothing; otherwise the pair is offered under the name in lower case,
/// in place of any other. Why it refuses follows from the chain and the name.
/// Loading the key may fail as in [`pair_keys`], and nothing changes then; of a
/// PKCS#1 key that is what the pairing says, too.
#[verifier::external_body]
fn add_name(
    resolver: &mut ResolvesServerCertUsingSni,
    host: &str,
    chain: &Vec<Vec<u8>>,
    key: &KeyDer,
) -> (r: Cover)
    ensures
        match r {
            Cover::NoKey => offered(*final(resolver)) == offered(*old(resolver)),
            Cover::Covered => name_refusal(chain_bytes(chain@), host@) is None && offered(
                *final(resolver),
            ) == offered(*old(resolver)).insert(
                lowered(host@),
                (chain_bytes(chain@), key.form, key.der@),
            ),
            Cover::Refused(e) => name_refusal(chain_bytes(chain@), host@) == Some(e@) && offered(
                *final(resolver),
            ) == offered(*old(resolver)),
        },
        r is NoKey && key.form == KeyForm::Pkcs1 ==> pairing_of(
            chain_bytes(chain@),
            key.form,
            key.der@,
        ) is Unsupported,
{
    let der: PrivateKeyDer<'static> = match key.form {
        KeyForm::Pkcs1 => PrivatePkcs1KeyDer::from(key.der.clone()).into(),
        KeyForm::Sec1 => PrivateSec1KeyDer::from(key.der.clone()).into(),
        KeyForm::Pkcs8 => PrivatePkcs8KeyDer::from(key.der.clone()).into(),
    };
    let certs = chain.iter().map(|c| CertificateDer::from(c.clone())).collect();
    match any_supported_type(&der) {
        Err(_) => Cover::NoKey,
        Ok(k) => match resolver.add(host, CertifiedKey::new(certs, k)) {
            Ok(()) => Cover::Covered,
            Err(e) => Cover::Refused(e.to_string()),
        },
    }
}

/// What is said where a certificate does not cover a name.
pub open spec fn uncovered_text(s: SiteModel, host: Seq<char>, e: Seq<char>) -> Seq<char> {
    host + ": sni add failed (cert "@ + s.cert + " must cover this name): "@ + e
}

/// Takes what came of offering a site's certificate under one of its names.
pub fn check_cover(s: &SiteConfig, host: &str, cover: &Cover) -> (r: Result<(), String>)
    ensures
        match cover {
            Cover::Covered => r is Ok,
            Cover::NoKey => r is Err && r->Err_0@ == unsupported_text(s@),
            Cover::Refused(e) => r is Err && r->Err_0@ == uncovered_text(s@, host@, e@),
        },
{
    match cover {
        Cover::Covered => Ok(()),
        Cover::NoKey => Err(unsupported(s)),
        Cover::Refused(e) => {
            let mut m = host.to_string();
            m.append(": sni add failed (cert ");
            m.append(s.cert.as_str());
            m.append(" must cover this name): ");
            m.append(e.as_str());
            Err(m)
        },
    }
}

/// The first of a site's names that its certificate does not cover, with what is
/// said of it.
pub open spec fn names_refused(s: SiteModel, chain: Seq<Seq<u8>>, from: int) -> Option<Seq<char>>
    decreases s.hosts.len() - from,
{
    if from < 0 || from >= s.hosts.len() {
        None
    } else {
        match name_refusal(chain, s.hosts[from]) {
            Some(e) => Some(uncovered_text(s, s.hosts[from], e)),
            None => names_refused(s, chain, from + 1),
        }
    }
}

/// What a resolver offers with a pair under the first `count` names of a site
/// too.
pub open spec fn offered_also(
    before: Map<Seq<char>, (Seq<Seq<u8>>, KeyForm, Seq<u8>)>,
    hosts: Seq<Seq<char>>,
    pair: (Seq<Seq<u8>>, KeyForm, Seq<u8>),
    count: nat,
) -> Map<Seq<char>, (Seq<Seq<u8>>, KeyForm, Seq<u8>)>
    decreases count,
{
    if count == 0 {
        before
    } else {
        offered_also(before, hosts, pair, (count - 1) as nat).insert(
            lowered(hosts[count - 1]),
            pair,
        )
    }
}

/// The certificates of the sites seen so far.
pub struct TlsBuilder {
    pub resolver: ResolvesServerCertUsingSni,
}

impl TlsBuilder {
    /// No certificates yet.
    pub fn new() -> (r: TlsBuilder)
        ensures
            offered(r.resolver).dom() == Set::<Seq<char>>::empty(),
    {
        TlsBuilder { resolver: new_resolver() }
    }

    /// Enters a site's certificate under each of its names, once its key is known
    /// to belong to it. An error is the first thing that is wrong, in this order:
    /// the key, the pair, the names. A PKCS#1 key needs no randomness to be
    /// loaded, so that of such a key both success and the error follow from what
    /// was read.
    pub fn build_tls(&mut self, s: &SiteConfig, chain: &Vec<Vec<u8>>, key: &KeyDer) -> (r: Result<
        (),
        String,
    >)
        ensures
            ({
                let c = chain_bytes(chain@);
                let pair = pair_refused(s@, pairing_of(c, key.form, key.der@));
                match r {
                    Ok(()) => pair is None && names_refused(s@, c, 0) is None && offered(
                        final(self).resolver,
                    ) == offered_also(
                        offered(old(self).resolver),
                        s@.hosts,
                        (c, key.form, key.der@),
                        s@.hosts.len(),
                    ),
                    Err(e) => {
                        &&& pair == Some(e@) || (pair is None && names_refused(s@, c, 0) == Some(
                            e@,
                        )) || (key.form != KeyForm::Pkcs1 && e@ == unsupported_text(s@))
                        &&& exists|n: nat|
                            n <= s@.hosts.len() && offered(final(self).resolver)
                                == #[trigger] offered_also(
                                offered(old(self).resolver),
                                s@.hosts,
                                (c, key.form, key.der@),
                                n,
                            )
                    },
                }
            }),
    {
        let pairing = pair_keys(chain, key);
        let ghost c = chain_bytes(chain@);
        let ghost before = offered(self.resolver);
        let ghost pair = (c, key.form, key.der@);
        assert(before == offered_also(before, s@.hosts, pair, 0));
        if let Err(e) = check_pair(s, &pairing) {
            return Err(e);
        }
        let mut i: usize = 0;
        while i < s.hosts.len()
            invariant
                0 <= i <= s.hosts.len(),
                c == chain_bytes(chain@),
                pair == (c, key.form, key.der@),
                before == offered(old(self).resolver),
                pair_refused(s@, pairing_of(c, key.form, key.der@)) is None,
                names_refused(s@, c, i as int) == names_refused(s@, c, 0),
                offered(self.resolver) == offered_also(before, s@.hosts, pair, i as nat),
            decreases s.hosts.len() - i,
        {
            assert(s@.hosts[i as int] == s.hosts@[i as int]@);
            let cover = add_name(&mut self.resolver, s.hosts[i].as_str(), chain, key);
            if let Err(e) = check_cover(s, s.hosts[i].as_str(), &cover) {
                assert(offered(self.resolver) == offered_also(before, s@.hosts, pair, i as nat));
                return Err(e);
            }
            i = i + 1;
        }
        assert(s@.hosts.len() == s.hosts@.len());
        Ok(())
    }
}

// ----------------------------------------------------------------------- laws

/// What is wrong with the files of a site: a certificate file that cannot be read, or
/// holds no certificate, and a key file that cannot be read, or holds no key; nothing
/// is wrong with others.
pub proof fn law_what_is_wrong_with_files(
    s: SiteModel,
    chain: Seq<Seq<u8>>,
    key: (KeyForm, Seq<u8>),
    e: Seq<char>,
)
    ensures
        certs_refused(s, Err(e)) is Some,
        certs_refused(s, Ok(seq![])) is Some,
        chain.len() > 0 ==> certs_refused(s, Ok(chain)) is None,
        key_refused(s, Err(e)) is Some,
        key_refused(s, Ok(None)) is Some,
        key_refused(s, Ok(Some(key))) is None,
{
}

/// A key that belongs to another certificate is refused, and one of a kind that cannot
/// be used; one that belongs to its certificate is taken, and so is one of which that
/// cannot be told.
pub proof fn law_keys_belong_to_their_certificates(s: SiteModel, e: Seq<char>)
    ensures
        pair_refused(s, PairingModel::Mismatch(e)) is Some,
        pair_refused(s, PairingModel::Unsupported) is Some,
        pair_refused(s, PairingModel::Match) is None,
        pair_refused(s, PairingModel::Unknown) is None,
{
}

/// A certificate has to cover every name of its site: nothing is said against it only
/// where it covers them all, and otherwise the first that it does not cover is named.
pub proof fn law_certificates_cover_every_name(
    s: SiteModel,
    chain: Seq<Seq<u8>>,
    from: int,
)
    requires
        0 <= from <= s.hosts.len(),
    ensures
        names_refused(s, chain, from) is None <==> forall|i: int|
            from <= i < s.hosts.len() ==> name_refusal(chain, #[trigger] s.hosts[i]) is None,
        names_refused(s, chain, from) matches Some(text) ==> exists|i: int|
            {
                &&& from <= i < s.hosts.len()
                &&& name_refusal(chain, #[trigger] s.hosts[i]) is Some
                &&& s.hosts[i].is_prefix_of(text)
                &&& forall|j: int|
                    from <= j < i ==> name_refusal(chain, #[trigger] s.hosts[j]) is None
            },
    decreases s.hosts.len() - from,
{
    if from < s.hosts.len() {
        law_certificates_cover_every_name(s, chain, from + 1);
        match name_refusal(chain, s.hosts[from]) {
            Some(e) => {
                let text = uncovered_text(s, s.hosts[from], e);
                assert(s.hosts[from] =~= text.subrange(0, s.hosts[from].len() as int));
            },
            None => {
                if let Some(text) = names_refused(s, chain, from + 1) {
                    let i = choose|i: int|
                        {
                            &&& from + 1 <= i < s.hosts.len()
                            &&& name_refusal(chain, #[trigger] s.hosts[i]) is Some
                            &&& s.hosts[i].is_prefix_of(text)
                            &&& forall|j: int|
                                from + 1 <= j < i ==> name_refusal(chain, #[trigger] s.hosts[j])
                                    is None
                        };
                    assert(name_refusal(chain, s.hosts[i]) is Some);
                }
            },
        }
    }
}

/// A site's certificate is offered under each of its names, in lower case, and under
/// no other; what other names are offered stays.
pub proof fn law_certificates_are_offered_by_name(
    before: Map<Seq<char>, (Seq<Seq<u8>>, KeyForm, Seq<u8>)>,
    hosts: Seq<Seq<char>>,
    pair: (Seq<Seq<u8>>, KeyForm, Seq<u8>),
    count: nat,
    name: Seq<char>,
)
    requires
        count <= hosts.len(),
    ensures
        ({
            let now = offered_also(before, hosts, pair, count);
            let own = exists|i: int| 0 <= i < count && lowered(#[trigger] hosts[i]) == name;
            &&& own ==> now.contains_key(name) && now[name] == pair
            &&& !own ==> (now.contains_key(name) <==> before.contains_key(name))
            &&& !own && before.contains_key(name) ==> now[name] == before[name]
        }),
    decreases count,
{
    if count > 0 {
        law_certificates_are_offered_by_name(before, hosts, pair, (count - 1) as nat, name);
        let prior = offered_also(before, hosts, pair, (count - 1) as nat);
        if lowered(hosts[count - 1]) != name {
            if exists|i: int| 0 <= i < count && lowered(#[trigger] hosts[i]) == name {
                let i = choose|i: int| 0 <= i < count && lowered(#[trigger] hosts[i]) == name;
                assert(i < count - 1);
            }
        } else {
            assert(lowered(hosts[count - 1]) == name);
        }
    }
}

/// A complaint: it names the site by its hosts first, and what is to be looked at last.
pub open spec fn complains(said: Option<Seq<char>>, s: SiteModel, why: Seq<char>) -> bool {
    &&& said is Some
    &&& (comma_joined(s.hosts) + ": "@).is_prefix_of(said->0)
    &&& why.is_suffix_of(said->0)
}

/// What is said of what is wrong starts with the names of the site, and ends with what
/// is wrong: what reading the file said, or the file that holds nothing of use. Of a
/// key that does not belong to its certificate, and of a name that is not covered, both
/// files and the certificate's file are named.
pub proof fn law_complaints_name_the_site_and_the_cause(
    s: SiteModel,
    host: Seq<char>,
    e: Seq<char>,
)
    ensures
        complains(certs_refused(s, Err(e)), s, ": cannot parse cert: "@ + e),
        complains(certs_refused(s, Ok(seq![])), s, ": no certificates in "@ + s.cert),
        complains(key_refused(s, Err(e)), s, ": cannot read key: "@ + e),
        complains(key_refused(s, Ok(None)), s, ": no private key in "@ + s.key),
        complains(
            pair_refused(s, PairingModel::Mismatch(e)),
            s,
            ": key "@ + s.key + " does not match cert "@ + s.cert + ": "@ + e,
        ),
        complains(pair_refused(s, PairingModel::Unsupported), s, ": unsupported key type"@),
        (host + ": "@).is_prefix_of(uncovered_text(s, host, e)),
        ("(cert "@ + s.cert + " must cover this name): "@ + e).is_suffix_of(
            uncovered_text(s, host, e),
        ),
{
    let label = comma_joined(s.hosts);
    reveal_strlit(": ");
    reveal_strlit(": cannot parse cert: ");
    reveal_strlit(": no certificates in ");
    reveal_strlit(": cannot read key: ");
    reveal_strlit(": no private key in ");
    reveal_strlit(": key ");
    reveal_strlit(": unsupported key type");
    reveal_strlit(": sni add failed (cert ");
    reveal_strlit("(cert ");
    lemma_complains(label, ": cannot parse cert: "@ + e, label + ": cannot parse cert: "@ + e);
    lemma_complains(label, ": no certificates in "@ + s.cert, label + ": no certificates in "@ + s.cert);
    lemma_complains(label, ": cannot read key: "@ + e, label + ": cannot read key: "@ + e);
    lemma_complains(label, ": no private key in "@ + s.key, label + ": no private key in "@ + s.key);
    lemma_complains(
        label,
        ": key "@ + s.key + " does not match cert "@ + s.cert + ": "@ + e,
        label + ": key "@ + s.key + " does not match cert "@ + s.cert + ": "@ + e,
    );
    lemma_complains(label, ": unsupported key type"@, label + ": unsupported key type"@);
    let text = uncovered_text(s, host, e);
    let first = host + ": "@;
    let last = "(cert "@ + s.cert + " must cover this name): "@ + e;
    assert(first =~= text.subrange(0, first.len() as int));
    assert(last =~= text.subrange(text.len() - last.len(), text.len() as int));
}

/// A text with a colon and a blank behind its label.
proof fn lemma_complains(label: Seq<char>, why: Seq<char>, text: Seq<char>)
    requires
        why.len() >= 2 && why[0] == ':' && why[1] == ' ',
        text =~= label + why,
    ensures
        (label + ": "@).is_prefix_of(text),
        why.is_suffix_of(text),
{
    reveal_strlit(": ");
    let first = label + ": "@;
    assert(first =~= text.subrange(0, first.len() as int));
    assert(why =~= text.subrange(text.len() - why.len(), text.len() as int));
}

} // verus!
