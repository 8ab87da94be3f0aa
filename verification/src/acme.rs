//! ACME (RFC 8555) pieces that do not talk to the CA: the HTTP-01
//! challenge table, base64url, the account key's JWK thumbprint, and key
//! authorizations.
use vstd::prelude::*;
use vstd::string::StringSliceAdditionalSpecFns;
use vstd::utf8::encode_utf8;
use crate::store::KeyedVec;
use crate::text::string_push;

verus! {

/// Published HTTP-01 key authorizations, by token.
pub struct ChallengeStore {
    tokens: KeyedVec<String>,
}

impl ChallengeStore {
    /// The key authorization published for `token`.
    pub closed spec fn published(&self, token: Seq<char>) -> Option<Seq<char>> {
        match self.tokens.value(token) {
            Some(v) => Some(v@),
            None => None,
        }
    }

    pub fn new() -> (r: ChallengeStore)
        ensures
            forall|t: Seq<char>| #[trigger] r.published(t) is None,
    {
        ChallengeStore { tokens: KeyedVec::new() }
    }

    /// Publishes `key_authorization` under `token`, replacing any earlier
    /// one.
    pub fn publish(&mut self, token: String, key_authorization: String)
        ensures
            forall|t: Seq<char>| #[trigger] final(self).published(t) == if t == token@ {
                Some(key_authorization@)
            } else {
                old(self).published(t)
            },
    {
        self.tokens.insert(token, key_authorization);
    }

    pub fn get(&self, token: &str) -> (r: Option<String>)
        ensures
            match self.published(token@) {
                Some(k) => r matches Some(s) && s@ == k,
                None => r is None,
            },
    {
        match self.tokens.get(token) {
            Some(v) => Some(v.clone()),
            None => None,
        }
    }

    pub fn remove(&mut self, token: &str)
        ensures
            forall|t: Seq<char>| #[trigger] final(self).published(t) == if t == token@ {
                None
            } else {
                old(self).published(t)
            },
    {
        self.tokens.remove(token);
    }
}

pub open spec fn b64url_char(n: nat) -> char {
    if n < 26 {
        (n + 0x41) as char
    } else if n < 52 {
        (n - 26 + 0x61) as char
    } else if n < 62 {
        (n - 52 + 0x30) as char
    } else if n == 62 {
        '-'
    } else {
        '_'
    }
}

/// Base64url without padding (RFC 4648 §5).
pub open spec fn base64url(b: Seq<u8>) -> Seq<char>
    decreases b.len(),
{
    if b.len() == 0 {
        Seq::empty()
    } else if b.len() == 1 {
        seq![b64url_char((b[0] / 4) as nat), b64url_char(((b[0] % 4) * 16) as nat)]
    } else if b.len() == 2 {
        seq![
            b64url_char((b[0] / 4) as nat),
            b64url_char(((b[0] % 4) * 16 + b[1] / 16) as nat),
            b64url_char(((b[1] % 16) * 4) as nat),
        ]
    } else {
        seq![
            b64url_char((b[0] / 4) as nat),
            b64url_char(((b[0] % 4) * 16 + b[1] / 16) as nat),
            b64url_char(((b[1] % 16) * 4 + b[2] / 64) as nat),
            b64url_char((b[2] % 64) as nat),
        ] + base64url(b.subrange(3, b.len() as int))
    }
}

fn b64url_char_of(n: u8) -> (c: char)
    requires
        n < 64,
    ensures
        c == b64url_char(n as nat),
{
    if n < 26 {
        (n + 0x41) as char
    } else if n < 52 {
        (n - 26 + 0x61) as char
    } else if n < 62 {
        (n - 52 + 0x30) as char
    } else if n == 62 {
        '-'
    } else {
        '_'
    }
}

/// Base64url of `b[s..]`, written out.
fn push_base64url(out: &mut String, b: &[u8], s: usize)
    requires
        s <= b@.len(),
    ensures
        final(out)@ == old(out)@ + base64url(b@.subrange(s as int, b@.len() as int)),
    decreases b@.len() - s,
{
    let n = b.len();
    let ghost rest = b@.subrange(s as int, n as int);
    if n - s == 0 {
        assert(rest =~= Seq::<u8>::empty());
        return;
    }
    let b0 = b[s];
    string_push(out, b64url_char_of(b0 / 4));
    if n - s == 1 {
        string_push(out, b64url_char_of((b0 % 4) * 16));
        return;
    }
    let b1 = b[s + 1];
    string_push(out, b64url_char_of((b0 % 4) * 16 + b1 / 16));
    if n - s == 2 {
        string_push(out, b64url_char_of((b1 % 16) * 4));
        return;
    }
    let b2 = b[s + 2];
    string_push(out, b64url_char_of((b1 % 16) * 4 + b2 / 64));
    string_push(out, b64url_char_of(b2 % 64));
    assert(rest.subrange(3, rest.len() as int) =~= b@.subrange(s + 3, n as int));
    push_base64url(out, b, s + 3);
}

/// Base64url (unpadded) of `bytes`.
pub fn base64url_encode(bytes: &[u8]) -> (r: String)
    ensures
        r@ == base64url(bytes@),
{
    let mut out = String::new();
    push_base64url(&mut out, bytes, 0);
    assert(bytes@.subrange(0, bytes@.len() as int) =~= bytes@);
    assert(out@ =~= base64url(bytes@));
    out
}

/// A name for the SHA-256 digest of `data`.
pub uninterp spec fn sha256_digest(data: Seq<u8>) -> Seq<u8>;

/// `ring::digest::digest(&SHA256, data)`: the 32-byte SHA-256 digest.
#[verifier::external_body]
fn sha256(data: &[u8]) -> (r: Vec<u8>)
    ensures
        r@ == sha256_digest(data@),
        r@.len() == 32,
{
    ring::digest::digest(&ring::digest::SHA256, data).as_ref().to_vec()
}

/// The RFC 7638 canonical JWK of a P-256 public key with coordinates `x`
/// and `y` (base64url): members in lexicographic order, no white space.
pub open spec fn canonical_jwk(x: Seq<char>, y: Seq<char>) -> Seq<char> {
    "{\"crv\":\"P-256\",\"kty\":\"EC\",\"x\":\""@ + x + "\",\"y\":\""@ + y + "\"}"@
}

/// The JWK thumbprint of an uncompressed P-256 public key
/// (`0x04 || X || Y`): base64url of the SHA-256 of its canonical JWK.
pub open spec fn thumbprint_of(public_key: Seq<u8>) -> Seq<char> {
    base64url(
        sha256_digest(
            encode_utf8(
                canonical_jwk(base64url(public_key.subrange(1, 33)), base64url(public_key.subrange(33, 65))),
            ),
        ),
    )
}

pub fn jwk_thumbprint(public_key: &[u8]) -> (r: String)
    requires
        public_key@.len() >= 65,
    ensures
        r@ == thumbprint_of(public_key@),
{
    let x = base64url_encode(vstd::slice::slice_subrange(public_key, 1, 33));
    let y = base64url_encode(vstd::slice::slice_subrange(public_key, 33, 65));
    let mut canonical = "{\"crv\":\"P-256\",\"kty\":\"EC\",\"x\":\"".to_owned();
    canonical.append(x.as_str());
    canonical.append("\",\"y\":\"");
    canonical.append(y.as_str());
    canonical.append("\"}");
    let digest = sha256(canonical.as_str().as_bytes());
    base64url_encode(digest.as_slice())
}

/// The HTTP-01 key authorization: the token, a dot, the thumbprint.
pub fn http01_key_authorization(token: &str, thumbprint: &str) -> (r: String)
    ensures
        r@ == token@ + seq!['.'] + thumbprint@,
{
    let mut s = token.to_owned();
    string_push(&mut s, '.');
    s.append(thumbprint);
    s
}

/// The JWS signing input of RFC 7515's compact form: the base64url of the
/// protected header's bytes, a dot, and the base64url of the payload's
/// bytes (nothing for a POST-as-GET, which has no payload).
pub fn jws_signing_input(protected: &[u8], payload: Option<&[u8]>) -> (r: String)
    ensures
        r@ == base64url(protected@) + seq!['.'] + match payload {
            Some(p) => base64url(p@),
            None => Seq::<char>::empty(),
        },
{
    let mut s = base64url_encode(protected);
    string_push(&mut s, '.');
    match payload {
        Some(p) => {
            let encoded = base64url_encode(p);
            s.append(encoded.as_str());
        },
        None => {
            assert(s@ + Seq::<char>::empty() =~= s@);
        },
    }
    s
}

/// The SHA-256 of a key authorization (what TLS-ALPN-01 certifies).
pub fn key_authorization_digest(key_authorization: &str) -> (r: Vec<u8>)
    ensures
        r@ == sha256_digest(encode_utf8(key_authorization@)),
        r@.len() == 32,
{
    sha256(key_authorization.as_bytes())
}

/// An ACME order.
#[derive(Debug, Clone)]
pub struct AcmeOrder {
    pub status: String,
    pub authorizations: Vec<String>,
    pub finalize: String,
    pub certificate: Option<String>,
}

/// One challenge of an authorization.
#[derive(Debug, Clone)]
pub struct AcmeChallenge {
    pub challenge_type: String,
    pub url: String,
    pub token: String,
    pub status: String,
}

/// An authorization and its challenges.
#[derive(Debug, Clone)]
pub struct AcmeAuthorization {
    pub status: String,
    pub challenges: Vec<AcmeChallenge>,
}

/// The index of the first challenge of `kind` (`http-01`, `dns-01`,
/// `tls-alpn-01`) among `challenges`.
pub open spec fn first_of_type(challenges: Seq<AcmeChallenge>, kind: Seq<char>, i: int) -> Option<int>
    decreases challenges.len() - i,
{
    if i < 0 || i >= challenges.len() {
        None
    } else if challenges[i].challenge_type@ == kind {
        Some(i)
    } else {
        first_of_type(challenges, kind, i + 1)
    }
}

/// Which of the authorization's challenges answers `kind`: the first one
/// of that type.
pub fn challenge_of_type(auth: &AcmeAuthorization, kind: &str) -> (r: Option<usize>)
    ensures
        match first_of_type(auth.challenges@, kind@, 0) {
            Some(i) => r == Some(i as usize),
            None => r is None,
        },
{
    let k = kind.to_owned();
    let mut i: usize = 0;
    while i < auth.challenges.len()
        invariant
            i <= auth.challenges@.len(),
            k@ == kind@,
            first_of_type(auth.challenges@, kind@, 0) == first_of_type(auth.challenges@, kind@, i as int),
        decreases auth.challenges.len() - i,
    {
        if auth.challenges[i].challenge_type == k {
            return Some(i);
        }
        i = i + 1;
    }
    None
}

/// What polling an authorization does after reading its status.
#[derive(Debug, Clone, Copy, PartialEq, Eq)]
pub enum PollStep {
    /// Validated: stop polling.
    Valid,
    /// Still pending: wait, then ask again.
    Pending,
    /// Any other status: validation failed.
    Failed,
}

pub fn poll_step(status: &str) -> (r: PollStep)
    ensures
        r == (if status@ == "valid"@ {
            PollStep::Valid
        } else if status@ == "pending"@ {
            PollStep::Pending
        } else {
            PollStep::Failed
        }),
{
    let s = status.to_owned();
    if s == "valid".to_owned() {
        PollStep::Valid
    } else if s == "pending".to_owned() {
        PollStep::Pending
    } else {
        PollStep::Failed
    }
}

/// The DNS-01 record name for `domain`: `_acme-challenge.` and the domain.
pub fn dns01_record_name(domain: &str) -> (r: String)
    ensures
        r@ == "_acme-challenge."@ + domain@,
{
    let mut s = "_acme-challenge.".to_owned();
    s.append(domain);
    s
}

/// The DNS-01 TXT record value: base64url of the SHA-256 of the key
/// authorization (RFC 8555 §8.4).
pub fn dns01_txt_value(key_authorization: &str) -> (r: String)
    ensures
        r@ == base64url(sha256_digest(encode_utf8(key_authorization@))),
{
    let digest = sha256(key_authorization.as_bytes());
    base64url_encode(digest.as_slice())
}

/// The content of the critical acmeIdentifier extension of a TLS-ALPN-01
/// validation certificate (RFC 8737): the digest as a DER OCTET STRING,
/// the tag `0x04`, the one-byte length, then the bytes.
pub fn acme_identifier_content(digest: &[u8]) -> (r: Vec<u8>)
    requires
        digest@.len() < 128,
    ensures
        r@ == seq![0x04u8, digest@.len() as u8] + digest@,
{
    let mut out: Vec<u8> = Vec::new();
    out.push(0x04u8);
    out.push(digest.len() as u8);
    let mut i: usize = 0;
    while i < digest.len()
        invariant
            i <= digest@.len() < 128,
            out@ == seq![0x04u8, digest@.len() as u8] + digest@.subrange(0, i as int),
        decreases digest@.len() - i,
    {
        out.push(digest[i]);
        i = i + 1;
        assert(out@ =~= seq![0x04u8, digest@.len() as u8] + digest@.subrange(0, i as int));
    }
    assert(digest@.subrange(0, digest@.len() as int) =~= digest@);
    out
}

/// The ALPN protocol name of TLS-ALPN-01 validation connections.
pub open spec fn acme_tls_alpn_1() -> Seq<u8> {
    seq![0x61u8, 0x63u8, 0x6du8, 0x65u8, 0x2du8, 0x74u8, 0x6cu8, 0x73u8, 0x2fu8, 0x31u8]
}

/// Whether the client offers `acme-tls/1` among its ALPN protocols.
pub open spec fn offers_acme_tls(alpn: Seq<Seq<u8>>) -> bool {
    exists|i: int| 0 <= i < alpn.len() && #[trigger] alpn[i] == acme_tls_alpn_1()
}

pub open spec fn protocols_model(alpn: Seq<Vec<u8>>) -> Seq<Seq<u8>> {
    alpn.map_values(|p: Vec<u8>| p@)
}

/// The server name under which a TLS connection may be given a published
/// validation certificate: its SNI name, when the client offers
/// `acme-tls/1`; `None` when it offers no ALPN, not that protocol, or no
/// server name (such a connection gets the ordinary certificate).
pub fn challenge_server_name(alpn: Option<&Vec<Vec<u8>>>, server_name: Option<&str>) -> (r: Option<String>)
    ensures
        r matches Some(n) ==> server_name matches Some(s) && n@ == s@,
        r is Some <==> (alpn matches Some(a) && offers_acme_tls(protocols_model(a@)) && server_name is Some),
{
    let offered = match alpn {
        None => false,
        Some(a) => {
            let want: Vec<u8> = vec![0x61u8, 0x63u8, 0x6du8, 0x65u8, 0x2du8, 0x74u8, 0x6cu8, 0x73u8, 0x2fu8, 0x31u8];
            assert(want@ == acme_tls_alpn_1());
            let mut found = false;
            let mut i: usize = 0;
            while i < a.len()
                invariant
                    i <= a@.len(),
                    want@ == acme_tls_alpn_1(),
                    found <==> exists|j: int| 0 <= j < i && #[trigger] protocols_model(a@)[j] == acme_tls_alpn_1(),
                decreases a@.len() - i,
            {
                if bytes_equal(&a[i], &want) {
                    found = true;
                }
                assert(protocols_model(a@)[i as int] == a@[i as int]@);
                i = i + 1;
            }
            found
        },
    };
    if offered {
        match server_name {
            Some(s) => Some(s.to_owned()),
            None => None,
        }
    } else {
        None
    }
}

/// Whether two byte strings are equal.
fn bytes_equal(x: &Vec<u8>, y: &Vec<u8>) -> (r: bool)
    ensures
        r == (x@ == y@),
{
    if x.len() != y.len() {
        return false;
    }
    let mut i: usize = 0;
    while i < x.len()
        invariant
            x@.len() == y@.len(),
            i <= x@.len(),
            forall|j: int| 0 <= j < i ==> x@[j] == y@[j],
        decreases x@.len() - i,
    {
        if x[i] != y[i] {
            return false;
        }
        i = i + 1;
    }
    assert(x@ =~= y@);
    true
}

} // verus!
