use open_runo::acme::{
    acme_identifier_content, base64url_encode, challenge_of_type, challenge_server_name, dns01_record_name, dns01_txt_value, http01_key_authorization, jwk_thumbprint, jws_signing_input,
    key_authorization_digest, poll_step, AcmeAuthorization, AcmeChallenge, ChallengeStore, PollStep,
};
use ring::signature::{EcdsaKeyPair, KeyPair, ECDSA_P256_SHA256_FIXED_SIGNING};

fn public_key() -> Vec<u8> {
    let rng = ring::rand::SystemRandom::new();
    let pkcs8 = EcdsaKeyPair::generate_pkcs8(&ECDSA_P256_SHA256_FIXED_SIGNING, &rng).unwrap();
    let pair = EcdsaKeyPair::from_pkcs8(&ECDSA_P256_SHA256_FIXED_SIGNING, pkcs8.as_ref(), &rng).unwrap();
    pair.public_key().as_ref().to_vec()
}

#[test]
fn base64url_has_no_padding_and_uses_url_safe_alphabet() {
    let encoded = base64url_encode(&[0xfb, 0xff, 0xfe]);
    assert_eq!(encoded, "-__-");
    assert!(!base64url_encode(b"ab").contains('='));
    assert_eq!(base64url_encode(b"f"), "Zg");
    assert_eq!(base64url_encode(b"fo"), "Zm8");
}

#[test]
fn thumbprint_is_stable_for_the_same_key() {
    let key = public_key();
    assert_eq!(jwk_thumbprint(&key), jwk_thumbprint(&key));
    assert_eq!(jwk_thumbprint(&key).len(), 43);
}

#[test]
fn different_keys_have_different_thumbprints() {
    assert_ne!(jwk_thumbprint(&public_key()), jwk_thumbprint(&public_key()));
}

#[test]
fn http01_key_authorization_is_token_dot_thumbprint() {
    let key = public_key();
    let thumb = jwk_thumbprint(&key);
    let ka = http01_key_authorization("tok123", &thumb);
    assert_eq!(ka, format!("tok123.{thumb}"));
}

#[test]
fn key_authorization_digest_is_sha256() {
    let d = key_authorization_digest("abc");
    assert_eq!(d.len(), 32);
    assert_eq!(d[0], 0xba);
    assert_eq!(d[31], 0xad);
}

#[test]
fn challenge_store_publishes_serves_and_removes() {
    let mut store = ChallengeStore::new();
    assert_eq!(store.get("t"), None);
    store.publish("t".into(), "t.thumb".into());
    assert_eq!(store.get("t"), Some("t.thumb".to_string()));
    store.publish("t".into(), "t.other".into());
    assert_eq!(store.get("t"), Some("t.other".to_string()));
    store.remove("t");
    assert_eq!(store.get("t"), None);
}

fn challenge(kind: &str, token: &str) -> AcmeChallenge {
    AcmeChallenge {
        challenge_type: kind.to_string(),
        url: format!("https://ca.test/chall/{token}"),
        token: token.to_string(),
        status: "pending".to_string(),
    }
}

#[test]
fn challenge_of_type_picks_the_first_of_that_kind() {
    let auth = AcmeAuthorization {
        status: "pending".to_string(),
        challenges: vec![challenge("dns-01", "a"), challenge("http-01", "b"), challenge("http-01", "c")],
    };
    assert_eq!(challenge_of_type(&auth, "http-01"), Some(1));
    assert_eq!(challenge_of_type(&auth, "dns-01"), Some(0));
    assert_eq!(challenge_of_type(&auth, "tls-alpn-01"), None);
}

#[test]
fn poll_step_follows_the_authorization_status() {
    assert_eq!(poll_step("valid"), PollStep::Valid);
    assert_eq!(poll_step("pending"), PollStep::Pending);
    assert_eq!(poll_step("invalid"), PollStep::Failed);
    assert_eq!(poll_step(""), PollStep::Failed);
}

#[test]
fn dns01_record_and_value() {
    assert_eq!(dns01_record_name("example.com"), "_acme-challenge.example.com");
    // base64url(SHA-256("abc")), RFC 4648 and FIPS 180-2 test vector.
    assert_eq!(dns01_txt_value("abc"), "ungWv48Bz-pBQUDeXa4iI7ADYaOWF3qctBD_YfIAFa0");
}

#[test]
fn the_acme_identifier_is_the_digest_as_a_der_octet_string() {
    let digest = [0xBBu8; 32];
    let content = acme_identifier_content(&digest);
    assert_eq!(content.len(), 34);
    assert_eq!(&content[..2], &[0x04, 32]);
    assert_eq!(&content[2..], &digest[..]);
}

#[test]
fn only_acme_tls_connections_with_a_server_name_look_up_a_validation_certificate() {
    let acme = vec![b"http/1.1".to_vec(), b"acme-tls/1".to_vec()];
    let plain = vec![b"h2".to_vec(), b"http/1.1".to_vec()];
    assert_eq!(challenge_server_name(Some(&acme), Some("challenge.local")), Some("challenge.local".to_string()));
    assert_eq!(challenge_server_name(Some(&plain), Some("challenge.local")), None);
    assert_eq!(challenge_server_name(None, Some("challenge.local")), None);
    assert_eq!(challenge_server_name(Some(&acme), None), None);
}

#[test]
fn jws_signing_input_joins_the_encoded_parts_with_a_dot() {
    assert_eq!(jws_signing_input(b"{\"alg\":\"ES256\"}", Some(b"{}")), "eyJhbGciOiJFUzI1NiJ9.e30");
    assert_eq!(jws_signing_input(b"{\"alg\":\"ES256\"}", None), "eyJhbGciOiJFUzI1NiJ9.");
}
