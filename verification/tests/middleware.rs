use open_runo::middleware::{
    accepts_gzip, allow_origin, compression_plan, cors_allowed_origins, rate_limit_gate, rate_limit_key, request_id,
    BodyPlan, COMPRESSION_MIN_SIZE,
};
use open_runo::security::RateLimiter;

#[test]
fn gzip_is_offered_by_any_trimmed_entry() {
    assert!(accepts_gzip(Some("deflate, gzip;q=0.8")));
    assert!(!accepts_gzip(Some("br, deflate")));
    assert!(!accepts_gzip(None));
}

#[test]
fn compression_skips_small_encoded_or_unaccepted_bodies() {
    let small = vec![b'a'; COMPRESSION_MIN_SIZE - 1];
    assert!(matches!(compression_plan(true, false, &small), BodyPlan::Unchanged));
    let large = vec![b'a'; 4096];
    assert!(matches!(compression_plan(false, false, &large), BodyPlan::Unchanged));
    assert!(matches!(compression_plan(true, true, &large), BodyPlan::Unchanged));
    match compression_plan(true, false, &large) {
        BodyPlan::Gzipped(v) => {
            assert_eq!(&v[..2], &[0x1f, 0x8b]);
            assert!(v.len() < large.len());
            let mut d = flate2::read::GzDecoder::new(&v[..]);
            let mut out = Vec::new();
            std::io::Read::read_to_end(&mut d, &mut out).unwrap();
            assert_eq!(out, large);
        }
        BodyPlan::Unchanged => panic!("large body should be compressed"),
    }
}

#[test]
fn cors_origin_follows_the_configured_list() {
    let allowed = cors_allowed_origins(" https://a.example , ,https://b.example");
    assert_eq!(allowed, vec!["https://a.example".to_string(), "https://b.example".to_string()]);
    assert_eq!(allow_origin(&allowed, Some("https://b.example")), "https://b.example");
    assert_eq!(allow_origin(&allowed, Some("https://evil.example")), "null");
    assert_eq!(allow_origin(&allowed, None), "*");
    assert_eq!(allow_origin(&vec![], Some("https://any.example")), "https://any.example");
}

#[test]
fn request_id_is_reused_or_minted() {
    assert_eq!(request_id(Some("abc")), "abc");
    assert_eq!(request_id(Some("")).len(), 36);
    assert_eq!(request_id(None).len(), 36);
}

#[test]
fn rate_limit_gate_refuses_with_retry_after() {
    let mut limiter = RateLimiter::new(1, 30_000_000);
    assert_eq!(rate_limit_key(None), "anonymous");
    assert_eq!(rate_limit_key(Some("10.0.0.1")), "10.0.0.1");
    assert_eq!(rate_limit_gate(&mut limiter, "k", 0), None);
    assert_eq!(rate_limit_gate(&mut limiter, "k", 1_000_000), Some(29));
}

#[test]
fn a_minted_request_id_is_a_random_uuid() {
    let id = request_id(None);
    let chars: Vec<char> = id.chars().collect();
    assert_eq!(chars.len(), 36);
    for (i, c) in chars.iter().enumerate() {
        if [8, 13, 18, 23].contains(&i) {
            assert_eq!(*c, '-');
        } else {
            assert!(c.is_ascii_digit() || ('a'..='f').contains(c), "{}", id);
        }
    }
    assert_eq!(chars[14], '4');
    assert!(['8', '9', 'a', 'b'].contains(&chars[19]));
}
