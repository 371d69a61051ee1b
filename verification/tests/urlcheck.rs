use base64::Engine;
use urlcheck::codec::y64_encode;
use urlcheck::digits::u64_to_dec;
use urlcheck::fetcher::{collect_results, leg_status, make_check_result, CheckResult, Gate, ResultSet};
use urlcheck::proxy::{build_proxy_url, ec_proxy_base, generate_proxy_url, mail_proxy_base};
use urlcheck::signer::{number_to_letter, sign_url};

const Y64_ALPHABET: &str = "ABCDEFGHIJKLMNOPQRSTUVWXYZabcdefghijklmnopqrstuvwxyz0123456789._";

fn y64_reference(data: &[u8]) -> String {
    let alphabet = base64::alphabet::Alphabet::new(Y64_ALPHABET).unwrap();
    let engine = base64::engine::general_purpose::GeneralPurpose::new(
        &alphabet,
        base64::engine::GeneralPurposeConfig::new(),
    );
    engine.encode(data).replace('=', "-")
}

fn reference_signature(url_to_sign: &str, key: &str, ver: &str) -> String {
    let combined = format!("{}{}", url_to_sign, key);
    let digest = md5::compute(combined.as_bytes());
    format!("{}~{}", y64_reference(&digest.0), ver)
}

#[test]
fn y64_known_vectors() {
    assert_eq!(y64_encode(b""), "");
    assert_eq!(y64_encode(b"f"), "Zg--");
    assert_eq!(y64_encode(b"fo"), "Zm8-");
    assert_eq!(y64_encode(b"foo"), "Zm9v");
    assert_eq!(y64_encode(b"foob"), "Zm9vYg--");
    assert_eq!(y64_encode(b"fooba"), "Zm9vYmE-");
    assert_eq!(y64_encode(b"foobar"), "Zm9vYmFy");
    assert_eq!(y64_encode(&[0xfb, 0xff]), "._8-");
}

#[test]
fn y64_matches_base64_engine() {
    let samples: Vec<Vec<u8>> = vec![
        vec![],
        vec![0],
        vec![255],
        vec![0, 1, 2, 3, 4, 5, 6, 7, 8, 9, 250, 251, 252, 253, 254, 255],
        b"hello world".to_vec(),
        md5::compute(b"anything").0.to_vec(),
    ];
    for sample in &samples {
        assert_eq!(y64_encode(sample), y64_reference(sample));
    }
}

#[test]
fn y64_output_alphabet() {
    let samples: Vec<Vec<u8>> = vec![
        (0u16..=255).map(|b| b as u8).collect(),
        vec![0x3e, 0x3f, 0xfe, 0xff, 0x00],
        b"??//++==~~".to_vec(),
    ];
    for sample in &samples {
        let encoded = y64_encode(sample);
        for c in encoded.chars() {
            assert!(
                Y64_ALPHABET.contains(c) || c == '-',
                "unexpected character {:?} in {:?}",
                c,
                encoded
            );
        }
        assert!(!encoded.contains('+'));
        assert!(!encoded.contains('/'));
        assert!(!encoded.contains('='));
    }
}

#[test]
fn version_mapping() {
    assert_eq!(number_to_letter("1").unwrap(), "A");
    assert_eq!(number_to_letter("2").unwrap(), "B");
    assert_eq!(number_to_letter("26").unwrap(), "Z");
    assert!(number_to_letter("0").is_none());
    assert!(number_to_letter("27").is_none());
    assert!(number_to_letter("").is_none());
    assert!(number_to_letter("abc").is_none());
    assert!(number_to_letter("1a").is_none());
    assert!(number_to_letter("-1").is_none());
    assert!(number_to_letter("999999999999999999999999").is_none());
    assert_eq!(number_to_letter("007").unwrap(), "G");
    // One leading plus sign is accepted, as the original's integer parse
    // accepted it.
    assert_eq!(number_to_letter("+1").unwrap(), "A");
    assert_eq!(number_to_letter("+7").unwrap(), "G");
    assert_eq!(number_to_letter("+26").unwrap(), "Z");
    assert!(number_to_letter("+").is_none());
    assert!(number_to_letter("++7").is_none());
    assert!(number_to_letter("+0").is_none());
    assert!(number_to_letter("+27").is_none());
    assert!(number_to_letter("7+").is_none());
}

#[test]
fn signature_deterministic() {
    let url = "https://proxy.example/p?url=http%3A%2F%2Fexample.com&t=1700000000";
    let first = sign_url(url, "SECRET-REDACTED", "A");
    let second = sign_url(url, "SECRET-REDACTED", "A");
    assert_eq!(first, second);
}

#[test]
fn signature_matches_reference() {
    let url = "https://proxy.example/p?url=http%3A%2F%2Fexample.com&t=1700000000";
    let key = "SECRET-REDACTED";
    assert_eq!(sign_url(url, key, "C"), reference_signature(url, key, "C"));
}

#[test]
fn signature_shape() {
    let sig = sign_url("http://example.com", "k", "A");
    // 16 digest bytes encode to 22 symbols plus two padding characters.
    assert_eq!(sig.len(), 24 + 2);
    let (body, tail) = sig.split_at(24);
    assert_eq!(tail, "~A");
    assert!(body.ends_with("--"));
    for c in body.chars() {
        assert!(Y64_ALPHABET.contains(c) || c == '-');
    }
}

#[test]
fn proxy_url_exact() {
    let base = "https://proxy.example/p";
    let target = "http://example.com/a b?c=d&e";
    let key = "SECRET-REDACTED";
    let t: u64 = 1700000000;
    let built = build_proxy_url(base, target, key, "B", t);
    let pair = url::form_urlencoded::Serializer::new(String::new())
        .append_pair("url", target)
        .finish();
    let url_to_sign = format!("{}?{}&t={}", base, pair, t);
    let expected = format!("{}&sig={}", url_to_sign, reference_signature(&url_to_sign, key, "B"));
    assert_eq!(built, expected);
}

#[test]
fn proxy_url_shape() {
    let base = "https://proxy.example/p";
    let target = "http://example.com/x?a=b&c=d";
    let built = build_proxy_url(base, target, "key", "A", 42);
    let prefix = format!("{}?url=", base);
    assert!(built.starts_with(&prefix));
    let rest = &built[prefix.len()..];
    let t_at = rest.find("&t=").unwrap();
    let encoded = &rest[..t_at];
    assert!(!encoded.contains('&'));
    assert!(!encoded.contains('='));
    assert!(!encoded.contains('?'));
    let after_t = &rest[t_at + 3..];
    let sig_at = after_t.find("&sig=").unwrap();
    let digits = &after_t[..sig_at];
    assert!(!digits.is_empty());
    assert!(digits.chars().all(|c| c.is_ascii_digit()));
    assert_eq!(digits, "42");
    let sig = &after_t[sig_at + 5..];
    let (body, tail) = sig.split_at(sig.len() - 2);
    assert_eq!(tail, "~A");
    assert_eq!(body.len(), 24);
    for c in body.chars() {
        assert!(Y64_ALPHABET.contains(c) || c == '-');
    }
}

#[test]
fn generated_proxy_url_shape() {
    let base = ec_proxy_base();
    let built = generate_proxy_url(base, "http://example.com", "key", "A");
    assert!(built.starts_with("https://ec.yimg.com/ec?url="));
    assert!(built.contains("&t="));
    assert!(built.contains("&sig="));
    assert!(built.ends_with("~A"));
    assert_eq!(mail_proxy_base(), "https://ecp.yusercontent.com/mail");
}

#[test]
fn leg_status_sentinel() {
    assert_eq!(leg_status(Some(404)), 404);
    assert_eq!(leg_status(Some(0)), 0);
    assert_eq!(leg_status(None), 0);
}

#[test]
fn failure_isolation() {
    // The first proxy leg always fails; the other two always succeed.
    for _ in 0..3 {
        let result = make_check_result(Some(200), None, Some(200));
        assert_eq!(result.external_status, 200);
        assert_eq!(result.ec_proxy_status, 0);
        assert_eq!(result.mail_proxy_status, 200);
    }
}

#[test]
fn end_to_end_example() {
    let urls = vec![String::from("http://example.com")];
    let mut pairs: Vec<(String, CheckResult)> = Vec::new();
    for url in &urls {
        // Stubbed leg outcomes: direct 200, first proxy 503, second 200.
        let result = make_check_result(Some(200), Some(503), Some(200));
        pairs.push((url.clone(), result));
    }
    let results = collect_results(&pairs);
    assert_eq!(results.len(), 1);
    let entry = results.get(&String::from("http://example.com")).unwrap();
    assert_eq!(entry.external_status, 200);
    assert_eq!(entry.ec_proxy_status, 503);
    assert_eq!(entry.mail_proxy_status, 200);
}

#[test]
fn aggregation_size_unique_urls() {
    let mut set = ResultSet::new();
    let n: u16 = 50;
    for i in 0..n {
        let url = format!("http://example.com/{}", i);
        set.insert(url, make_check_result(Some(i), None, None));
    }
    assert_eq!(set.len(), 50);
    assert_eq!(set.entries().len(), 50);
}

#[test]
fn aggregation_last_write_wins() {
    let mut set = ResultSet::new();
    set.insert(String::from("http://a"), make_check_result(Some(200), Some(200), Some(200)));
    set.insert(String::from("http://b"), make_check_result(Some(301), None, Some(302)));
    set.insert(String::from("http://a"), make_check_result(None, Some(500), None));
    assert_eq!(set.len(), 2);
    let a = set.get(&String::from("http://a")).unwrap();
    assert_eq!(a.external_status, 0);
    assert_eq!(a.ec_proxy_status, 500);
    assert_eq!(a.mail_proxy_status, 0);
    let b = set.get(&String::from("http://b")).unwrap();
    assert_eq!(b.external_status, 301);
    assert!(set.get(&String::from("http://c")).is_none());
}

#[test]
fn gate_bounds_admission() {
    let mut gate = Gate::new(3);
    let mut admitted = 0;
    for _ in 0..5 {
        if gate.try_acquire() {
            admitted += 1;
        }
        assert!(gate.current_in_flight() <= gate.current_limit());
    }
    assert_eq!(admitted, 3);
    assert_eq!(gate.current_in_flight(), 3);
    gate.release();
    assert!(gate.try_acquire());
    assert!(!gate.try_acquire());
    assert_eq!(gate.current_in_flight(), 3);
}

#[test]
fn gate_serial_and_parallel_limits() {
    let mut serial = Gate::new(1);
    assert!(serial.try_acquire());
    assert!(!serial.try_acquire());
    serial.release();
    assert!(serial.try_acquire());

    let mut wide = Gate::new(10);
    for _ in 0..4 {
        assert!(wide.try_acquire());
    }
    assert_eq!(wide.current_in_flight(), 4);
}

#[test]
fn decimal_rendering() {
    assert_eq!(u64_to_dec(0), "0");
    assert_eq!(u64_to_dec(7), "7");
    assert_eq!(u64_to_dec(1700000000), "1700000000");
    assert_eq!(u64_to_dec(u64::MAX), "18446744073709551615");
}
