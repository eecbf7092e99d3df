use pwd_interface::text::{hex_u64_string, prefix_before_sep};
use base64::Engine as _;
use pwd_interface::token::{
    interval_of, make, salt_text, salt_timed, salt_timed_at, salt_timed_from, verify_timed,
    verify_timed_at, verify_timed_from,
};

fn url_safe(c: char) -> bool {
    c.is_ascii_alphanumeric() || c == '-' || c == '_'
}

#[test]
fn make_rounds_up_to_whole_base64_groups() {
    assert_eq!(make(21).len(), 28);
    assert_eq!(make(3).len(), 4);
    assert_eq!(make(1).len(), 4);
    assert_eq!(make(4).len(), 8);
    assert_eq!(make(0).len(), 0);
    assert_eq!(make(9).len(), 12);
}

#[test]
fn make_uses_url_safe_alphabet_and_is_random() {
    let a = make(21);
    let b = make(21);
    assert!(a.chars().all(url_safe));
    assert!(b.chars().all(url_safe));
    assert_ne!(a, b);
}

#[test]
fn salt_text_with_given_salt_is_salt_dollar_sha512() {
    let s = salt_text("hello", Some("a1b2"));
    assert_eq!(
        s,
        "a1b2$e86b0018ce7b8ae6509acafec40103929d93217e1301cc0348379edce7a1dd55ccd0e767ab056235044b42a327f8977f2c9ff2b880593ff4f828c393404d42f7"
    );
}

#[test]
fn salt_text_hashes_utf8_bytes() {
    let s = salt_text("héllo", Some("x"));
    assert_eq!(
        s,
        "x$c4b457493557555f7d6af1b1cb550579ed0aef6f92ce08bae40c2f8d6bb21b355f84e0b4145ed0b50f5f9c2d9ec353d8f57fb7771ed911203d37c63245852aa1"
    );
}

#[test]
fn salt_text_without_salt_uses_twelve_random_characters() {
    let s = salt_text("hello", None);
    let (salt, digest) = s.split_once('$').unwrap();
    assert_eq!(salt.len(), 12);
    assert!(salt.chars().all(url_safe));
    assert_eq!(digest.len(), 128);
    assert_eq!(s, salt_text("hello", Some(salt)));
}

#[test]
fn salt_timed_at_uses_hex_interval_as_salt() {
    let s = salt_timed_at("token", 5);
    assert_eq!(
        s,
        "5$425920d220ed4c678940c46cb23488b1cf585777d4ae78c52a53ad150893c3a6910577d98eccba7added1ab79ce9550e2f941ea211ffc22a11fa698634730d21"
    );
    assert!(salt_timed_at("x", 255).starts_with("ff$"));
}

#[test]
fn timed_salt_accepted_one_interval_either_way() {
    let s = salt_timed_at("secret", 1000);
    assert!(verify_timed_at(&s, "secret", 999));
    assert!(verify_timed_at(&s, "secret", 1000));
    assert!(verify_timed_at(&s, "secret", 1001));
}

#[test]
fn timed_salt_expires_after_one_interval() {
    let s = salt_timed_at("secret", 1000);
    assert!(!verify_timed_at(&s, "secret", 998));
    assert!(!verify_timed_at(&s, "secret", 1002));
}

#[test]
fn timed_salt_refuses_wrong_token_or_garbage() {
    let s = salt_timed_at("secret", 1000);
    assert!(!verify_timed_at(&s, "other", 1000));
    assert!(!verify_timed_at("3e8", "secret", 1000));
    assert!(!verify_timed_at("", "secret", 1000));
    let mut tampered = s.clone();
    tampered.push('0');
    assert!(!verify_timed_at(&tampered, "secret", 1000));
}

#[test]
fn salt_timed_now_verifies_now() {
    let s = salt_timed("secret").unwrap();
    assert!(verify_timed(&s, "secret"));
    assert!(!verify_timed(&s, "wrong"));
}

#[test]
fn hex_of_integers() {
    assert_eq!(hex_u64_string(0), "0");
    assert_eq!(hex_u64_string(15), "f");
    assert_eq!(hex_u64_string(16), "10");
    assert_eq!(hex_u64_string(57005), "dead");
    assert_eq!(hex_u64_string(u64::MAX), "ffffffffffffffff");
}

#[test]
fn prefix_before_separator() {
    assert_eq!(prefix_before_sep("ab$cd$e", '$'), "ab");
    assert_eq!(prefix_before_sep("abc", '$'), "abc");
    assert_eq!(prefix_before_sep("$x", '$'), "");
    assert_eq!(prefix_before_sep("", '$'), "");
}

const AB_AT_C: &str = "c$ddaf35a193617abacc417349ae20413112e6fa4e89a97ea20a9eeee64b55d39a2192992a274fc1a836ba3c23a3feebbd454d4423643ce80e2a9ac94fa54ca49f";

#[test]
fn interval_of_clock_seconds() {
    assert_eq!(interval_of(Some(390)), Some(13));
    assert_eq!(interval_of(Some(29)), Some(0));
    assert_eq!(interval_of(Some(30)), Some(1));
    assert_eq!(interval_of(None), None);
}

#[test]
fn salt_timed_from_clock_readings() {
    assert_eq!(salt_timed_from("ab", Some(360)), Some(AB_AT_C.to_string()));
    assert_eq!(salt_timed_from("ab", Some(389)), Some(AB_AT_C.to_string()));
    let abc = salt_timed_from("", Some(82440)).unwrap();
    assert!(abc.starts_with("abc$"));
    assert_eq!(abc, salt_text("", Some("abc")));
    assert_eq!(salt_timed_from("ab", None), None);
    assert_ne!(salt_timed_from("ab", Some(390)), salt_timed_from("ab", Some(360)));
}

#[test]
fn verify_timed_from_clock_readings() {
    assert!(verify_timed_from(AB_AT_C, "ab", Some(390)));
    assert!(verify_timed_from(AB_AT_C, "ab", Some(360)));
    assert!(verify_timed_from(AB_AT_C, "ab", Some(330)));
    assert!(!verify_timed_from(AB_AT_C, "ab", Some(420)));
    assert!(!verify_timed_from(AB_AT_C, "ab", Some(300)));
    assert!(!verify_timed_from(AB_AT_C, "abc", Some(360)));
    assert!(!verify_timed_from("C$x", "ab", Some(360)));
    assert!(!verify_timed_from(AB_AT_C, "ab", None));
    assert!(!verify_timed_from("0$x", "ab", Some(29)));
}

/// The unpadded URL-safe base64 encoding as the library states it.
fn stated_base64(d: &[u8]) -> String {
    fn digit(v: u32) -> char {
        let v = v as u8;
        match v {
            0..=25 => (b'A' + v) as char,
            26..=51 => (b'a' + v - 26) as char,
            52..=61 => (b'0' + v - 52) as char,
            62 => '-',
            _ => '_',
        }
    }
    let mut out = String::new();
    for chunk in d.chunks(3) {
        let a = chunk[0] as u32;
        out.push(digit(a / 4));
        if chunk.len() == 1 {
            out.push(digit((a % 4) * 16));
        } else {
            let b = chunk[1] as u32;
            out.push(digit((a % 4) * 16 + b / 16));
            if chunk.len() == 2 {
                out.push(digit((b % 16) * 4));
            } else {
                let c = chunk[2] as u32;
                out.push(digit((b % 16) * 4 + c / 64));
                out.push(digit(c % 64));
            }
        }
    }
    out
}

#[test]
fn base64_engine_matches_stated_encoding() {
    let mut data: Vec<u8> = Vec::new();
    for n in 0..600u32 {
        data.push((n.wrapping_mul(37) ^ (n >> 3)) as u8);
        let encoded = base64::engine::general_purpose::URL_SAFE_NO_PAD.encode(&data);
        assert_eq!(encoded, stated_base64(&data));
    }
    assert_eq!(stated_base64(&[0xfb, 0xff]), "-_8");
}
