//! Secure text tokens: random tokens, salted digests of a text, and
//! time-salted digests that a verifier accepts within one thirty-second
//! interval of the moment they were made.
use base64::Engine as _;
use rand::RngCore;
use sha2::Digest;
use std::time::Duration;
use std::time::SystemTime;
use vstd::prelude::*;
use vstd::string::*;
use vstd::utf8::*;
use crate::text::{
    hex_bytes, hex_u64, hex_u64_string, is_hex_char, lemma_hex_bytes_shape,
    lemma_hex_u64_injective, lemma_hex_u64_shape, lemma_prefix_before_joined, prefix_before,
    prefix_before_sep, push_char, push_hex_bytes,
};

verus! {

// ---------------------------------------------------------------------------
// Outside computations
// ---------------------------------------------------------------------------

/// A character of the URL-safe base64 alphabet: `A-Z`, `a-z`, `0-9`, `-`, `_`.
pub open spec fn url_safe_char(c: char) -> bool {
    ('A' <= c && c <= 'Z') || ('a' <= c && c <= 'z') || ('0' <= c && c <= '9') || c == '-'
        || c == '_'
}

/// Length of the unpadded base64 encoding of `n` bytes.
pub open spec fn base64_len(n: nat) -> nat {
    4 * (n / 3) + if n % 3 == 0 {
        0nat
    } else if n % 3 == 1 {
        2nat
    } else {
        3nat
    }
}

/// The URL-safe base64 digit of a six-bit value: `A-Z`, `a-z`, `0-9`, `-`,
/// `_` in that order.
pub open spec fn base64_char(v: int) -> char {
    if v < 26 {
        (v + 65) as char
    } else if v < 52 {
        (v + 71) as char
    } else if v < 62 {
        (v - 4) as char
    } else if v == 62 {
        '-'
    } else {
        '_'
    }
}

/// The unpadded URL-safe base64 encoding of a byte sequence: every three
/// bytes give four digits of six bits each, high bits first; a last one or
/// two bytes give two or three digits, the lowest bits filled with zeros.
pub open spec fn base64_url_no_pad(d: Seq<u8>) -> Seq<char>
    decreases d.len(),
{
    if d.len() == 0 {
        Seq::empty()
    } else if d.len() == 1 {
        seq![base64_char(d[0] as int / 4), base64_char((d[0] as int % 4) * 16)]
    } else if d.len() == 2 {
        seq![
            base64_char(d[0] as int / 4),
            base64_char((d[0] as int % 4) * 16 + d[1] as int / 16),
            base64_char((d[1] as int % 16) * 4),
        ]
    } else {
        seq![
            base64_char(d[0] as int / 4),
            base64_char((d[0] as int % 4) * 16 + d[1] as int / 16),
            base64_char((d[1] as int % 16) * 4 + d[2] as int / 64),
            base64_char(d[2] as int % 64),
        ] + base64_url_no_pad(d.skip(3))
    }
}

/// A six-bit value's digit is in the URL-safe alphabet.
pub proof fn lemma_base64_char(v: int)
    requires
        0 <= v < 64,
    ensures
        url_safe_char(base64_char(v)),
{
}

/// The encoding has the unpadded length and uses only the URL-safe
/// alphabet.
pub proof fn lemma_base64_shape(d: Seq<u8>)
    ensures
        base64_url_no_pad(d).len() == base64_len(d.len()),
        forall|i: int|
            0 <= i < base64_url_no_pad(d).len() ==> url_safe_char(
                #[trigger] base64_url_no_pad(d)[i],
            ),
    decreases d.len(),
{
    let e = base64_url_no_pad(d);
    if d.len() == 0 {
    } else if d.len() == 1 {
        let a = d[0] as int;
        lemma_base64_char(a / 4);
        lemma_base64_char((a % 4) * 16);
    } else if d.len() == 2 {
        let a = d[0] as int;
        let b = d[1] as int;
        lemma_base64_char(a / 4);
        lemma_base64_char((a % 4) * 16 + b / 16);
        lemma_base64_char((b % 16) * 4);
    } else {
        let a = d[0] as int;
        let b = d[1] as int;
        let c = d[2] as int;
        lemma_base64_char(a / 4);
        lemma_base64_char((a % 4) * 16 + b / 16);
        lemma_base64_char((b % 16) * 4 + c / 64);
        lemma_base64_char(c % 64);
        lemma_base64_shape(d.skip(3));
        let r = base64_url_no_pad(d.skip(3));
        assert forall|i: int| 0 <= i < e.len() implies url_safe_char(#[trigger] e[i]) by {
            if i >= 4 {
                assert(e[i] == r[i - 4]);
            }
        }
    }
}

/// The SHA-512 digest of a byte sequence.
pub uninterp spec fn sha512_digest(data: Seq<u8>) -> Seq<u8>;

/// Encodes bytes with base64's `URL_SAFE_NO_PAD` engine (`Engine::encode`).
///
/// Trusted: the result is the unpadded base64 encoding of the input in the
/// URL-safe alphabet. The call panics when the encoded length that
/// base64's `encoded_len` computes overflows `usize`, which the
/// precondition rules out.
#[verifier::external_body]
fn encode_url_safe_no_pad(data: &[u8]) -> (res: String)
    requires
        base64_len(data@.len()) <= usize::MAX,
    ensures
        res@ == base64_url_no_pad(data@),
{
    base64::engine::general_purpose::URL_SAFE_NO_PAD.encode(data)
}

/// Overwrites `data` with bytes from rand's thread-local generator
/// (`RngCore::fill_bytes` on `thread_rng()`).
///
/// Trusted: the length is kept; the bytes are chance and nothing is said of
/// them.
#[verifier::external_body]
fn fill_random(data: &mut Vec<u8>)
    ensures
        final(data)@.len() == old(data)@.len(),
{
    rand::thread_rng().fill_bytes(data.as_mut_slice());
}

/// SHA-512 of `data` with sha2's `Sha512` (`Digest::digest`, which is
/// `new`, `update` and `finalize` in one call).
///
/// Trusted: the result is the named digest of the input and has 64 bytes.
#[verifier::external_body]
fn sha512(data: &[u8]) -> (res: Vec<u8>)
    ensures
        res@ == sha512_digest(data@),
        res@.len() == 64,
{
    sha2::Sha512::digest(data).to_vec()
}

#[verifier::external_type_specification]
#[verifier::external_body]
pub struct ExSystemTime(SystemTime);

/// The current system time (`SystemTime::now`). Nothing is said of it.
#[verifier::external_body]
fn system_now() -> SystemTime {
    SystemTime::now()
}

/// The time elapsed from the unix epoch to `t` (`SystemTime::duration_since`
/// with `UNIX_EPOCH`), or `None` where `t` lies before the epoch. Nothing is
/// said of the value.
#[verifier::external_body]
fn since_unix_epoch(t: &SystemTime) -> Option<Duration> {
    t.duration_since(SystemTime::UNIX_EPOCH).ok()
}

/// The whole seconds of a duration (`Duration::as_secs`). Nothing is said of
/// the value, as the duration is opaque here.
#[verifier::external_body]
fn whole_seconds(d: &Duration) -> u64 {
    d.as_secs()
}

// ---------------------------------------------------------------------------
// Random tokens
// ---------------------------------------------------------------------------

/// The requested size rounded up to a multiple of three bytes, so that the
/// base64 text needs no padding.
pub open spec fn fitted_len(size: nat) -> nat {
    if size % 3 == 0 {
        size
    } else {
        (size + 3 - size % 3) as nat
    }
}

/// Generate a random token of at least the requested size, in bytes: the
/// URL-safe base64 text of `fitted_len(size)` random bytes.
pub fn make(size: usize) -> (token: String)
    requires
        size % 3 == 0 || size + 3 <= usize::MAX,
        base64_len(fitted_len(size as nat)) <= usize::MAX,
    ensures
        token@.len() == 4 * fitted_len(size as nat) / 3,
        forall|i: int| 0 <= i < token@.len() ==> url_safe_char(#[trigger] token@[i]),
        exists|data: Seq<u8>|
            data.len() == fitted_len(size as nat) && token@ == base64_url_no_pad(data),
{
    let fitted = if size % 3 == 0 {
        size
    } else {
        size + 3 - (size % 3)
    };
    let mut data: Vec<u8> = vec![0; fitted];
    fill_random(&mut data);
    let token = encode_url_safe_no_pad(data.as_slice());
    proof {
        lemma_base64_shape(data@);
    }
    assert(fitted % 3 == 0);
    assert(token@ == base64_url_no_pad(data@));
    token
}

// ---------------------------------------------------------------------------
// Salted digests
// ---------------------------------------------------------------------------

/// `salt$digest`, where the digest is the lowercase hexadecimal SHA-512 of
/// the UTF-8 bytes of the text followed by the salt.
pub open spec fn salted(text: Seq<char>, salt: Seq<char>) -> Seq<char> {
    salt + seq!['$'] + hex_bytes(sha512_digest(encode_utf8(text + salt)))
}

/// Obfuscate the given text with the given salt, or with a fresh random
/// salt of twelve URL-safe characters when none is given.
pub fn salt_text(text: &str, given_salt: Option<&str>) -> (res: String)
    ensures
        given_salt matches Some(s) ==> res@ == salted(text@, s@),
        given_salt matches Some(s) ==> res@.len() == s@.len() + 129,
        given_salt is None ==> exists|salt: Seq<char>|
            {
                &&& salt.len() == 12
                &&& forall|i: int| 0 <= i < salt.len() ==> url_safe_char(#[trigger] salt[i])
                &&& res@ == salted(text@, salt)
                &&& res@.len() == 141
            },
{
    let salt: String = match given_salt {
        Some(s) => s.to_owned(),
        None => make(9),
    };
    let mut joined: String = text.to_owned();
    joined.append(salt.as_str());
    let digest = sha512(joined.as_str().as_bytes());
    let mut res = salt.clone();
    push_char(&mut res, '$');
    push_hex_bytes(&mut res, digest.as_slice());
    proof {
        lemma_hex_bytes_shape(digest@);
        assert(res@.len() == salt@.len() + 129);
        if given_salt is None {
            assert(fitted_len(9) == 9);
            assert(salt@.len() == 12);
            assert(res@ == salted(text@, salt@));
        }
    }
    res
}

// ---------------------------------------------------------------------------
// Time-salted digests
// ---------------------------------------------------------------------------

/// The whole seconds since the unix epoch that the system clock reads, or
/// `None` where it reads a time before the epoch. Nothing is known of the
/// reading itself.
pub fn clock_seconds() -> Option<u64> {
    let now = system_now();
    match since_unix_epoch(&now) {
        Some(d) => Some(whole_seconds(&d)),
        None => None,
    }
}

/// The count of whole thirty-second intervals in a clock reading; no
/// interval where there is no reading.
pub fn interval_of(secs: Option<u64>) -> (r: Option<u64>)
    ensures
        match secs {
            Some(s) => r == Some((s / 30) as u64),
            None => r is None,
        },
{
    match secs {
        Some(s) => Some(s / 30),
        None => None,
    }
}

/// The number of whole thirty-second intervals since the unix epoch, or
/// `None` where the system clock reads a time before the epoch.
pub fn current_interval() -> (r: Option<u64>)
    ensures
        r matches Some(i) ==> i <= u64::MAX / 30,
{
    interval_of(clock_seconds())
}

/// The salted digest of `text` under the salt that names `interval`: the
/// interval's lowercase hexadecimal digits.
pub fn salt_timed_at(text: &str, interval: u64) -> (res: String)
    ensures
        res@ == salted(text@, hex_u64(interval as nat)),
{
    let salt = hex_u64_string(interval);
    salt_text(text, Some(salt.as_str()))
}

/// The time-salted digest of `text` for a clock reading of `secs` seconds
/// since the unix epoch: the digest salted with the hexadecimal count of
/// thirty-second intervals; none where there is no reading.
pub open spec fn timed_salt(text: Seq<char>, secs: Option<u64>) -> Option<Seq<char>> {
    match secs {
        Some(s) => Some(salted(text, hex_u64((s / 30) as nat))),
        None => None,
    }
}

/// The time-salted digest of `text` for a clock reading of `secs` seconds
/// since the unix epoch. `None` where there is no reading.
pub fn salt_timed_from(text: &str, secs: Option<u64>) -> (r: Option<String>)
    ensures
        match secs {
            Some(s) => r matches Some(x) && x@ == salted(text@, hex_u64((s / 30) as nat)),
            None => r is None,
        },
{
    match interval_of(secs) {
        Some(i) => Some(salt_timed_at(text, i)),
        None => None,
    }
}

/// Obfuscate the given text with a time-based salt: the current count of
/// thirty-second intervals since the unix epoch, in hexadecimal. `None`
/// where the clock reads a time before the epoch. The result is that of
/// `salt_timed_from` for the system clock's reading, which is known only
/// to be some reading.
pub fn salt_timed(text: &str) -> (res: Option<String>)
    ensures
        exists|secs: Option<u64>|
            #[trigger] timed_salt(text@, secs) == match res {
                Some(r) => Some(r@),
                None => None::<Seq<char>>,
            },
{
    let secs = clock_seconds();
    let r = salt_timed_from(text, secs);
    assert(timed_salt(text@, secs) == match r {
        Some(x) => Some(x@),
        None => None::<Seq<char>>,
    });
    r
}

/// Whether `salted_text` is accepted for `token` at `interval`: it must be
/// the digest of `token` salted with the interval, the one before it or the
/// one after it.
pub open spec fn accepted_at(salted_text: Seq<char>, token: Seq<char>, interval: nat) -> bool {
    exists|k: nat|
        #![trigger hex_u64(k)]
        interval <= k + 1 && k <= interval + 1 && salted_text == salted(token, hex_u64(k))
}

/// The salt of a digest salted with an interval is that interval's
/// hexadecimal rendering.
pub proof fn lemma_salt_of_salted(text: Seq<char>, n: nat)
    ensures
        prefix_before(salted(text, hex_u64(n)), '$') == hex_u64(n),
{
    let salt = hex_u64(n);
    lemma_hex_u64_shape(n);
    assert forall|k: int| 0 <= k < salt.len() implies salt[k] != '$' by {
        assert(is_hex_char(salt[k]));
    }
    let d = hex_bytes(sha512_digest(encode_utf8(text + salt)));
    lemma_prefix_before_joined(salt, '$', d);
    assert(salted(text, salt) == salt + seq!['$'] + d);
}

/// Checks `salted_text` against `token` at a given interval, tolerating a
/// single shift forwards or backwards in time. The salt (what precedes the
/// first `$`) is matched against the interval, the one before and the one
/// after, and the text is then compared with the digest under that salt.
pub fn verify_timed_at(salted_text: &str, token: &str, interval: u64) -> (ok: bool)
    requires
        0 < interval < u64::MAX,
    ensures
        ok == accepted_at(salted_text@, token@, interval as nat),
{
    let salt = prefix_before_sep(salted_text, '$');
    let candidates = [interval, interval - 1, interval + 1];
    let given: String = salted_text.to_owned();
    let mut k: usize = 0;
    while k < 3
        invariant
            0 <= k <= 3,
            0 < interval < u64::MAX,
            candidates@ == seq![interval, (interval - 1) as u64, (interval + 1) as u64],
            salt@ == prefix_before(salted_text@, '$'),
            given@ == salted_text@,
            forall|j: int| 0 <= j < k ==> hex_u64(candidates@[j] as nat) != salt@,
        decreases 3 - k,
    {
        let c = candidates[k];
        let used = hex_u64_string(c);
        if used == salt {
            let expected = salt_text(token, Some(used.as_str()));
            let ok = given == expected;
            proof {
                assert(interval <= c + 1 && c <= interval + 1);
                if !ok {
                    assert forall|m: nat|
                        interval <= m + 1 && m <= interval + 1 implies salted_text@ != salted(
                        token@,
                        #[trigger] hex_u64(m),
                    ) by {
                        if salted_text@ == salted(token@, hex_u64(m)) {
                            lemma_salt_of_salted(token@, m);
                        }
                    }
                } else {
                    assert(salted_text@ == salted(token@, hex_u64(c as nat)));
                }
            }
            return ok;
        }
        k = k + 1;
    }
    proof {
        assert forall|m: nat|
            interval <= m + 1 && m <= interval + 1 implies salted_text@ != salted(
            token@,
            #[trigger] hex_u64(m),
        ) by {
            if salted_text@ == salted(token@, hex_u64(m)) {
                lemma_salt_of_salted(token@, m);
                if m == interval {
                    assert(hex_u64(candidates@[0] as nat) != salt@);
                } else if m + 1 == interval {
                    assert(hex_u64(candidates@[1] as nat) != salt@);
                } else {
                    assert(hex_u64(candidates@[2] as nat) != salt@);
                }
            }
        }
    }
    false
}

/// Whether a salted text is accepted for a token at a clock reading of
/// `secs` seconds since the unix epoch: at the reading's count of
/// thirty-second intervals. No reading, or one within the first interval,
/// accepts nothing.
pub open spec fn timed_verdict(salted_text: Seq<char>, token: Seq<char>, secs: Option<u64>) -> bool {
    match secs {
        Some(s) => s / 30 > 0 && accepted_at(salted_text, token, (s / 30) as nat),
        None => false,
    }
}

/// Whether a salted text is accepted for a token at a clock reading of
/// `secs` seconds since the unix epoch.
pub fn verify_timed_from(salted_text: &str, token: &str, secs: Option<u64>) -> (ok: bool)
    ensures
        ok == timed_verdict(salted_text@, token@, secs),
{
    match interval_of(secs) {
        Some(i) => {
            if i == 0 {
                false
            } else {
                verify_timed_at(salted_text, token, i)
            }
        },
        None => false,
    }
}

/// Verify a salted token, assuming the salt is generated from the current
/// count of thirty-second intervals from unix timestamp zero, and tolerating
/// a single shift forwards or backwards in time for that salt. The result
/// is that of `verify_timed_from` for the system clock's reading, which is
/// known only to be some reading.
pub fn verify_timed(salted_text: &str, token: &str) -> (ok: bool)
    ensures
        exists|secs: Option<u64>| ok == #[trigger] timed_verdict(salted_text@, token@, secs),
{
    let secs = clock_seconds();
    let ok = verify_timed_from(salted_text, token, secs);
    assert(ok == timed_verdict(salted_text@, token@, secs));
    ok
}

// ---------------------------------------------------------------------------
// Laws
// ---------------------------------------------------------------------------

/// A salted text reads `salt$digest`: the salt, a `$`, then two lowercase
/// hexadecimal digits per byte of the digest.
pub proof fn law_salted_shape(text: Seq<char>, salt: Seq<char>)
    ensures
        salted(text, salt).len() == salt.len() + 1 + 2 * sha512_digest(
            encode_utf8(text + salt),
        ).len(),
        salted(text, salt).take(salt.len() as int) == salt,
        salted(text, salt)[salt.len() as int] == '$',
        forall|k: int|
            salt.len() < k < salted(text, salt).len() ==> is_hex_char(
                #[trigger] salted(text, salt)[k],
            ),
{
    let d = sha512_digest(encode_utf8(text + salt));
    lemma_hex_bytes_shape(d);
    let s = salted(text, salt);
    assert(s.take(salt.len() as int) =~= salt);
    assert forall|k: int| salt.len() < k < s.len() implies is_hex_char(#[trigger] s[k]) by {
        assert(s[k] == hex_bytes(d)[k - salt.len() - 1]);
    }
}

/// A digest salted with an interval is accepted at that interval and at
/// the intervals just before and just after it.
pub proof fn law_timed_salt_accepted(text: Seq<char>, made: nat, checked: nat)
    requires
        made <= checked + 1,
        checked <= made + 1,
    ensures
        accepted_at(salted(text, hex_u64(made)), text, checked),
{
    assert(salted(text, hex_u64(made)) == salted(text, hex_u64(made)));
}

/// A digest salted with an interval is refused, whatever the token, at
/// every interval more than one away from it.
pub proof fn law_timed_salt_expires(text: Seq<char>, token: Seq<char>, made: nat, checked: nat)
    requires
        made > checked + 1 || made + 1 < checked,
    ensures
        !accepted_at(salted(text, hex_u64(made)), token, checked),
{
    assert forall|m: nat|
        checked <= m + 1 && m <= checked + 1 implies salted(text, hex_u64(made)) != salted(
        token,
        #[trigger] hex_u64(m),
    ) by {
        if salted(text, hex_u64(made)) == salted(token, hex_u64(m)) {
            lemma_salt_of_salted(text, made);
            lemma_salt_of_salted(token, m);
            lemma_hex_u64_injective(made, m);
        }
    }
}

/// Digests of one text salted with two intervals are equal exactly when the
/// intervals are.
pub proof fn law_timed_salt_names_interval(text: Seq<char>, a: nat, b: nat)
    ensures
        (salted(text, hex_u64(a)) == salted(text, hex_u64(b))) == (a == b),
{
    if salted(text, hex_u64(a)) == salted(text, hex_u64(b)) {
        lemma_salt_of_salted(text, a);
        lemma_salt_of_salted(text, b);
        lemma_hex_u64_injective(a, b);
    }
}

/// In clock seconds: a digest made at `made_secs` is accepted at
/// `checked_secs` (from the first interval on) exactly when their
/// thirty-second intervals are at most one apart.
pub proof fn law_timed_salt_window_seconds(text: Seq<char>, made_secs: u64, checked_secs: u64)
    requires
        checked_secs / 30 > 0,
    ensures
        accepted_at(
            salted(text, hex_u64((made_secs / 30) as nat)),
            text,
            (checked_secs / 30) as nat,
        ) == (made_secs / 30 <= checked_secs / 30 + 1 && checked_secs / 30 <= made_secs / 30
            + 1),
{
    let made = (made_secs / 30) as nat;
    let checked = (checked_secs / 30) as nat;
    if made <= checked + 1 && checked <= made + 1 {
        law_timed_salt_accepted(text, made, checked);
    } else {
        law_timed_salt_expires(text, text, made, checked);
    }
}

/// For every text and every clock reading after the epoch there is a
/// time-salted digest, the text salted with the reading's interval in
/// hexadecimal; without a reading there is none.
pub proof fn law_timed_salt_for_every_text(text: Seq<char>, secs: u64)
    ensures
        timed_salt(text, Some(secs)) == Some(salted(text, hex_u64((secs / 30) as nat))),
        timed_salt(text, None) is None,
{
}

/// For every token, a digest made at clock reading `made` is accepted at
/// reading `checked` (from the first interval on) exactly when their
/// thirty-second intervals are at most one apart; it is always accepted at
/// the reading it was made at. Without a reading nothing is accepted.
pub proof fn law_timed_verdict_seconds(token: Seq<char>, made: u64, checked: u64, other: Seq<char>)
    ensures
        checked / 30 > 0 ==> timed_verdict(
            salted(token, hex_u64((made / 30) as nat)),
            token,
            Some(checked),
        ) == (made / 30 <= checked / 30 + 1 && checked / 30 <= made / 30 + 1),
        made / 30 > 0 ==> timed_verdict(salted(token, hex_u64((made / 30) as nat)), token, Some(made)),
        !timed_verdict(other, token, None),
{
    if checked / 30 > 0 {
        law_timed_salt_window_seconds(token, made, checked);
    }
    if made / 30 > 0 {
        law_timed_salt_window_seconds(token, made, made);
    }
}

} // verus!
