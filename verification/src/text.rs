//! Character-level building blocks: hexadecimal rendering, the prefix of a
//! string before a separator, and appending characters.
use vstd::prelude::*;
use vstd::string::*;

verus! {

/// The lowercase hexadecimal digit of a value below sixteen.
pub open spec fn hex_digit(n: int) -> char {
    if n < 10 {
        (n + 48) as char
    } else {
        (n + 87) as char
    }
}

/// Whether `c` is one of `0-9a-f`.
pub open spec fn is_hex_char(c: char) -> bool {
    ('0' <= c && c <= '9') || ('a' <= c && c <= 'f')
}

/// Two lowercase hexadecimal digits per byte, high nibble first, as `{:x}`
/// renders a byte array.
pub open spec fn hex_bytes(d: Seq<u8>) -> Seq<char>
    decreases d.len(),
{
    if d.len() == 0 {
        Seq::empty()
    } else {
        hex_bytes(d.drop_last()) + seq![hex_digit((d.last() / 16) as int), hex_digit((d.last() % 16) as int)]
    }
}

/// `{:x}` of an unsigned integer: lowercase, no leading zeros, `0` for zero.
pub open spec fn hex_u64(n: nat) -> Seq<char>
    decreases n,
{
    if n < 16 {
        seq![hex_digit(n as int)]
    } else {
        hex_u64(n / 16).push(hex_digit((n % 16) as int))
    }
}

/// The position of the first `sep` in `s`, or its length when there is none.
pub open spec fn sep_index(s: Seq<char>, sep: char) -> nat
    decreases s.len(),
{
    if s.len() == 0 {
        0
    } else if s[0] == sep {
        0
    } else {
        1 + sep_index(s.drop_first(), sep)
    }
}

/// What comes before the first `sep` (all of `s` when there is none): the
/// first item that `split(sep)` yields.
pub open spec fn prefix_before(s: Seq<char>, sep: char) -> Seq<char> {
    s.take(sep_index(s, sep) as int)
}

/// Appends one character to a string.
///
/// Trusted: `String::push` adds the character at the end of the string.
#[verifier::external_body]
pub(crate) fn push_char(s: &mut String, c: char)
    ensures
        final(s)@ == old(s)@.push(c),
{
    s.push(c);
}

/// The digit character of `n < 16`.
pub fn digit_char(n: u8) -> (c: char)
    requires
        n < 16,
    ensures
        c == hex_digit(n as int),
{
    if n < 10 {
        (n + 48) as char
    } else {
        (n + 87) as char
    }
}

/// The characters of a string slice, in order.
pub fn chars_of(s: &str) -> (v: Vec<char>)
    ensures
        v@ == s@,
{
    let mut v: Vec<char> = Vec::new();
    for c in it: s.chars()
        invariant
            v@ == it.seq().take(it.index() as int),
    {
        v.push(c);
    }
    v
}

/// Appends the hexadecimal rendering of `data` to `out`.
pub fn push_hex_bytes(out: &mut String, data: &[u8])
    ensures
        final(out)@ == old(out)@ + hex_bytes(data@),
{
    let ghost start = out@;
    let n = data.len();
    for i in 0..n
        invariant
            n == data@.len(),
            out@ == start + hex_bytes(data@.take(i as int)),
    {
        let b = data[i];
        push_char(out, digit_char(b / 16));
        push_char(out, digit_char(b % 16));
        assert(data@.take(i + 1).drop_last() =~= data@.take(i as int));
        assert(start + hex_bytes(data@.take(i + 1)) =~= start + hex_bytes(data@.take(i as int))
            + seq![hex_digit((b / 16) as int), hex_digit((b % 16) as int)]);
    }
    assert(data@.take(n as int) =~= data@);
}

/// Appends `{:x}` of `n` to `out`.
pub fn push_hex_u64(out: &mut String, n: u64)
    ensures
        final(out)@ == old(out)@ + hex_u64(n as nat),
    decreases n,
{
    if n < 16 {
        push_char(out, digit_char(n as u8));
        assert(hex_u64(n as nat) == seq![hex_digit(n as int)]);
    } else {
        let ghost before = out@;
        push_hex_u64(out, n / 16);
        push_char(out, digit_char((n % 16) as u8));
        assert(before + hex_u64(n as nat) =~= (before + hex_u64((n / 16) as nat)).push(
            hex_digit((n % 16) as int),
        ));
    }
}

/// `{:x}` of `n`, as a new string.
pub fn hex_u64_string(n: u64) -> (s: String)
    ensures
        s@ == hex_u64(n as nat),
{
    let mut s = String::new();
    push_hex_u64(&mut s, n);
    assert(Seq::<char>::empty() + hex_u64(n as nat) =~= hex_u64(n as nat));
    s
}

/// `sep_index` is the first position holding `sep`, or the length.
pub proof fn lemma_sep_index(s: Seq<char>, sep: char, i: int)
    requires
        0 <= i <= s.len(),
        forall|k: int| 0 <= k < i ==> s[k] != sep,
        i == s.len() || s[i] == sep,
    ensures
        sep_index(s, sep) == i,
    decreases i,
{
    if i > 0 {
        assert(s[0] != sep);
        lemma_sep_index(s.drop_first(), sep, i - 1);
    }
}

/// The part of `s` before the first `sep`.
pub fn prefix_before_sep(s: &str, sep: char) -> (r: String)
    ensures
        r@ == prefix_before(s@, sep),
{
    let v = chars_of(s);
    let mut r = String::new();
    let mut i: usize = 0;
    while i < v.len()
        invariant
            v@ == s@,
            i <= v@.len(),
            r@ == v@.take(i as int),
            forall|k: int| 0 <= k < i ==> v@[k] != sep,
        ensures
            i == v@.len() || v@[i as int] == sep,
        decreases v.len() - i,
    {
        if v[i] == sep {
            break;
        }
        push_char(&mut r, v[i]);
        assert(v@.take(i + 1) =~= v@.take(i as int).push(v@[i as int]));
        i = i + 1;
    }
    proof {
        lemma_sep_index(s@, sep, i as int);
    }
    r
}

/// Hexadecimal digits are lowercase hex characters.
pub proof fn lemma_hex_digit(n: int)
    requires
        0 <= n < 16,
    ensures
        is_hex_char(hex_digit(n)),
{
}

/// Every character of `hex_u64(n)` is a hex digit; the rendering has one
/// character below sixteen and at least two from sixteen on.
pub proof fn lemma_hex_u64_shape(n: nat)
    ensures
        hex_u64(n).len() >= 1,
        n >= 16 ==> hex_u64(n).len() >= 2,
        forall|k: int| 0 <= k < hex_u64(n).len() ==> is_hex_char(#[trigger] hex_u64(n)[k]),
    decreases n,
{
    if n >= 16 {
        lemma_hex_u64_shape(n / 16);
        lemma_hex_digit((n % 16) as int);
        assert forall|k: int| 0 <= k < hex_u64(n).len() implies is_hex_char(
            #[trigger] hex_u64(n)[k],
        ) by {
            if k < hex_u64(n / 16).len() {
                assert(hex_u64(n)[k] == hex_u64(n / 16)[k]);
            }
        }
    } else {
        lemma_hex_digit(n as int);
    }
}

/// Distinct digit values give distinct digit characters.
pub proof fn lemma_hex_digit_injective(a: int, b: int)
    requires
        0 <= a < 16,
        0 <= b < 16,
        hex_digit(a) == hex_digit(b),
    ensures
        a == b,
{
}

/// `{:x}` renders distinct integers as distinct texts.
pub proof fn lemma_hex_u64_injective(a: nat, b: nat)
    requires
        hex_u64(a) == hex_u64(b),
    ensures
        a == b,
    decreases a,
{
    lemma_hex_u64_shape(a);
    lemma_hex_u64_shape(b);
    if a < 16 && b < 16 {
        assert(hex_u64(a) == seq![hex_digit(a as int)]);
        assert(hex_u64(b) == seq![hex_digit(b as int)]);
        assert(hex_u64(a)[0] == hex_u64(b)[0]);
        assert(hex_u64(a)[0] == hex_digit(a as int));
        assert(hex_u64(b)[0] == hex_digit(b as int));
        lemma_hex_digit_injective(a as int, b as int);
    } else if a >= 16 && b >= 16 {
        let la = hex_u64(a).len();
        assert(hex_u64(a)[la - 1] == hex_digit((a % 16) as int));
        assert(hex_u64(b)[la - 1] == hex_digit((b % 16) as int));
        lemma_hex_digit_injective((a % 16) as int, (b % 16) as int);
        assert(hex_u64(a / 16) =~= hex_u64(a).drop_last());
        assert(hex_u64(b / 16) =~= hex_u64(b).drop_last());
        lemma_hex_u64_injective(a / 16, b / 16);
    } else {
        assert(hex_u64(a).len() != hex_u64(b).len());
    }
}

/// The rendering of bytes has two hex digits per byte.
pub proof fn lemma_hex_bytes_shape(d: Seq<u8>)
    ensures
        hex_bytes(d).len() == 2 * d.len(),
        forall|k: int| 0 <= k < hex_bytes(d).len() ==> is_hex_char(#[trigger] hex_bytes(d)[k]),
    decreases d.len(),
{
    if d.len() > 0 {
        lemma_hex_bytes_shape(d.drop_last());
        lemma_hex_digit((d.last() / 16) as int);
        lemma_hex_digit((d.last() % 16) as int);
        let h = hex_bytes(d.drop_last());
        assert forall|k: int| 0 <= k < hex_bytes(d).len() implies is_hex_char(
            #[trigger] hex_bytes(d)[k],
        ) by {
            if k < h.len() {
                assert(hex_bytes(d)[k] == h[k]);
            }
        }
    }
}

/// What precedes the first `sep` in `a + [sep] + b` is `a`, where `a` holds
/// no `sep`.
pub proof fn lemma_prefix_before_joined(a: Seq<char>, sep: char, b: Seq<char>)
    requires
        forall|k: int| 0 <= k < a.len() ==> a[k] != sep,
    ensures
        prefix_before(a + seq![sep] + b, sep) == a,
{
    let s = a + seq![sep] + b;
    assert forall|k: int| 0 <= k < a.len() implies s[k] != sep by {
        assert(s[k] == a[k]);
    }
    assert(s[a.len() as int] == sep);
    lemma_sep_index(s, sep, a.len() as int);
    assert(s.take(a.len() as int) =~= a);
}

} // verus!
