//! Byte-string helpers shared by the object codecs: searching, decimal
//! numerals, and UTF-8 text.
use vstd::prelude::*;
use vstd::utf8::*;

verus! {

broadcast use vstd::utf8::encode_utf8_decode_utf8, vstd::utf8::encode_utf8_valid_utf8;

/// The first position at or after `from` that holds `b`, or `s.len()` when
/// there is none.
pub open spec fn find_byte(s: Seq<u8>, b: u8, from: int) -> int
    decreases s.len() - from,
{
    if from >= s.len() {
        s.len() as int
    } else if s[from] == b {
        from
    } else {
        find_byte(s, b, from + 1)
    }
}

/// `b` does not occur in `s`.
pub open spec fn lacks(s: Seq<u8>, b: u8) -> bool {
    forall|i: int| 0 <= i < s.len() ==> #[trigger] s[i] != b
}

/// The character `c` does not occur in `s`.
pub open spec fn lacks_char(s: Seq<char>, c: char) -> bool {
    forall|i: int| 0 <= i < s.len() ==> #[trigger] s[i] != c
}

/// Is `c` an ASCII decimal digit byte?
pub open spec fn is_digit(c: u8) -> bool {
    48 <= c && c <= 57
}

/// The decimal numeral of `n`, without leading zeros.
pub open spec fn dec_of(n: nat) -> Seq<u8>
    decreases n,
{
    if n < 10 {
        seq![(n + 48) as u8]
    } else {
        dec_of(n / 10).push(((n % 10) + 48) as u8)
    }
}

/// The value of a sequence of decimal digits.
pub open spec fn dec_value(s: Seq<u8>) -> nat
    decreases s.len(),
{
    if s.len() == 0 {
        0
    } else {
        dec_value(s.drop_last()) * 10 + (s.last() - 48) as nat
    }
}

/// A non-empty run of decimal digits.
pub open spec fn is_numeral(s: Seq<u8>) -> bool {
    s.len() > 0 && forall|i: int| 0 <= i < s.len() ==> is_digit(#[trigger] s[i])
}

pub proof fn lemma_find_byte_bounds(s: Seq<u8>, b: u8, from: int)
    requires
        0 <= from <= s.len(),
    ensures
        from <= find_byte(s, b, from) <= s.len(),
        find_byte(s, b, from) < s.len() ==> s[find_byte(s, b, from)] == b,
        forall|i: int| from <= i < find_byte(s, b, from) ==> s[i] != b,
    decreases s.len() - from,
{
    if from < s.len() && s[from] != b {
        lemma_find_byte_bounds(s, b, from + 1);
    }
}

/// In `a + [b] + c` with no `b` in `a` from `from` on, the first `b` from
/// `from` is the one after `a`.
pub proof fn lemma_find_byte_after(a: Seq<u8>, b: u8, c: Seq<u8>, from: int)
    requires
        forall|i: int| from <= i < a.len() ==> #[trigger] a[i] != b,
        0 <= from <= a.len(),
    ensures
        find_byte(a.push(b) + c, b, from) == a.len(),
    decreases a.len() - from,
{
    let s = a.push(b) + c;
    assert(s[a.len() as int] == b);
    if from < a.len() {
        assert(s[from] == a[from]);
        lemma_find_byte_after(a, b, c, from + 1);
    }
}

/// Searching a suffix is searching the whole from further on.
pub proof fn lemma_find_shift(d: Seq<u8>, i: int, b: u8, from: int)
    requires
        0 <= i <= d.len(),
        0 <= from,
    ensures
        find_byte(d.subrange(i, d.len() as int), b, from) == find_byte(d, b, i + from) - i,
    decreases d.len() - i - from,
{
    if i + from < d.len() {
        lemma_find_shift(d, i, b, from + 1);
    }
}

/// `b` is absent from a concatenation when it is absent from both parts.
pub proof fn lemma_lacks_concat(x: Seq<u8>, y: Seq<u8>, b: u8)
    requires
        lacks(x, b),
        lacks(y, b),
    ensures
        lacks(x + y, b),
{
    assert forall|i: int| 0 <= i < (x + y).len() implies #[trigger] (x + y)[i] != b by {
        if i < x.len() {
            assert((x + y)[i] == x[i]);
        } else {
            assert((x + y)[i] == y[i - x.len()]);
        }
    }
}

pub proof fn lemma_dec_of_numeral(n: nat)
    ensures
        is_numeral(dec_of(n)),
        dec_value(dec_of(n)) == n,
    decreases n,
{
    if n >= 10 {
        lemma_dec_of_numeral(n / 10);
        let p = dec_of(n / 10);
        let s = p.push(((n % 10) + 48) as u8);
        assert(s.drop_last() =~= p);
        assert(dec_value(s) == dec_value(p) * 10 + (n % 10));
        assert(s.drop_last() =~= p);
        assert forall|i: int| 0 <= i < s.len() implies is_digit(#[trigger] s[i]) by {
            if i < p.len() {
                assert(s[i] == p[i]);
            }
        }
        vstd::arithmetic::div_mod::lemma_fundamental_div_mod(n as int, 10);
    } else {
        let s = dec_of(n);
        assert(s.drop_last() =~= Seq::<u8>::empty());
        assert(dec_value(s.drop_last()) == 0);
        assert(s.last() == (n + 48) as u8);
    }
}

/// A numeral has no byte outside the digits.
pub proof fn lemma_numeral_lacks(s: Seq<u8>, b: u8)
    requires
        is_numeral(s),
        !is_digit(b),
    ensures
        lacks(s, b),
{
}

/// The decimal numeral of `n`.
pub fn dec_bytes(n: u64) -> (r: Vec<u8>)
    ensures
        r@ == dec_of(n as nat),
{
    let mut digits: Vec<u8> = Vec::new();
    let mut m: u64 = n;
    // digits holds the low-order digits of n, least significant first
    while m >= 10
        invariant
            m <= n,
            dec_of(n as nat) == dec_of(m as nat) + digits@.reverse(),
        decreases m,
    {
        let d: u8 = (m % 10) as u8;
        proof {
            let q = (m / 10) as nat;
            assert(dec_of(m as nat) == dec_of(q).push((d + 48) as u8));
            assert(digits@.push((d + 48) as u8).reverse() =~= seq![(d + 48) as u8]
                + digits@.reverse());
            assert(dec_of(q).push((d + 48) as u8) + digits@.reverse() =~= dec_of(q)
                + digits@.push((d + 48) as u8).reverse());
        }
        digits.push(d + 48);
        m = m / 10;
    }
    let mut r: Vec<u8> = Vec::new();
    r.push((m as u8) + 48);
    let mut k: usize = digits.len();
    while k > 0
        invariant
            k <= digits.len(),
            dec_of(n as nat) == dec_of(m as nat) + digits@.reverse(),
            m < 10,
            r@ == dec_of(m as nat) + digits@.subrange(k as int, digits.len() as int).reverse(),
        decreases k,
    {
        k = k - 1;
        proof {
            assert(digits@.subrange(k as int, digits.len() as int).reverse() =~= digits@.subrange(
                k + 1,
                digits.len() as int,
            ).reverse().push(digits@[k as int]));
        }
        r.push(digits[k]);
    }
    proof {
        assert(digits@.subrange(0, digits.len() as int) =~= digits@);
    }
    r
}

/// Reads a decimal numeral; `None` when `s` is not one or its value does
/// not fit in 64 bits.
pub fn parse_dec(s: &[u8]) -> (r: Option<u64>)
    ensures
        r is Some <==> is_numeral(s@) && dec_value(s@) <= u64::MAX,
        r is Some ==> r->0 == dec_value(s@),
{
    if s.len() == 0 {
        return None;
    }
    let mut v: u64 = 0;
    let mut i: usize = 0;
    while i < s.len()
        invariant
            i <= s@.len(),
            forall|j: int| 0 <= j < i ==> is_digit(#[trigger] s@[j]),
            v == dec_value(s@.subrange(0, i as int)),
        decreases s.len() - i,
    {
        let c = s[i];
        proof {
            assert(s@.subrange(0, i + 1).drop_last() =~= s@.subrange(0, i as int));
        }
        if c < 48 || c > 57 {
            assert(!is_digit(s@[i as int]));
            return None;
        }
        let d: u64 = (c - 48) as u64;
        if v > (u64::MAX - d) / 10 {
            proof {
                assert(v * 10 + d > u64::MAX) by (nonlinear_arith)
                    requires
                        v > (u64::MAX - d) / 10,
                        d <= 9,
                ;
                if is_numeral(s@) {
                    lemma_dec_value_prefix_grows(s@, i as int + 1);
                }
            }
            return None;
        }
        v = v * 10 + d;
        i = i + 1;
    }
    proof {
        assert(s@.subrange(0, s@.len() as int) =~= s@);
    }
    Some(v)
}

/// The value of a run of digits is at least that of each of its prefixes.
pub proof fn lemma_dec_value_prefix_grows(s: Seq<u8>, k: int)
    requires
        0 <= k <= s.len(),
        forall|j: int| 0 <= j < s.len() ==> is_digit(#[trigger] s[j]),
    ensures
        dec_value(s) >= dec_value(s.subrange(0, k)),
    decreases s.len() - k,
{
    if k < s.len() {
        lemma_dec_value_prefix_grows(s, k + 1);
        assert(s.subrange(0, k + 1).drop_last() =~= s.subrange(0, k));
    } else {
        assert(s.subrange(0, k) =~= s);
    }
}

/// Appends `b` to `out`.
pub fn push_all(out: &mut Vec<u8>, b: &[u8])
    ensures
        final(out)@ == old(out)@ + b@,
{
    let mut i: usize = 0;
    while i < b.len()
        invariant
            i <= b@.len(),
            out@ == old(out)@ + b@.subrange(0, i as int),
        decreases b.len() - i,
    {
        proof {
            assert(b@.subrange(0, i + 1) =~= b@.subrange(0, i as int).push(b@[i as int]));
        }
        out.push(b[i]);
        i = i + 1;
    }
    proof {
        assert(b@.subrange(0, b@.len() as int) =~= b@);
    }
}

/// The bytes `s[from..to]` as a new vector.
pub fn copy_range(s: &[u8], from: usize, to: usize) -> (r: Vec<u8>)
    requires
        from <= to <= s@.len(),
    ensures
        r@ == s@.subrange(from as int, to as int),
{
    let mut r: Vec<u8> = Vec::new();
    let mut i: usize = from;
    while i < to
        invariant
            from <= i <= to <= s@.len(),
            r@ == s@.subrange(from as int, i as int),
        decreases to - i,
    {
        proof {
            assert(s@.subrange(from as int, i + 1) =~= s@.subrange(from as int, i as int).push(
                s@[i as int],
            ));
        }
        r.push(s[i]);
        i = i + 1;
    }
    r
}

/// The first position at or after `from` that holds `b`, or `s.len()`.
pub fn find(s: &[u8], b: u8, from: usize) -> (r: usize)
    requires
        from <= s@.len(),
    ensures
        r == find_byte(s@, b, from as int),
{
    let mut i: usize = from;
    while i < s.len()
        invariant
            from <= i <= s@.len(),
            find_byte(s@, b, from as int) == find_byte(s@, b, i as int),
        decreases s.len() - i,
    {
        if s[i] == b {
            return i;
        }
        i = i + 1;
    }
    i
}

/// The UTF-8 bytes of a character sequence hold an ASCII byte exactly where
/// the characters hold it.
pub proof fn lemma_utf8_lacks_ascii(s: Seq<char>, b: u8)
    requires
        b < 128,
        lacks_char(s, b as char),
    ensures
        lacks(encode_utf8(s), b),
    decreases s.len(),
{
    if s.len() > 0 {
        let rest = s.drop_first();
        assert forall|i: int| 0 <= i < rest.len() implies #[trigger] rest[i] != b as char by {
            assert(rest[i] == s[i + 1]);
        }
        lemma_utf8_lacks_ascii(rest, b);
        let v = s[0] as u32;
        vstd::utf8::char_is_scalar(s[0]);
        let e = encode_scalar(v);
        assert(lacks(e, b)) by {
            if has_width_1_encoding(v) {
                assert(leading_byte_width_1(v) == v as u8) by (bit_vector)
                    requires
                        v <= 0x7F,
                ;
                lemma_char_code(s[0], b);
                assert(v != b as u32);
                assert(e =~= seq![v as u8]);
            } else {
                lemma_high_bytes(v, b);
                if has_width_2_encoding(v) {
                    assert(e == seq![leading_byte_width_2(v), last_continuation_byte(v)]);
                } else if has_width_3_encoding(v) {
                    assert(e =~= seq![
                        leading_byte_width_3(v),
                        second_last_continuation_byte(v),
                        last_continuation_byte(v),
                    ]);
                } else {
                    assert(e =~= seq![
                        leading_byte_width_4(v),
                        third_last_continuation_byte(v),
                        second_last_continuation_byte(v),
                        last_continuation_byte(v),
                    ]);
                }
            }
        }
        assert(encode_utf8(s) == e + encode_utf8(rest));
    }
}

proof fn lemma_char_code(c: char, b: u8)
    requires
        c != b as char,
        b < 128,
    ensures
        c as u32 != b as u32,
{
}

proof fn lemma_high_bytes(v: u32, b: u8)
    requires
        b < 128,
    ensures
        leading_byte_width_2(v) != b,
        leading_byte_width_3(v) != b,
        leading_byte_width_4(v) != b,
        last_continuation_byte(v) != b,
        second_last_continuation_byte(v) != b,
        third_last_continuation_byte(v) != b,
{
    assert(0xC0 | ((v >> 6) & 0x1F) as u8 >= 128) by (bit_vector);
    assert(0xE0 | ((v >> 12) & 0x0F) as u8 >= 128) by (bit_vector);
    assert(0xF0 | ((v >> 18) & 0x7) as u8 >= 128) by (bit_vector);
    assert(0x80 | (v & 0x3F) as u8 >= 128) by (bit_vector);
    assert(0x80 | ((v >> 6) & 0x3F) as u8 >= 128) by (bit_vector);
    assert(0x80 | ((v >> 12) & 0x3F) as u8 >= 128) by (bit_vector);
}

/// Relies on String::from_utf8: it accepts exactly the valid UTF-8 byte
/// strings and decodes them.
#[verifier::external_body]
pub(crate) fn utf8_text(b: Vec<u8>) -> (r: Option<String>)
    ensures
        r is Some <==> valid_utf8(b@),
        r is Some ==> r->0@ == decode_utf8(b@),
{
    String::from_utf8(b).ok()
}

/// Decodes `s[from..to]` as UTF-8 text.
pub fn text_of_range(s: &[u8], from: usize, to: usize) -> (r: Option<String>)
    requires
        from <= to <= s@.len(),
    ensures
        r is Some <==> valid_utf8(s@.subrange(from as int, to as int)),
        r is Some ==> r->0@ == decode_utf8(s@.subrange(from as int, to as int)),
{
    utf8_text(copy_range(s, from, to))
}

} // verus!
