//! Character-level helpers shared by the forecast and city code: decimal numbers, integer
//! parsing, ASCII case, whitespace trimming and byte-range slicing of UTF-8 text.

use vstd::prelude::*;
use vstd::utf8::*;
use vstd::string::StringSliceAdditionalSpecFns;

verus! {

/// Appends `c` to `s`: a direct call of `String::push`, which by its documentation adds the
/// character to the end of the string.
#[verifier::external_body]
pub fn push_char(s: &mut String, c: char)
    ensures
        final(s)@ == old(s)@.push(c),
{
    s.push(c)
}

/// The characters of `s`, in order.
pub fn chars_of(s: &str) -> (v: Vec<char>)
    ensures
        v@ == s@,
{
    let mut v: Vec<char> = Vec::new();
    for ch in it: s.chars()
        invariant
            v@ == it.seq().take(it.index() as int),
    {
        v.push(ch);
    }
    v
}


/// Whether `c` is one of the ASCII digits `0`..`9`.
pub open spec fn is_digit(c: char) -> bool {
    '0' <= c && c <= '9'
}

/// The value of an ASCII digit.
pub open spec fn digit_value(c: char) -> int {
    (c as int) - ('0' as int)
}

/// The ASCII digit for `d` (for `d` in `0..10`).
pub open spec fn digit_char(d: int) -> char {
    (d + ('0' as int)) as char
}

/// The decimal notation of `n`, without leading zeros.
pub open spec fn decimal(n: nat) -> Seq<char>
    decreases n,
{
    if n < 10 {
        seq![digit_char(n as int)]
    } else {
        decimal(n / 10).push(digit_char((n % 10) as int))
    }
}

/// Whether every character of `s` is an ASCII digit.
pub open spec fn all_digits(s: Seq<char>) -> bool {
    forall|i: int| 0 <= i < s.len() ==> #[trigger] is_digit(s[i])
}

/// The value of a string of decimal digits (most significant first).
pub open spec fn digits_value(s: Seq<char>) -> int
    decreases s.len(),
{
    if s.len() == 0 {
        0
    } else {
        digits_value(s.drop_last()) * 10 + digit_value(s.last())
    }
}

/// Decimal integer syntax as `str::parse` reads it: an optional `+` or `-`, then one or
/// more ASCII digits, and nothing else.
pub open spec fn integer_value(s: Seq<char>) -> Option<int> {
    if s.len() > 0 && (s[0] == '+' || s[0] == '-') {
        let rest = s.drop_first();
        if rest.len() > 0 && all_digits(rest) {
            Some(if s[0] == '-' { -digits_value(rest) } else { digits_value(rest) })
        } else {
            None
        }
    } else if s.len() > 0 && all_digits(s) {
        Some(digits_value(s))
    } else {
        None
    }
}

/// What `s.parse::<i64>()` gives: the value when it is well-formed and fits in an `i64`.
pub open spec fn parse_i64_spec(s: Seq<char>) -> Option<i64> {
    match integer_value(s) {
        Some(v) => if i64::MIN <= v <= i64::MAX {
            Some(v as i64)
        } else {
            None
        },
        None => None,
    }
}

proof fn lemma_digits_value_nonneg(s: Seq<char>)
    requires
        all_digits(s),
    ensures
        digits_value(s) >= 0,
    decreases s.len(),
{
    if s.len() > 0 {
        assert(is_digit(s[s.len() - 1]));
        lemma_digits_value_nonneg(s.drop_last());
    }
}

/// A digit string is worth at least as much as any of its prefixes.
proof fn lemma_digits_value_prefix(s: Seq<char>, k: int)
    requires
        all_digits(s),
        0 <= k <= s.len(),
    ensures
        digits_value(s.take(k)) <= digits_value(s),
    decreases s.len() - k,
{
    if k < s.len() {
        lemma_digits_value_prefix(s, k + 1);
        let p = s.take(k + 1);
        assert(p.drop_last() =~= s.take(k));
        assert(all_digits(s.take(k))) by {
            assert forall|i: int| 0 <= i < s.take(k).len() implies #[trigger] is_digit(
                s.take(k)[i],
            ) by {
                assert(is_digit(s[i]));
            }
        }
        lemma_digits_value_nonneg(s.take(k));
        assert(is_digit(s[k]));
    } else {
        assert(s.take(k) =~= s);
    }
}

/// Appends the decimal notation of `n` to `out`.
pub fn write_decimal(n: u64, out: &mut String)
    ensures
        final(out)@ == old(out)@ + decimal(n as nat),
    decreases n,
{
    if n >= 10 {
        write_decimal(n / 10, out);
    }
    let d: u8 = (n % 10) as u8;
    let c: char = (48u8 + d) as char;
    push_char(out, c);
    proof {
        if n >= 10 {
            assert(decimal(n as nat) == decimal((n / 10) as nat).push(digit_char((n % 10) as int)));
        }
    }
}

/// Parses `s` as `str::parse::<i64>` does.
pub fn parse_i64(s: &Vec<char>) -> (r: Option<i64>)
    ensures
        r == parse_i64_spec(s@),
{
    let len = s.len();
    if len == 0 {
        return None;
    }
    let negative = s[0] == '-';
    let start: usize = if s[0] == '-' || s[0] == '+' { 1 } else { 0 };
    if start == len {
        return None;
    }
    let ghost body = s@.skip(start as int);
    let mut acc: u64 = 0;
    let mut i: usize = start;
    while i < len
        invariant
            start <= i <= len,
            len == s@.len(),
            body == s@.skip(start as int),
            start <= 1,
            len > 0,
            (start == 1) == (s@[0] == '+' || s@[0] == '-'),
            negative == (s@[0] == '-'),
            acc as int == digits_value(body.take(i - start)),
            all_digits(body.take(i - start)),
            acc <= 9223372036854775808u64,
        decreases len - i,
    {
        let c = s[i];
        if !(c >= '0' && c <= '9') {
            proof {
                assert(!is_digit(body[i - start]));
                assert(!all_digits(body));
                if start == 1 {
                    assert(body =~= s@.drop_first());
                } else {
                    assert(body =~= s@);
                }
            }
            return None;
        }
        let d: u64 = ((c as u32) - 48) as u64;
        proof {
            assert(body.take(i - start + 1).drop_last() =~= body.take(i - start));
            assert(body.take(i - start + 1).last() == c);
        }
        if acc > 922337203685477580u64 || (acc == 922337203685477580u64 && d > 8) {
            proof {
                assert(all_digits(body.take(i - start + 1))) by {
                    let t = body.take(i - start + 1);
                    assert forall|j: int| 0 <= j < t.len() implies #[trigger] is_digit(t[j]) by {
                        if j < i - start {
                            assert(is_digit(body.take(i - start)[j]));
                        }
                    }
                }
                let v1 = digits_value(body.take(i - start + 1));
                assert(v1 > 9223372036854775808);
                assert(all_digits(body) ==> v1 <= digits_value(body)) by {
                    if all_digits(body) {
                        lemma_digits_value_prefix(body, i - start + 1);
                    }
                }
                if start == 1 {
                    assert(body =~= s@.drop_first());
                } else {
                    assert(body =~= s@);
                }
            }
            return None;
        }
        acc = acc * 10 + d;
        i = i + 1;
        proof {
            let t = body.take(i - start);
            assert forall|j: int| 0 <= j < t.len() implies #[trigger] is_digit(t[j]) by {
                if j < i - start - 1 {
                    assert(is_digit(body.take(i - start - 1)[j]));
                }
            }
        }
    }
    proof {
        assert(body.take(len - start) =~= body);
        if start == 1 {
            assert(body =~= s@.drop_first());
        } else {
            assert(body =~= s@);
            assert(!is_digit(s@[0]) ==> !all_digits(s@));
        }
    }
    if negative {
        if acc == 9223372036854775808u64 {
            Some(i64::MIN)
        } else {
            Some(0i64 - (acc as i64))
        }
    } else {
        if acc == 9223372036854775808u64 {
            None
        } else {
            Some(acc as i64)
        }
    }
}


/// Whether the byte range `lo..hi` of the UTF-8 encoding `b` lies inside it and starts and
/// ends on character boundaries.
pub open spec fn byte_range_ok(b: Seq<u8>, lo: int, hi: int) -> bool {
    &&& 0 <= lo <= hi <= b.len()
    &&& is_char_boundary(b, lo)
    &&& is_char_boundary(b, hi)
}

/// What `s.get(lo..hi)` gives for text `s`: the characters encoded by bytes `lo..hi`, when
/// that range is in bounds and on character boundaries.
pub open spec fn byte_slice_spec(s: Seq<char>, lo: int, hi: int) -> Option<Seq<char>> {
    let b = encode_utf8(s);
    if byte_range_ok(b, lo, hi) {
        Some(decode_utf8(b.subrange(lo, hi)))
    } else {
        None
    }
}

proof fn lemma_boundary_after_split(b: Seq<u8>, lo: int, hi: int)
    requires
        valid_utf8(b),
        byte_range_ok(b, lo, hi),
    ensures
        valid_utf8(b.subrange(lo, b.len() as int)),
        is_char_boundary(b.subrange(lo, b.len() as int), hi - lo),
{
    let rest = b.subrange(lo, b.len() as int);
    valid_utf8_split(b, lo);
    is_char_boundary_start_end_of_seq(rest);
    if hi - lo > 0 && hi < b.len() {
        is_char_boundary_iff_not_is_continuation_byte(b, hi);
        is_char_boundary_iff_not_is_continuation_byte(rest, hi - lo);
        assert(rest[hi - lo] == b[hi]);
    } else if hi == b.len() {
        assert(rest.len() == hi - lo);
    }
}

/// `s.get(lo..hi)`: the part of `s` between byte offsets `lo` and `hi`, or `None` where the
/// range is out of bounds or splits a character.
pub fn byte_slice(s: &str, lo: usize, hi: usize) -> (r: Option<&str>)
    ensures
        match r {
            Some(x) => byte_slice_spec(s@, lo as int, hi as int) == Some(x@),
            None => byte_slice_spec(s@, lo as int, hi as int) is None,
        },
{
    proof {
        encode_utf8_valid_utf8(s@);
    }
    if lo > hi {
        return None;
    }
    if !s.is_char_boundary(lo) || !s.is_char_boundary(hi) {
        return None;
    }
    let ghost b = s.spec_bytes();
    proof {
        lemma_boundary_after_split(b, lo as int, hi as int);
    }
    let (_, rest) = s.split_at(lo);
    assert(rest.spec_bytes() =~= b.subrange(lo as int, b.len() as int));
    let (mid, _) = rest.split_at(hi - lo);
    proof {
        assert(mid.spec_bytes() =~= b.subrange(lo as int, hi as int));
        encode_utf8_decode_utf8(mid@);
    }
    Some(mid)
}


/// `char::to_ascii_lowercase`: ASCII capitals become small letters, all else is unchanged.
pub open spec fn ascii_lower(c: char) -> char {
    if 'A' <= c && c <= 'Z' {
        ((c as int) + 32) as char
    } else {
        c
    }
}

/// `char::is_ascii_alphanumeric`.
pub open spec fn is_ascii_alnum(c: char) -> bool {
    ||| is_digit(c)
    ||| ('a' <= c && c <= 'z')
    ||| ('A' <= c && c <= 'Z')
}

/// `char::is_whitespace`: the characters with the Unicode `White_Space` property.
pub open spec fn is_white(c: char) -> bool {
    let u = c as u32;
    ||| (0x09 <= u && u <= 0x0d)
    ||| u == 0x20
    ||| u == 0x85
    ||| u == 0xa0
    ||| u == 0x1680
    ||| (0x2000 <= u && u <= 0x200a)
    ||| u == 0x2028
    ||| u == 0x2029
    ||| u == 0x202f
    ||| u == 0x205f
    ||| u == 0x3000
}

/// Two texts that are equal once ASCII capitals are folded to small letters.
pub open spec fn eq_ignore_ascii_case_spec(a: Seq<char>, b: Seq<char>) -> bool {
    &&& a.len() == b.len()
    &&& forall|i: int| 0 <= i < a.len() ==> #[trigger] ascii_lower(a[i]) == ascii_lower(b[i])
}

/// `s` without its leading whitespace.
pub open spec fn trim_start_spec(s: Seq<char>) -> Seq<char>
    decreases s.len(),
{
    if s.len() > 0 && is_white(s[0]) {
        trim_start_spec(s.drop_first())
    } else {
        s
    }
}

/// `s` without its trailing whitespace.
pub open spec fn trim_end_spec(s: Seq<char>) -> Seq<char>
    decreases s.len(),
{
    if s.len() > 0 && is_white(s.last()) {
        trim_end_spec(s.drop_last())
    } else {
        s
    }
}

/// `str::trim`: `s` without leading and trailing whitespace.
pub open spec fn trim_spec(s: Seq<char>) -> Seq<char> {
    trim_end_spec(trim_start_spec(s))
}

/// Byte-wise lexicographic order, the order of `str`: `a` sorts at or before `b`.
pub open spec fn bytes_le(a: Seq<u8>, b: Seq<u8>) -> bool
    decreases a.len(),
{
    if a.len() == 0 {
        true
    } else if b.len() == 0 {
        false
    } else if a[0] != b[0] {
        a[0] < b[0]
    } else {
        bytes_le(a.drop_first(), b.drop_first())
    }
}

pub fn to_ascii_lower(c: char) -> (r: char)
    ensures
        r == ascii_lower(c),
{
    if c >= 'A' && c <= 'Z' {
        let u: u32 = (c as u32) + 32;
        (u as u8) as char
    } else {
        c
    }
}

pub fn is_ascii_alphanumeric(c: char) -> (r: bool)
    ensures
        r == is_ascii_alnum(c),
{
    (c >= '0' && c <= '9') || (c >= 'a' && c <= 'z') || (c >= 'A' && c <= 'Z')
}

pub fn is_whitespace(c: char) -> (r: bool)
    ensures
        r == is_white(c),
{
    let u = c as u32;
    (0x09 <= u && u <= 0x0d) || u == 0x20 || u == 0x85 || u == 0xa0 || u == 0x1680 || (0x2000
        <= u && u <= 0x200a) || u == 0x2028 || u == 0x2029 || u == 0x202f || u == 0x205f || u
        == 0x3000
}

/// `a.eq_ignore_ascii_case(b)` on characters.
pub fn eq_ignore_ascii_case(a: &Vec<char>, b: &Vec<char>) -> (r: bool)
    ensures
        r == eq_ignore_ascii_case_spec(a@, b@),
{
    if a.len() != b.len() {
        return false;
    }
    let mut i: usize = 0;
    while i < a.len()
        invariant
            a.len() == b.len(),
            i <= a.len(),
            forall|k: int| 0 <= k < i ==> #[trigger] ascii_lower(a@[k]) == ascii_lower(b@[k]),
        decreases a.len() - i,
    {
        if to_ascii_lower(a[i]) != to_ascii_lower(b[i]) {
            return false;
        }
        i = i + 1;
    }
    true
}

/// `s.trim()`, as an owned string.
pub fn trim(s: &str) -> (r: String)
    ensures
        r@ == trim_spec(s@),
{
    let v = chars_of(s);
    let n = v.len();
    let mut i: usize = 0;
    assert(v@.skip(0) =~= v@);
    while i < n && is_whitespace(v[i])
        invariant
            n == v@.len(),
            i <= n,
            trim_start_spec(v@) == trim_start_spec(v@.skip(i as int)),
        decreases n - i,
    {
        assert(v@.skip(i as int).drop_first() =~= v@.skip(i + 1));
        i = i + 1;
    }
    let ghost front = v@.skip(i as int);
    assert(trim_start_spec(front) == front);
    let mut j: usize = n;
    while j > i && is_whitespace(v[j - 1])
        invariant
            n == v@.len(),
            i <= j <= n,
            front == v@.skip(i as int),
            trim_end_spec(front) == trim_end_spec(v@.subrange(i as int, j as int)),
        decreases j,
    {
        assert(v@.subrange(i as int, j as int).drop_last() =~= v@.subrange(i as int, j - 1));
        j = j - 1;
    }
    assert(front =~= v@.subrange(i as int, n as int));
    let mut out = String::new();
    let mut k: usize = i;
    while k < j
        invariant
            i <= k <= j <= n,
            n == v@.len(),
            out@ == v@.subrange(i as int, k as int),
        decreases j - k,
    {
        push_char(&mut out, v[k]);
        assert(v@.subrange(i as int, k + 1) =~= v@.subrange(i as int, k as int).push(v@[k as int]));
        k = k + 1;
    }
    out
}

/// `a >= b` for strings: byte-wise lexicographic comparison.
pub fn str_ge(a: &str, b: &str) -> (r: bool)
    ensures
        r == bytes_le(encode_utf8(b@), encode_utf8(a@)),
{
    let x = a.as_bytes();
    let y = b.as_bytes();
    let ghost xa = encode_utf8(a@);
    let ghost yb = encode_utf8(b@);
    assert(x@ == xa);
    assert(y@ == yb);
    let mut i: usize = 0;
    assert(xa.skip(0) =~= xa);
    assert(yb.skip(0) =~= yb);
    while i < x.len() && i < y.len() && x[i] == y[i]
        invariant
            x@ == xa,
            y@ == yb,
            i <= x@.len(),
            i <= y@.len(),
            bytes_le(yb, xa) == bytes_le(yb.skip(i as int), xa.skip(i as int)),
        decreases x@.len() - i,
    {
        assert(yb.skip(i as int).drop_first() =~= yb.skip(i + 1));
        assert(xa.skip(i as int).drop_first() =~= xa.skip(i + 1));
        i = i + 1;
    }
    if i == y.len() {
        true
    } else if i == x.len() {
        false
    } else {
        y[i] < x[i]
    }
}



/// Whether `a` and `b` hold the same text.
pub fn str_eq(a: &str, b: &str) -> (r: bool)
    ensures
        r == (a@ == b@),
{
    let x = chars_of(a);
    let y = chars_of(b);
    if x.len() != y.len() {
        return false;
    }
    let mut i: usize = 0;
    while i < x.len()
        invariant
            x@ == a@,
            y@ == b@,
            x@.len() == y@.len(),
            i <= x@.len(),
            forall|k: int| 0 <= k < i ==> x@[k] == y@[k],
        decreases x@.len() - i,
    {
        if x[i] != y[i] {
            return false;
        }
        i = i + 1;
    }
    assert(x@ =~= y@);
    true
}

/// The two-digit, zero-padded notation of `n` (below 100), as `format!("{:02}", n)` writes it.
pub open spec fn two_digits(n: int) -> Seq<char> {
    seq![digit_char(n / 10), digit_char(n % 10)]
}

/// The four-digit, zero-padded notation of `n` (below 10000), as `format!("{:04}", n)` writes
/// it.
pub open spec fn four_digits(n: int) -> Seq<char> {
    seq![digit_char(n / 1000), digit_char((n / 100) % 10), digit_char((n / 10) % 10), digit_char(n % 10)]
}

pub fn write_two_digits(n: i64) -> (r: String)
    requires
        0 <= n < 100,
    ensures
        r@ == two_digits(n as int),
{
    let mut out = String::new();
    let tens: u8 = (n / 10) as u8;
    let ones: u8 = (n % 10) as u8;
    push_char(&mut out, (48u8 + tens) as char);
    push_char(&mut out, (48u8 + ones) as char);
    assert(out@ =~= two_digits(n as int));
    out
}

} // verus!
