use vstd::prelude::*;

verus! {

broadcast use vstd::string::group_string_axioms;

/// Appends one character to a string.
///
/// Calls std's `String::push`; the contract claims that the new text is
/// the old text followed by `c`, as its documentation says.
#[verifier::external_body]
pub(crate) fn push_char(s: &mut String, c: char)
    ensures
        final(s)@ == old(s)@.push(c),
{
    s.push(c)
}

/// The characters of a string slice, in order.
pub fn chars_of(s: &str) -> (v: Vec<char>)
    ensures
        v@ == s@,
{
    let mut v: Vec<char> = Vec::new();
    for c in it: s.chars()
        invariant
            v@ == it.seq().take(it.index() as int),
            it.seq() == s@,
    {
        v.push(c);
    }
    v
}


/// The character of a decimal digit.
pub open spec fn digit_char(d: nat) -> char {
    ((48 + d) as u32) as char
}

/// Decimal notation of a natural number, most significant digit first.
pub open spec fn nat_decimal(n: nat) -> Seq<char>
    decreases n,
{
    if n < 10 {
        seq![digit_char(n)]
    } else {
        nat_decimal(n / 10).push(digit_char(n % 10))
    }
}

/// Decimal notation of an integer: a `-` before the digits of a negative one.
pub open spec fn int_decimal(v: int) -> Seq<char> {
    if v < 0 {
        seq!['-'] + nat_decimal((-v) as nat)
    } else {
        nat_decimal(v as nat)
    }
}

fn digit(d: u64) -> (c: char)
    requires
        d < 10,
    ensures
        c == digit_char(d as nat),
{
    let b: u8 = 48u8 + (d as u8);
    b as char
}

/// Appends the decimal notation of `n`.
pub fn push_decimal(s: &mut String, n: u64)
    ensures
        final(s)@ == old(s)@ + nat_decimal(n as nat),
    decreases n,
{
    if n >= 10 {
        push_decimal(s, n / 10);
    }
    push_char(s, digit(n % 10));
    assert(nat_decimal(n as nat) =~= if n < 10 {
        seq![digit_char(n as nat)]
    } else {
        nat_decimal((n / 10) as nat).push(digit_char((n % 10) as nat))
    });
}

/// The decimal notation of a `usize`.
pub fn usize_to_string(n: usize) -> (r: String)
    ensures
        r@ == nat_decimal(n as nat),
{
    let mut s = String::new();
    push_decimal(&mut s, n as u64);
    assert(s@ =~= nat_decimal(n as nat));
    s
}

/// The decimal notation of an `i32`, as `to_string` writes it.
pub fn i32_to_string(v: i32) -> (r: String)
    ensures
        r@ == int_decimal(v as int),
{
    let mut s = String::new();
    if v < 0 {
        push_char(&mut s, '-');
        let m: i64 = -(v as i64);
        push_decimal(&mut s, m as u64);
    } else {
        push_decimal(&mut s, v as u64);
    }
    assert(s@ =~= int_decimal(v as int));
    s
}

pub open spec fn is_digit(c: char) -> bool {
    '0' <= c <= '9'
}

pub open spec fn is_ascii_letter(c: char) -> bool {
    ('a' <= c <= 'z') || ('A' <= c <= 'Z')
}

/// Value of a string of decimal digits.
pub open spec fn digits_value(s: Seq<char>) -> nat
    decreases s.len(),
{
    if s.len() == 0 {
        0
    } else {
        digits_value(s.drop_last()) * 10 + ((s.last() as u32) - 48) as nat
    }
}

pub open spec fn all_digits(s: Seq<char>) -> bool {
    forall|k: int| 0 <= k < s.len() ==> is_digit(#[trigger] s[k])
}

/// What `str::parse::<i32>` gives: an optional `+` or `-`, then one or more
/// decimal digits whose value lies in the range of `i32`.
pub open spec fn spec_parse_i32(s: Seq<char>) -> Option<i32> {
    let signed = s.len() > 0 && (s[0] == '-' || s[0] == '+');
    let neg = s.len() > 0 && s[0] == '-';
    let body = if signed { s.drop_first() } else { s };
    let v: int = if neg { -(digits_value(body) as int) } else { digits_value(body) as int };
    if body.len() == 0 || !all_digits(body) || v < i32::MIN || v > i32::MAX {
        None
    } else {
        Some(v as i32)
    }
}

proof fn lemma_digits_value_prefix(s: Seq<char>, k: int)
    requires
        0 <= k <= s.len(),
        all_digits(s),
    ensures
        digits_value(s.take(k)) <= digits_value(s),
    decreases s.len() - k,
{
    if k < s.len() {
        lemma_digits_value_prefix(s, k + 1);
        assert(s.take(k + 1).drop_last() =~= s.take(k));
        assert(is_digit(s[k]));
    } else {
        assert(s.take(k) =~= s);
    }
}

/// Parses the decimal notation of an `i32`, as `str::parse::<i32>` does.
pub fn parse_i32(s: &String) -> (r: Option<i32>)
    ensures
        r == spec_parse_i32(s@),
{
    let t = s.as_str();
    let n = t.unicode_len();
    let ghost sv = s@;
    if n == 0 {
        return None;
    }
    let first = t.get_char(0);
    let neg = first == '-';
    let start: usize = if first == '-' || first == '+' { 1 } else { 0 };
    let ghost body = if start == 1 { sv.drop_first() } else { sv };
    assert(sv[0] == first);
    assert(body =~= sv.skip(start as int));
    if start == n {
        return None;
    }
    let mut acc: i64 = 0;
    let mut k: usize = start;
    while k < n
        invariant
            sv == s@,
            n == sv.len(),
            t@ == sv,
            start <= k <= n,
            body =~= sv.skip(start as int),
            body == (if sv.len() > 0 && (sv[0] == '-' || sv[0] == '+') {
                sv.drop_first()
            } else {
                sv
            }),
            neg == (sv.len() > 0 && sv[0] == '-'),
            all_digits(body.take(k - start)),
            acc as int == digits_value(body.take(k - start)),
            acc <= 2147483648,
        decreases n - k,
    {
        let c = t.get_char(k);
        if !('0' <= c && c <= '9') {
            assert(body[k - start] == c);
            assert(!is_digit(body[k - start]));
            assert(!all_digits(body));
            assert(spec_parse_i32(sv) is None);
            return None;
        }
        let d: i64 = ((c as u32) - 48) as i64;
        acc = acc * 10 + d;
        assert(body.take(k + 1 - start).drop_last() =~= body.take(k - start));
        assert(all_digits(body.take(k + 1 - start))) by {
            assert forall|j: int| 0 <= j < body.take(k + 1 - start).len() implies is_digit(
                #[trigger] body.take(k + 1 - start)[j],
            ) by {
                if j < k - start {
                    assert(body.take(k + 1 - start)[j] == body.take(k - start)[j]);
                }
            }
        }
        k = k + 1;
        if acc > 2147483648 {
            proof {
                if all_digits(body) {
                    lemma_digits_value_prefix(body, k - start);
                    assert(digits_value(body) > 2147483648);
                }
                assert(spec_parse_i32(sv) is None);
            }
            return None;
        }
    }
    assert(body.take(n - start) =~= body);
    if neg {
        Some((-acc) as i32)
    } else if acc > 2147483647 {
        None
    } else {
        Some(acc as i32)
    }
}


/// Whether two texts are equal, character by character.
pub fn text_eq(a: &str, b: &str) -> (r: bool)
    ensures
        r == (a@ == b@),
{
    let n = a.unicode_len();
    if n != b.unicode_len() {
        return false;
    }
    let mut k: usize = 0;
    while k < n
        invariant
            n == a@.len(),
            n == b@.len(),
            k <= n,
            forall|j: int| 0 <= j < k ==> a@[j] == b@[j],
        decreases n - k,
    {
        if a.get_char(k) != b.get_char(k) {
            return false;
        }
        k = k + 1;
    }
    assert(a@ =~= b@);
    true
}

/// Unicode's `White_Space` property, which `char::is_whitespace` tests.
pub open spec fn is_white_space(c: char) -> bool {
    let u = c as u32;
    ||| 0x09 <= u <= 0x0D
    ||| u == 0x20
    ||| u == 0x85
    ||| u == 0xA0
    ||| u == 0x1680
    ||| 0x2000 <= u <= 0x200A
    ||| u == 0x2028
    ||| u == 0x2029
    ||| u == 0x202F
    ||| u == 0x205F
    ||| u == 0x3000
}

/// Whether `c` has Unicode's `White_Space` property.
pub fn is_whitespace(c: char) -> (r: bool)
    ensures
        r == is_white_space(c),
{
    let u = c as u32;
    (0x09 <= u && u <= 0x0D) || u == 0x20 || u == 0x85 || u == 0xA0 || u == 0x1680 || (0x2000 <= u
        && u <= 0x200A) || u == 0x2028 || u == 0x2029 || u == 0x202F || u == 0x205F || u == 0x3000
}

/// Number of bytes of the UTF-8 encoding of `c`.
pub fn utf8_width(c: char) -> (w: usize)
    ensures
        w as int == vstd::utf8::encode_scalar(c as u32).len(),
        1 <= w <= 4,
{
    proof {
        vstd::utf8::char_is_scalar(c);
    }
    let u = c as u32;
    if u < 0x80 {
        1
    } else if u < 0x800 {
        2
    } else if u < 0x10000 {
        3
    } else {
        4
    }
}

/// The byte offset at which character `i` of `cs` begins in its UTF-8 encoding.
pub open spec fn byte_offset(cs: Seq<char>, i: int) -> nat {
    vstd::utf8::encode_utf8(cs.take(i)).len()
}

pub proof fn lemma_encode_utf8_concat(a: Seq<char>, b: Seq<char>)
    ensures
        vstd::utf8::encode_utf8(a + b) == vstd::utf8::encode_utf8(a) + vstd::utf8::encode_utf8(b),
    decreases a.len(),
{
    if a.len() == 0 {
        assert(a + b =~= b);
        assert(vstd::utf8::encode_utf8(a) =~= Seq::<u8>::empty());
        assert(Seq::<u8>::empty() + vstd::utf8::encode_utf8(b) =~= vstd::utf8::encode_utf8(b));
    } else {
        lemma_encode_utf8_concat(a.drop_first(), b);
        assert((a + b).drop_first() =~= a.drop_first() + b);
        assert((a + b)[0] == a[0]);
        let e0 = vstd::utf8::encode_scalar(a[0] as u32);
        assert(e0 + (vstd::utf8::encode_utf8(a.drop_first()) + vstd::utf8::encode_utf8(b)) =~= (e0
            + vstd::utf8::encode_utf8(a.drop_first())) + vstd::utf8::encode_utf8(b));
    }
}

/// The offset of character `i + 1` is that of character `i` plus its width,
/// and no offset passes the length of the whole encoding.
pub proof fn lemma_byte_offset_step(cs: Seq<char>, i: int)
    requires
        0 <= i < cs.len(),
    ensures
        byte_offset(cs, i + 1) == byte_offset(cs, i) + vstd::utf8::encode_scalar(cs[i] as u32).len(),
        byte_offset(cs, i + 1) <= vstd::utf8::encode_utf8(cs).len(),
{
    let one = seq![cs[i]];
    assert(cs.take(i + 1) =~= cs.take(i) + one);
    lemma_encode_utf8_concat(cs.take(i), one);
    assert(one.drop_first() =~= Seq::<char>::empty());
    assert(vstd::utf8::encode_utf8(one.drop_first()) =~= Seq::<u8>::empty());
    assert(vstd::utf8::encode_utf8(one) =~= vstd::utf8::encode_scalar(cs[i] as u32));
    assert(cs =~= cs.take(i + 1) + cs.skip(i + 1));
    lemma_encode_utf8_concat(cs.take(i + 1), cs.skip(i + 1));
}

} // verus!

verus! {

proof fn lemma_nat_decimal(n: nat)
    ensures
        nat_decimal(n).len() >= 1,
        all_digits(nat_decimal(n)),
        digits_value(nat_decimal(n)) == n,
    decreases n,
{
    let d = (n % 10) as nat;
    assert(((48 + d) as u32) as char as u32 == 48 + d);
    if n >= 10 {
        lemma_nat_decimal(n / 10);
        let s = nat_decimal(n / 10);
        let t = s.push(digit_char(d));
        assert(t.drop_last() =~= s);
        assert(t.last() == digit_char(d));
        assert((n / 10) * 10 + n % 10 == n) by (nonlinear_arith);
        assert(digits_value(t) == digits_value(s) * 10 + d);
        assert forall|k: int| 0 <= k < t.len() implies is_digit(#[trigger] t[k]) by {
            if k < s.len() {
                assert(t[k] == s[k]);
            }
        }
    } else {
        let t = seq![digit_char(n)];
        assert(t.drop_last() =~= Seq::<char>::empty());
        assert(t.last() == digit_char(n));
        assert(digits_value(t) == digits_value(t.drop_last()) * 10 + ((t.last() as u32) - 48) as nat);
    }
}

/// Reading back the decimal notation of any `i32`, as the parser reads a
/// number, gives the same `i32`.
pub proof fn lemma_decimal_round_trip(v: i32)
    ensures
        spec_parse_i32(int_decimal(v as int)) == Some(v),
{
    if v < 0 {
        let n = (-(v as int)) as nat;
        lemma_nat_decimal(n);
        let s = seq!['-'] + nat_decimal(n);
        assert(s.drop_first() =~= nat_decimal(n));
        assert(s[0] == '-');
    } else {
        lemma_nat_decimal(v as nat);
        let s = nat_decimal(v as nat);
        assert(is_digit(s[0]));
    }
}

/// Text without a line break.
pub open spec fn one_line(s: Seq<char>) -> bool {
    forall|m: int| 0 <= m < s.len() ==> #[trigger] s[m] != '\n'
}

pub proof fn lemma_concat_one_line(a: Seq<char>, b: Seq<char>)
    requires
        one_line(a),
        one_line(b),
    ensures
        one_line(a + b),
{
    assert forall|m: int| 0 <= m < (a + b).len() implies #[trigger] (a + b)[m] != '\n' by {
        if m < a.len() {
            assert((a + b)[m] == a[m]);
        } else {
            assert((a + b)[m] == b[m - a.len()]);
        }
    }
}


pub proof fn lemma_decimal_one_line(n: nat)
    ensures
        one_line(nat_decimal(n)),
    decreases n,
{
    assert(digit_char(n % 10) != '\n') by {
        let d = n % 10;
        assert((48 + d) as u32 >= 48);
        assert(((48 + d) as u32) as char as u32 == (48 + d) as u32);
    }
    if n < 10 {
        assert(digit_char(n) != '\n') by {
            assert(((48 + n) as u32) as char as u32 == (48 + n) as u32);
        }
    } else {
        lemma_decimal_one_line(n / 10);
        let s = nat_decimal(n / 10);
        assert forall|m: int| 0 <= m < s.push(digit_char(n % 10)).len() implies #[trigger] s.push(
            digit_char(n % 10),
        )[m] != '\n' by {
            if m < s.len() {
                assert(s.push(digit_char(n % 10))[m] == s[m]);
            }
        }
    }
}

pub proof fn lemma_int_decimal_one_line(v: int)
    ensures
        one_line(int_decimal(v)),
{
    if v < 0 {
        lemma_decimal_one_line((-v) as nat);
        reveal_strlit("-");
        assert(one_line(seq!['-']));
        lemma_concat_one_line(seq!['-'], nat_decimal((-v) as nat));
    } else {
        lemma_decimal_one_line(v as nat);
    }
}


} // verus!
