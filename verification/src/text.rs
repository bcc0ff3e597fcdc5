//! Byte-level text primitives shared by the analyses.
//!
//! Source text is modelled by its UTF-8 bytes: every search below is a byte
//! search, exactly like `str::find`/`str::contains` on string slices.

use vstd::prelude::*;
use vstd::string::*;
use vstd::utf8::*;

verus! {

/// `pat` occurs in `text` starting at byte `i`.
pub open spec fn occurs_at<T>(text: Seq<T>, pat: Seq<T>, i: int) -> bool {
    0 <= i && i + pat.len() <= text.len() && text.subrange(i, i + pat.len()) == pat
}

/// `pat` occurs somewhere in `text`.
pub open spec fn contains_seq<T>(text: Seq<T>, pat: Seq<T>) -> bool {
    exists|i: int| occurs_at(text, pat, i)
}

/// `i` is the first position at or after `from` where `pat` occurs.
pub open spec fn is_first_occurrence_from<T>(text: Seq<T>, pat: Seq<T>, from: int, i: int) -> bool {
    from <= i && occurs_at(text, pat, i) && forall|j: int| from <= j < i ==> !occurs_at(text, pat, j)
}

/// No occurrence of `pat` at or after `from`.
pub open spec fn no_occurrence_from<T>(text: Seq<T>, pat: Seq<T>, from: int) -> bool {
    forall|j: int| from <= j ==> !occurs_at(text, pat, j)
}

/// Whether `pat` occurs in `text` at byte `i`.
pub fn matches_at(text: &[u8], pat: &[u8], i: usize) -> (r: bool)
    ensures
        r == occurs_at(text@, pat@, i as int),
{
    if i > text.len() || pat.len() > text.len() - i {
        return false;
    }
    let mut k: usize = 0;
    while k < pat.len()
        invariant
            i + pat@.len() <= text@.len(),
            text@.len() == text.len(),
            k <= pat@.len(),
            forall|m: int| 0 <= m < k ==> text@[i + m] == pat@[m],
        decreases pat@.len() - k,
    {
        if text[i + k] != pat[k] {
            assert(text@.subrange(i as int, i + pat@.len())[k as int] != pat@[k as int]);
            return false;
        }
        k = k + 1;
    }
    assert(text@.subrange(i as int, i + pat@.len()) =~= pat@);
    true
}

/// The first position at or after `from` where `pat` occurs.
pub fn find_from(text: &[u8], pat: &[u8], from: usize) -> (r: Option<usize>)
    ensures
        match r {
            Some(i) => is_first_occurrence_from(text@, pat@, from as int, i as int),
            None => no_occurrence_from(text@, pat@, from as int),
        },
{
    let mut i = from;
    while i < text.len()
        invariant
            from <= i,
            forall|j: int| from <= j < i ==> !occurs_at(text@, pat@, j),
        decreases text@.len() - i,
    {
        if matches_at(text, pat, i) {
            return Some(i);
        }
        i = i + 1;
    }
    if matches_at(text, pat, i) {
        return Some(i);
    }
    None
}

/// Whether `pat` occurs anywhere in `text`.
pub fn contains_bytes(text: &[u8], pat: &[u8]) -> (r: bool)
    ensures
        r == contains_seq(text@, pat@),
{
    match find_from(text, pat, 0) {
        Some(_) => true,
        None => {
            false
        }
    }
}


/// The last position where byte `b` occurs in `text`.
pub open spec fn is_last_byte(text: Seq<u8>, b: u8, i: int) -> bool {
    0 <= i < text.len() && text[i] == b && forall|j: int| i < j < text.len() ==> text[j] != b
}

/// Last occurrence of byte `b`.
pub fn rfind_byte(text: &[u8], b: u8) -> (r: Option<usize>)
    ensures
        match r {
            Some(i) => is_last_byte(text@, b, i as int),
            None => forall|j: int| 0 <= j < text@.len() ==> text@[j] != b,
        },
{
    let mut i = text.len();
    while i > 0
        invariant
            i <= text@.len(),
            forall|j: int| i <= j < text@.len() ==> text@[j] != b,
        decreases i,
    {
        i = i - 1;
        if text[i] == b {
            return Some(i);
        }
    }
    None
}

/// First occurrence of byte `b` at or after `from`.
pub fn find_byte_from(text: &[u8], b: u8, from: usize) -> (r: Option<usize>)
    ensures
        match r {
            Some(i) => from <= i < text@.len() && text@[i as int] == b && forall|j: int|
                from <= j < i ==> text@[j] != b,
            None => forall|j: int| from <= j < text@.len() ==> text@[j] != b,
        },
{
    let mut i = from;
    while i < text.len()
        invariant
            from <= i,
            forall|j: int| from <= j < i && j < text@.len() ==> text@[j] != b,
        decreases text@.len() - i,
    {
        if text[i] == b {
            return Some(i);
        }
        i = i + 1;
    }
    None
}

/// Bytes of a string value (its UTF-8 encoding).
pub open spec fn sbytes(s: &str) -> Seq<u8> {
    s.spec_bytes()
}

/// Bytes of an owned string value.
pub open spec fn string_bytes(s: &String) -> Seq<u8> {
    encode_utf8(s@)
}

pub proof fn lemma_encode_injective(a: Seq<char>, b: Seq<char>)
    ensures
        encode_utf8(a) == encode_utf8(b) <==> a == b,
{
    vstd::utf8::encode_utf8_decode_utf8(a);
    vstd::utf8::encode_utf8_decode_utf8(b);
}

/// Byte equality of two slices.
pub fn slices_equal(a: &[u8], b: &[u8]) -> (r: bool)
    ensures
        r == (a@ == b@),
{
    if a.len() != b.len() {
        return false;
    }
    let mut i: usize = 0;
    while i < a.len()
        invariant
            a@.len() == b@.len(),
            i <= a@.len(),
            forall|j: int| 0 <= j < i ==> a@[j] == b@[j],
        decreases a@.len() - i,
    {
        if a[i] != b[i] {
            return false;
        }
        i = i + 1;
    }
    assert(a@ =~= b@);
    true
}

/// String equality, decided on the UTF-8 bytes.
pub fn str_eq(a: &str, b: &str) -> (r: bool)
    ensures
        r == (a@ == b@),
{
    let r = slices_equal(a.as_bytes(), b.as_bytes());
    proof {
        lemma_encode_injective(a@, b@);
    }
    r
}

/// `source.get(start..end)`: the substring between two byte offsets, when both
/// offsets fall on character boundaries.
pub fn text_of(source: &str, start: usize, end: usize) -> (r: Option<&str>)
    ensures
        r is Some <==> (start <= end <= sbytes(source).len() && is_char_boundary(
            sbytes(source),
            start as int,
        ) && is_char_boundary(sbytes(source), end as int)),
        r matches Some(t) ==> sbytes(t) == sbytes(source).subrange(start as int, end as int),
{
    proof {
        vstd::utf8::encode_utf8_valid_utf8(source@);
    }
    let all = source.as_bytes();
    if start > end || end > all.len() {
        return None;
    }
    if !source.is_char_boundary(start) || !source.is_char_boundary(end) {
        return None;
    }
    let (_, rest) = source.split_at(start);
    let ghost bytes = sbytes(source);
    proof {
        vstd::utf8::encode_utf8_valid_utf8(rest@);
        vstd::utf8::is_char_boundary_start_end_of_seq(sbytes(rest));
        let k = (end - start) as int;
        if k < sbytes(rest).len() {
            vstd::utf8::is_char_boundary_iff_not_is_continuation_byte(bytes, end as int);
            vstd::utf8::is_char_boundary_iff_not_is_continuation_byte(sbytes(rest), k);
            assert(sbytes(rest)[k] == bytes[end as int]);
        }
    }
    let (middle, _) = rest.split_at(end - start);
    proof {
        assert(sbytes(middle) =~= bytes.subrange(start as int, end as int));
    }
    Some(middle)
}

/// In valid UTF-8 a continuation byte always follows a non-ASCII byte.
pub proof fn lemma_continuation_after_non_ascii(b: Seq<u8>, j: int)
    requires
        valid_utf8(b),
        0 <= j < b.len(),
        is_continuation_byte(b[j]),
    ensures
        j >= 1,
        b[j - 1] >= 0x80u8,
    decreases b.len(),
{
    let l = length_of_first_scalar(b);
    let rest = pop_first_scalar(b);
    assert(valid_first_scalar(b));
    if j < l {
        assert(j >= 1);
    } else {
        assert(rest.len() == b.len() - l);
        assert(rest[j - l] == b[j]);
        if j == l {
            assert(valid_utf8(rest));
            assert(rest.len() > 0);
            assert(valid_first_scalar(rest));
            assert(false);
        } else {
            lemma_continuation_after_non_ascii(rest, j - l);
            assert(rest[j - l - 1] == b[j - 1]);
        }
    }
}

/// The positions around an ASCII byte of valid UTF-8 are character boundaries.
pub proof fn lemma_ascii_boundaries(b: Seq<u8>, i: int)
    requires
        valid_utf8(b),
        0 <= i < b.len(),
        b[i] < 0x80u8,
    ensures
        is_char_boundary(b, i),
        is_char_boundary(b, i + 1),
{
    is_char_boundary_iff_not_is_continuation_byte(b, i);
    is_char_boundary_start_end_of_seq(b);
    if i + 1 < b.len() {
        is_char_boundary_iff_not_is_continuation_byte(b, i + 1);
        if is_continuation_byte(b[i + 1]) {
            lemma_continuation_after_non_ascii(b, i + 1);
        }
    }
}

/// Appends one character to a string (`String::push`).
#[verifier::external_body]
pub fn push_char(s: &mut String, c: char)
    ensures
        final(s)@ == old(s)@.push(c),
{
    s.push(c);
}

/// `std::str::from_utf8`: a string slice over bytes that are valid UTF-8.
#[verifier::external_body]
pub fn str_from_utf8(bytes: &[u8]) -> (r: Option<&str>)
    ensures
        r is Some <==> valid_utf8(bytes@),
        r matches Some(s) ==> sbytes(s) == bytes@,
{
    std::str::from_utf8(bytes).ok()
}

/// Decimal digits of a natural number, most significant first.
pub open spec fn decimal(n: nat) -> Seq<char>
    decreases n,
{
    if n < 10 {
        seq![digit_char(n)]
    } else {
        decimal(n / 10).push(digit_char(n % 10))
    }
}

pub open spec fn digit_char(d: nat) -> char {
    if d == 0 { '0' }
    else if d == 1 { '1' }
    else if d == 2 { '2' }
    else if d == 3 { '3' }
    else if d == 4 { '4' }
    else if d == 5 { '5' }
    else if d == 6 { '6' }
    else if d == 7 { '7' }
    else if d == 8 { '8' }
    else { '9' }
}

fn digit(d: u64) -> (c: char)
    requires
        d < 10,
    ensures
        c == digit_char(d as nat),
{
    if d == 0 { '0' }
    else if d == 1 { '1' }
    else if d == 2 { '2' }
    else if d == 3 { '3' }
    else if d == 4 { '4' }
    else if d == 5 { '5' }
    else if d == 6 { '6' }
    else if d == 7 { '7' }
    else if d == 8 { '8' }
    else { '9' }
}

/// Appends the decimal representation of `n`.
pub fn push_decimal(s: &mut String, n: u64)
    ensures
        final(s)@ == old(s)@ + decimal(n as nat),
    decreases n,
{
    if n < 10 {
        push_char(s, digit(n));
        assert(decimal(n as nat) =~= seq![digit_char(n as nat)]);
    } else {
        push_decimal(s, n / 10);
        push_char(s, digit(n % 10));
        assert(decimal(n as nat) =~= decimal((n / 10) as nat).push(digit_char((n % 10) as nat)));
    }
}

/// Appends the decimal representation of a 128-bit `n`.
pub fn push_decimal_u128(s: &mut String, n: u128)
    ensures
        final(s)@ == old(s)@ + decimal(n as nat),
    decreases n,
{
    if n < 10 {
        push_char(s, digit(n as u64));
        assert(decimal(n as nat) =~= seq![digit_char(n as nat)]);
    } else {
        push_decimal_u128(s, n / 10);
        push_char(s, digit((n % 10) as u64));
        assert(decimal(n as nat) =~= decimal((n / 10) as nat).push(digit_char((n % 10) as nat)));
    }
}

/// Decimal digits of `n`, zero-padded on the left to at least `width` characters.
pub open spec fn decimal_padded(n: nat, width: nat) -> Seq<char> {
    let d = decimal(n);
    if d.len() >= width {
        d
    } else {
        Seq::new((width - d.len()) as nat, |_i: int| '0') + d
    }
}

proof fn lemma_decimal_len_bound(n: nat, w: nat)
    requires
        n < pow10(w),
        w >= 1,
    ensures
        decimal(n).len() <= w,
    decreases w,
{
    if n >= 10 {
        assert(w > 1) by {
            if w == 1 {
                assert(pow10(1) == 10) by { reveal_with_fuel(pow10, 2); }
            }
        }
        assert(n / 10 < pow10((w - 1) as nat)) by {
            assert(pow10(w) == 10 * pow10((w - 1) as nat));
        }
        lemma_decimal_len_bound(n / 10, (w - 1) as nat);
    }
}

pub open spec fn pow10(w: nat) -> nat
    decreases w,
{
    if w == 0 { 1 } else { 10 * pow10((w - 1) as nat) }
}

/// Number of decimal digits of `n`.
fn decimal_len(n: u64) -> (r: usize)
    ensures
        r == decimal(n as nat).len(),
        r <= 20,
    decreases n,
{
    if n < 10 {
        1
    } else {
        let k = decimal_len(n / 10);
        assert(decimal(n as nat).len() == decimal((n / 10) as nat).len() + 1);
        if k >= 20 {
            // impossible: u64 has at most 20 digits
            proof {
                assert(pow10(19) == 10000000000000000000nat) by { reveal_with_fuel(pow10, 20); }
                lemma_decimal_len_bound((n / 10) as nat, 19);
            }
        }
        k + 1
    }
}

/// Appends `n` in decimal, zero-padded on the left to `width` characters.
pub fn push_decimal_padded(s: &mut String, n: u64, width: usize)
    ensures
        final(s)@ == old(s)@ + decimal_padded(n as nat, width as nat),
{
    let len = decimal_len(n);
    let ghost start = s@;
    if len < width {
        let mut k: usize = 0;
        while k < width - len
            invariant
                len < width,
                k <= width - len,
                s@ == start + Seq::new(k as nat, |_i: int| '0'),
            decreases width - len - k,
        {
            push_char(s, '0');
            k = k + 1;
            assert(s@ =~= start + Seq::new(k as nat, |_i: int| '0'));
        }
    }
    push_decimal(s, n);
    assert(s@ =~= start + decimal_padded(n as nat, width as nat));
}


/// The Unicode `White_Space` characters (what `char::is_whitespace` accepts).
pub open spec fn is_ws(c: char) -> bool {
    ||| ('\u{9}' <= c && c <= '\u{d}')
    ||| c == ' '
    ||| c == '\u{85}'
    ||| c == '\u{a0}'
    ||| c == '\u{1680}'
    ||| ('\u{2000}' <= c && c <= '\u{200a}')
    ||| c == '\u{2028}'
    ||| c == '\u{2029}'
    ||| c == '\u{202f}'
    ||| c == '\u{205f}'
    ||| c == '\u{3000}'
}

pub fn is_whitespace(c: char) -> (r: bool)
    ensures
        r == is_ws(c),
{
    ('\u{9}' <= c && c <= '\u{d}') || c == ' ' || c == '\u{85}' || c == '\u{a0}' || c == '\u{1680}'
        || ('\u{2000}' <= c && c <= '\u{200a}') || c == '\u{2028}' || c == '\u{2029}' || c
        == '\u{202f}' || c == '\u{205f}' || c == '\u{3000}'
}

/// Number of leading whitespace characters.
pub open spec fn leading_ws(s: Seq<char>) -> nat
    decreases s.len(),
{
    if s.len() > 0 && is_ws(s[0]) {
        1 + leading_ws(s.drop_first())
    } else {
        0
    }
}

/// Number of trailing whitespace characters.
pub open spec fn trailing_ws(s: Seq<char>) -> nat
    decreases s.len(),
{
    if s.len() > 0 && is_ws(s.last()) {
        1 + trailing_ws(s.drop_last())
    } else {
        0
    }
}

/// `str::trim`: the text without leading and trailing whitespace.
pub open spec fn trim_chars(s: Seq<char>) -> Seq<char> {
    let a = leading_ws(s);
    let rest = s.subrange(a as int, s.len() as int);
    rest.subrange(0, rest.len() - trailing_ws(rest))
}

pub proof fn lemma_leading_ws(s: Seq<char>, k: int)
    requires
        0 <= k <= s.len(),
        forall|j: int| 0 <= j < k ==> is_ws(s[j]),
    ensures
        leading_ws(s) == k + leading_ws(s.subrange(k, s.len() as int)),
        leading_ws(s) <= s.len(),
    decreases k,
{
    lemma_leading_bound(s);
    if k > 0 {
        lemma_leading_ws(s.drop_first(), k - 1);
        assert(s.drop_first().subrange(k - 1, s.drop_first().len() as int) =~= s.subrange(k, s.len() as int));
    } else {
        assert(s.subrange(0, s.len() as int) =~= s);
    }
}

pub proof fn lemma_leading_bound(s: Seq<char>)
    ensures
        leading_ws(s) <= s.len(),
    decreases s.len(),
{
    if s.len() > 0 && is_ws(s[0]) {
        lemma_leading_bound(s.drop_first());
    }
}

pub proof fn lemma_trailing_ws(s: Seq<char>, k: int)
    requires
        0 <= k <= s.len(),
        forall|j: int| k <= j < s.len() ==> is_ws(s[j]),
    ensures
        trailing_ws(s) == (s.len() - k) + trailing_ws(s.subrange(0, k)),
    decreases s.len() - k,
{
    if k < s.len() {
        lemma_trailing_ws(s.drop_last(), k);
        assert(s.drop_last().subrange(0, k) =~= s.subrange(0, k));
    } else {
        assert(s.subrange(0, k) =~= s);
    }
}

pub proof fn lemma_trailing_bound(s: Seq<char>)
    ensures
        trailing_ws(s) <= s.len(),
    decreases s.len(),
{
    if s.len() > 0 && is_ws(s.last()) {
        lemma_trailing_bound(s.drop_last());
    }
}

/// Trimming never lengthens a text.
pub proof fn lemma_trim_len(s: Seq<char>)
    ensures
        trim_chars(s).len() <= s.len(),
{
    lemma_leading_bound(s);
    let rest = s.subrange(leading_ws(s) as int, s.len() as int);
    lemma_trailing_bound(rest);
}

/// The characters of a string slice.
pub fn chars_of(s: &str) -> (r: Vec<char>)
    ensures
        r@ == s@,
{
    let mut out: Vec<char> = Vec::new();
    for c in it: s.chars()
        invariant
            out@ == it.seq().subrange(0, it.index() as int),
            it.seq() == s@,
    {
        out.push(c);
        assert(out@ =~= it.seq().subrange(0, it.index() + 1));
    }
    out
}

/// Appends a string slice (`String::push_str`).
pub fn push_str(s: &mut String, t: &str)
    ensures
        final(s)@ == old(s)@ + t@,
{
    let ghost s0 = s@;
    for c in it: t.chars()
        invariant
            s@ == s0 + it.seq().subrange(0, it.index() as int),
            it.seq() == t@,
    {
        push_char(s, c);
        assert(s@ =~= s0 + it.seq().subrange(0, it.index() + 1));
    }
}

/// A string made of `cs[start..end]`.
pub fn string_from_chars(cs: &[char], start: usize, end: usize) -> (r: String)
    requires
        start <= end <= cs@.len(),
    ensures
        r@ == cs@.subrange(start as int, end as int),
{
    let mut out = String::new();
    let mut i = start;
    while i < end
        invariant
            start <= i <= end <= cs@.len(),
            out@ == cs@.subrange(start as int, i as int),
        decreases end - i,
    {
        push_char(&mut out, cs[i]);
        i = i + 1;
        assert(out@ =~= cs@.subrange(start as int, i as int));
    }
    out
}

/// Bounds of `trim_chars(cs[start..end])` inside `cs`.
pub fn trim_range(cs: &[char], start: usize, end: usize) -> (r: (usize, usize))
    requires
        start <= end <= cs@.len(),
    ensures
        start <= r.0 <= r.1 <= end,
        cs@.subrange(r.0 as int, r.1 as int) == trim_chars(cs@.subrange(start as int, end as int)),
{
    let ghost s = cs@.subrange(start as int, end as int);
    let mut a = start;
    while a < end && is_whitespace(cs[a])
        invariant
            start <= a <= end <= cs@.len(),
            s == cs@.subrange(start as int, end as int),
            forall|j: int| start <= j < a ==> is_ws(cs@[j]),
        decreases end - a,
    {
        a = a + 1;
    }
    proof {
        lemma_leading_ws(s, a - start);
        if a < end {
            assert(s.subrange(a - start, s.len() as int)[0] == cs@[a as int]);
        }
        assert(leading_ws(s.subrange(a - start, s.len() as int)) == 0);
    }
    let ghost rest = s.subrange(a - start, s.len() as int);
    let mut b = end;
    while b > a && is_whitespace(cs[b - 1])
        invariant
            start <= a <= b <= end <= cs@.len(),
            rest == cs@.subrange(a as int, end as int),
            forall|j: int| b <= j < end ==> is_ws(cs@[j]),
        decreases b,
    {
        b = b - 1;
    }
    proof {
        assert(rest =~= cs@.subrange(a as int, end as int));
        lemma_trailing_ws(rest, b - a);
        if b > a {
            assert(rest.subrange(0, b - a).last() == cs@[b - 1]);
        }
        assert(trailing_ws(rest.subrange(0, b - a)) == 0);
        assert(rest.subrange(0, rest.len() - trailing_ws(rest)) =~= cs@.subrange(a as int, b as int));
    }
    (a, b)
}

/// `str::trim` as an owned string.
pub fn trim_string(s: &str) -> (r: String)
    ensures
        r@ == trim_chars(s@),
{
    let cs = chars_of(s);
    let (a, b) = trim_range(cs.as_slice(), 0, cs.len());
    assert(cs@.subrange(0, cs@.len() as int) =~= cs@);
    string_from_chars(cs.as_slice(), a, b)
}


/// Whether `pat` occurs in `text` at position `i` (characters).
pub fn chars_match_at(text: &[char], pat: &[char], i: usize) -> (r: bool)
    ensures
        r == occurs_at(text@, pat@, i as int),
{
    if i > text.len() || pat.len() > text.len() - i {
        return false;
    }
    let mut k: usize = 0;
    while k < pat.len()
        invariant
            i + pat@.len() <= text@.len(),
            text@.len() == text.len(),
            k <= pat@.len(),
            forall|m: int| 0 <= m < k ==> text@[i + m] == pat@[m],
        decreases pat@.len() - k,
    {
        if text[i + k] != pat[k] {
            assert(text@.subrange(i as int, i + pat@.len())[k as int] != pat@[k as int]);
            return false;
        }
        k = k + 1;
    }
    assert(text@.subrange(i as int, i + pat@.len()) =~= pat@);
    true
}

/// First occurrence of `pat` in `text[from..end]` (entirely inside that range).
pub fn find_chars_in(text: &[char], pat: &[char], from: usize, end: usize) -> (r: Option<usize>)
    requires
        from <= end <= text@.len(),
    ensures
        match r {
            Some(i) => is_first_occurrence_from(text@.subrange(0, end as int), pat@, from as int, i as int),
            None => no_occurrence_from(text@.subrange(0, end as int), pat@, from as int),
        },
{
    let ghost t = text@.subrange(0, end as int);
    let window = vstd::slice::slice_subrange(text, 0, end);
    let mut i = from;
    while i < end
        invariant
            from <= i,
            end <= text@.len(),
            window@ == t,
            t == text@.subrange(0, end as int),
            t.len() == end,
            forall|j: int| from <= j < i ==> !occurs_at(t, pat@, j),
        decreases end - i,
    {
        if chars_match_at(window, pat, i) {
            return Some(i);
        }
        i = i + 1;
    }
    if chars_match_at(window, pat, i) {
        return Some(i);
    }
    None
}

/// The first position at or after `from` where `pat` occurs, or -1.
pub open spec fn first_from<T>(t: Seq<T>, pat: Seq<T>, from: int) -> int
    decreases t.len() - from,
{
    if from < 0 || from + pat.len() > t.len() {
        -1
    } else if occurs_at(t, pat, from) {
        from
    } else if from >= t.len() {
        -1
    } else {
        first_from(t, pat, from + 1)
    }
}

/// `first_from` finds an occurrence inside the searched range, or none.
pub proof fn lemma_first_from_bounds<T>(t: Seq<T>, pat: Seq<T>, from: int)
    ensures
        first_from(t, pat, from) == -1 || (from <= first_from(t, pat, from) && occurs_at(
            t,
            pat,
            first_from(t, pat, from),
        )),
    decreases t.len() - from,
{
    if from < 0 || from + pat.len() > t.len() {
    } else if occurs_at(t, pat, from) {
    } else if from >= t.len() {
    } else {
        lemma_first_from_bounds(t, pat, from + 1);
    }
}

/// `first_from` agrees with the first-occurrence predicates.
pub proof fn lemma_first_from<T>(t: Seq<T>, pat: Seq<T>, from: int)
    requires
        0 <= from,
    ensures
        forall|i: int| is_first_occurrence_from(t, pat, from, i) ==> first_from(t, pat, from) == i,
        no_occurrence_from(t, pat, from) ==> first_from(t, pat, from) == -1,
    decreases t.len() - from,
{
    if from + pat.len() > t.len() {
        assert forall|i: int| is_first_occurrence_from(t, pat, from, i) implies first_from(t, pat, from) == i by {
            assert(occurs_at(t, pat, i));
        }
    } else if occurs_at(t, pat, from) {
    } else if from >= t.len() {
        assert(t.subrange(from, from) =~= pat);
    } else {
        lemma_first_from(t, pat, from + 1);
        assert forall|i: int| is_first_occurrence_from(t, pat, from, i) implies first_from(t, pat, from) == i by {
            assert(i != from);
            assert(is_first_occurrence_from(t, pat, from + 1, i));
        }
        if no_occurrence_from(t, pat, from) {
            assert(no_occurrence_from(t, pat, from + 1));
        }
    }
}

/// `first_from` is at or before every occurrence at or after `from`.
pub proof fn lemma_first_from_is_first<T>(t: Seq<T>, pat: Seq<T>, from: int, q: int)
    requires
        0 <= from <= q,
        occurs_at(t, pat, q),
    ensures
        0 <= first_from(t, pat, from) <= q,
    decreases q - from,
{
    if from + pat.len() > t.len() {
    } else if occurs_at(t, pat, from) {
    } else if from >= t.len() {
    } else {
        lemma_first_from_is_first(t, pat, from + 1, q);
    }
}

} // verus!
