//! Byte-level text helpers shared by the parsers: searching, splitting,
//! trimming and reading unsigned numbers.

use vstd::prelude::*;

verus! {

/// `pat` stands in `s` starting at index `i`.
pub open spec fn occurs_at(s: Seq<u8>, pat: Seq<u8>, i: int) -> bool {
    0 <= i && i + pat.len() <= s.len() && s.subrange(i, i + pat.len()) == pat
}

/// The first index at or after `i` where `pat` occurs in `s`.
pub open spec fn find_from(s: Seq<u8>, pat: Seq<u8>, i: int) -> Option<int>
    decreases s.len() + 1 - i,
{
    if i < 0 || i + pat.len() > s.len() {
        None
    } else if occurs_at(s, pat, i) {
        Some(i)
    } else {
        find_from(s, pat, i + 1)
    }
}

/// What a successful search yields: a match, at or after where it began.
pub proof fn lemma_find_from(s: Seq<u8>, pat: Seq<u8>, i: int)
    ensures
        match find_from(s, pat, i) {
            Some(k) => i <= k && occurs_at(s, pat, k),
            None => true,
        },
    decreases s.len() + 1 - i,
{
    if !(i < 0 || i + pat.len() > s.len()) && !occurs_at(s, pat, i) {
        lemma_find_from(s, pat, i + 1);
    }
}

/// A search that found nothing saw no match anywhere it looked.
pub proof fn lemma_find_from_none(s: Seq<u8>, pat: Seq<u8>, i: int, j: int)
    requires
        find_from(s, pat, i).is_none(),
        0 <= i <= j,
    ensures
        !occurs_at(s, pat, j),
    decreases j - i,
{
    if i < j && !(i + pat.len() > s.len()) {
        lemma_find_from_none(s, pat, i + 1, j);
    }
}

/// A search finds the first match past a stretch without one.
pub proof fn lemma_find_from_first(s: Seq<u8>, pat: Seq<u8>, i: int, k: int)
    requires
        0 <= i <= k,
        occurs_at(s, pat, k),
        forall|j: int| i <= j < k ==> !occurs_at(s, pat, j),
    ensures
        find_from(s, pat, i) == Some(k),
    decreases k - i,
{
    if i < k {
        lemma_find_from_first(s, pat, i + 1, k);
    }
}

/// Splitting `s` once, at the first occurrence of `pat`: the part before, and
/// the part after when `pat` occurs at all.
pub open spec fn split2(s: Seq<u8>, pat: Seq<u8>) -> (Seq<u8>, Option<Seq<u8>>) {
    match find_from(s, pat, 0) {
        Some(i) => (s.subrange(0, i), Some(s.subrange(i + pat.len(), s.len() as int))),
        None => (s, None),
    }
}

fn occurs_here(s: &[u8], pat: &[u8], i: usize) -> (r: bool)
    requires
        i + pat@.len() <= s@.len(),
    ensures
        r == occurs_at(s@, pat@, i as int),
{
    let n = s.len();
    let mut j: usize = 0;
    while j < pat.len()
        invariant
            n == s@.len(),
            i + pat@.len() <= s@.len(),
            j <= pat@.len(),
            forall|k: int| 0 <= k < j ==> s@[i + k] == pat@[k],
        decreases pat@.len() - j,
    {
        if s[i + j] != pat[j] {
            assert(s@.subrange(i as int, i + pat@.len())[j as int] != pat@[j as int]);
            return false;
        }
        j = j + 1;
    }
    assert(s@.subrange(i as int, i + pat@.len()) =~= pat@);
    true
}

/// The first index at or after `from` where `pat` occurs in `s`.
pub fn find(s: &[u8], pat: &[u8], from: usize) -> (r: Option<usize>)
    requires
        pat@.len() > 0,
    ensures
        match r {
            Some(k) => find_from(s@, pat@, from as int) == Some(k as int),
            None => find_from(s@, pat@, from as int).is_none(),
        },
{
    let mut i = from;
    while i <= s.len() && pat.len() <= s.len() - i
        invariant
            pat@.len() > 0,
            from <= i,
            find_from(s@, pat@, from as int) == find_from(s@, pat@, i as int),
        decreases s@.len() + 1 - i,
    {
        if occurs_here(s, pat, i) {
            return Some(i);
        }
        i = i + 1;
    }
    None
}

/// The bytes `s[a..b]` as a vector of their own.
pub fn copy_range(s: &[u8], a: usize, b: usize) -> (r: Vec<u8>)
    requires
        a <= b <= s@.len(),
    ensures
        r@ == s@.subrange(a as int, b as int),
{
    let mut r: Vec<u8> = Vec::new();
    let mut i = a;
    while i < b
        invariant
            a <= i <= b <= s@.len(),
            r@ == s@.subrange(a as int, i as int),
        decreases b - i,
    {
        r.push(s[i]);
        i = i + 1;
        assert(r@ =~= s@.subrange(a as int, i as int));
    }
    r
}

/// The bytes of `s` as a vector of their own.
pub fn copy_all(s: &[u8]) -> (r: Vec<u8>)
    ensures
        r@ == s@,
{
    let r = copy_range(s, 0, s.len());
    assert(r@ =~= s@);
    r
}

/// Splits `s` at the first occurrence of `pat`.
pub fn split_once(s: &[u8], pat: &[u8]) -> (r: (Vec<u8>, Option<Vec<u8>>))
    requires
        pat@.len() > 0,
    ensures
        r.0@ == split2(s@, pat@).0,
        match r.1 {
            Some(v) => split2(s@, pat@).1 == Some(v@),
            None => split2(s@, pat@).1.is_none(),
        },
{
    let n = s.len();
    match find(s, pat, 0) {
        Some(i) => {
            proof {
                lemma_find_from(s@, pat@, 0);
            }
            (copy_range(s, 0, i), Some(copy_range(s, i + pat.len(), n)))
        },
        None => {
            let all = copy_range(s, 0, n);
            assert(all@ =~= s@);
            (all, None)
        },
    }
}

/// ASCII whitespace: space, tab, line feed, vertical tab, form feed and
/// carriage return.
pub open spec fn is_space(c: u8) -> bool {
    c == 32 || (9 <= c && c <= 13)
}

/// The two-byte UTF-8 forms of whitespace: U+0085 and U+00A0.
pub open spec fn is_space2(a: u8, b: u8) -> bool {
    a == 0xC2 && (b == 0x85 || b == 0xA0)
}

/// The three-byte UTF-8 forms of whitespace: U+1680, U+2000 to U+200A,
/// U+2028, U+2029, U+202F, U+205F and U+3000.
pub open spec fn is_space3(a: u8, b: u8, c: u8) -> bool {
    (a == 0xE1 && b == 0x9A && c == 0x80) || (a == 0xE2 && b == 0x80 && ((0x80 <= c && c
        <= 0x8A) || c == 0xA8 || c == 0xA9 || c == 0xAF)) || (a == 0xE2 && b == 0x81 && c == 0x9F)
        || (a == 0xE3 && b == 0x80 && c == 0x80)
}

/// The length of the whitespace character (Unicode's White_Space, in
/// UTF-8) that starts at index `i` of `s`; 0 when none does.
pub open spec fn space_at(s: Seq<u8>, i: int) -> int {
    if 0 <= i && i + 1 <= s.len() && is_space(s[i]) {
        1
    } else if 0 <= i && i + 2 <= s.len() && is_space2(s[i], s[i + 1]) {
        2
    } else if 0 <= i && i + 3 <= s.len() && is_space3(s[i], s[i + 1], s[i + 2]) {
        3
    } else {
        0
    }
}

/// The length of the whitespace character that ends just before index `j`
/// of `s`; 0 when none does.
pub open spec fn space_before(s: Seq<u8>, j: int) -> int {
    if 1 <= j <= s.len() && is_space(s[j - 1]) {
        1
    } else if 2 <= j <= s.len() && is_space2(s[j - 2], s[j - 1]) {
        2
    } else if 3 <= j <= s.len() && is_space3(s[j - 3], s[j - 2], s[j - 1]) {
        3
    } else {
        0
    }
}

/// The length of the whitespace character at index `i` of `s`.
pub fn space_len_at(s: &[u8], i: usize) -> (r: usize)
    requires
        i <= s@.len(),
    ensures
        r as int == space_at(s@, i as int),
        r <= 3,
{
    let n = s.len();
    let left = n - i;
    if left >= 1 && (s[i] == 32 || (9 <= s[i] && s[i] <= 13)) {
        1
    } else if left >= 2 && s[i] == 0xC2 && (s[i + 1] == 0x85 || s[i + 1] == 0xA0) {
        2
    } else if left >= 3 && ((s[i] == 0xE1 && s[i + 1] == 0x9A && s[i + 2] == 0x80) || (s[i]
        == 0xE2 && s[i + 1] == 0x80 && ((0x80 <= s[i + 2] && s[i + 2] <= 0x8A) || s[i + 2]
        == 0xA8 || s[i + 2] == 0xA9 || s[i + 2] == 0xAF)) || (s[i] == 0xE2 && s[i + 1] == 0x81
        && s[i + 2] == 0x9F) || (s[i] == 0xE3 && s[i + 1] == 0x80 && s[i + 2] == 0x80)) {
        3
    } else {
        0
    }
}

/// The length of the whitespace character that ends just before index `j`
/// of `s`.
pub fn space_len_before(s: &[u8], j: usize) -> (r: usize)
    requires
        j <= s@.len(),
    ensures
        r as int == space_before(s@, j as int),
        r <= j,
{
    if j >= 1 && (s[j - 1] == 32 || (9 <= s[j - 1] && s[j - 1] <= 13)) {
        1
    } else if j >= 2 && s[j - 2] == 0xC2 && (s[j - 1] == 0x85 || s[j - 1] == 0xA0) {
        2
    } else if j >= 3 && ((s[j - 3] == 0xE1 && s[j - 2] == 0x9A && s[j - 1] == 0x80) || (s[j - 3]
        == 0xE2 && s[j - 2] == 0x80 && ((0x80 <= s[j - 1] && s[j - 1] <= 0x8A) || s[j - 1]
        == 0xA8 || s[j - 1] == 0xA9 || s[j - 1] == 0xAF)) || (s[j - 3] == 0xE2 && s[j - 2]
        == 0x81 && s[j - 1] == 0x9F) || (s[j - 3] == 0xE3 && s[j - 2] == 0x80 && s[j - 1]
        == 0x80)) {
        3
    } else {
        0
    }
}

/// Where `s` starts once the whitespace at and after index `a` is skipped.
pub open spec fn trim_start_at(s: Seq<u8>, a: int) -> int
    decreases s.len() - a,
{
    if 0 <= a <= s.len() && space_at(s, a) > 0 {
        trim_start_at(s, a + space_at(s, a))
    } else {
        a
    }
}

/// Where `s[a..b]` ends once the whitespace before index `b` is dropped.
pub open spec fn trim_end_at(s: Seq<u8>, a: int, b: int) -> int
    decreases b - a,
{
    if a <= b - space_before(s, b) && space_before(s, b) > 0 {
        trim_end_at(s, a, b - space_before(s, b))
    } else {
        b
    }
}

/// `s` without leading and trailing whitespace, as `str::trim` has it: the
/// ASCII whitespace bytes and the UTF-8 forms of Unicode's other
/// whitespace characters (see `space_at`).
pub open spec fn trim(s: Seq<u8>) -> Seq<u8> {
    let a = trim_start_at(s, 0);
    s.subrange(a, trim_end_at(s, a, s.len() as int))
}

/// `s` without leading and trailing whitespace (see `trim`).
pub fn trim_bytes(s: &[u8]) -> (r: Vec<u8>)
    ensures
        r@ == trim(s@),
{
    let n = s.len();
    let mut a: usize = 0;
    loop
        invariant
            n == s@.len(),
            a <= n,
            trim_start_at(s@, 0) == trim_start_at(s@, a as int),
        ensures
            a <= n,
            a == trim_start_at(s@, 0),
        decreases n - a,
    {
        let k = space_len_at(s, a);
        if k == 0 {
            break;
        }
        a = a + k;
    }
    let mut b: usize = n;
    loop
        invariant
            n == s@.len(),
            a <= b <= n,
            a == trim_start_at(s@, 0),
            trim_end_at(s@, a as int, n as int) == trim_end_at(s@, a as int, b as int),
        ensures
            a <= b <= n,
            b == trim_end_at(s@, a as int, n as int),
        decreases b - a,
    {
        let k = space_len_before(s, b);
        if k == 0 || b - k < a {
            break;
        }
        b = b - k;
    }
    copy_range(s, a, b)
}

/// The value of a digit byte, in any radix up to 16.
pub open spec fn digit_value(c: u8) -> int {
    if 48 <= c && c <= 57 {
        c - 48
    } else if 97 <= c && c <= 102 {
        c - 97 + 10
    } else if 65 <= c && c <= 70 {
        c - 65 + 10
    } else {
        99
    }
}

pub open spec fn is_digit(c: u8, radix: int) -> bool {
    digit_value(c) < radix
}

pub open spec fn all_digits(s: Seq<u8>, radix: int) -> bool {
    forall|i: int| 0 <= i < s.len() ==> is_digit(#[trigger] s[i], radix)
}

/// The number that the digits `s` write in base `radix`.
pub open spec fn digits_value(s: Seq<u8>, radix: int) -> int
    decreases s.len(),
{
    if s.len() == 0 {
        0
    } else {
        digits_value(s.drop_last(), radix) * radix + digit_value(s.last())
    }
}

/// The digits of a number: the text, less one leading `+`.
pub open spec fn number_digits(s: Seq<u8>) -> Seq<u8> {
    if s.len() > 0 && s[0] == 43 {
        s.drop_first()
    } else {
        s
    }
}

/// An unsigned number in base `radix`, at most `max`: an optional `+`, then
/// one digit or more, nothing else.
pub open spec fn parse_unsigned(s: Seq<u8>, radix: int, max: int) -> Option<int> {
    let d = number_digits(s);
    if d.len() > 0 && all_digits(d, radix) && digits_value(d, radix) <= max {
        Some(digits_value(d, radix))
    } else {
        None
    }
}

proof fn lemma_digits_nonneg(s: Seq<u8>, radix: int)
    requires
        2 <= radix,
    ensures
        0 <= digits_value(s, radix),
    decreases s.len(),
{
    if s.len() > 0 {
        lemma_digits_nonneg(s.drop_last(), radix);
        let v = digits_value(s.drop_last(), radix);
        assert(v * radix >= 0) by (nonlinear_arith)
            requires
                v >= 0,
                radix >= 2,
        ;
    }
}

proof fn lemma_digits_grow(s: Seq<u8>, radix: int, j: int, k: int)
    requires
        2 <= radix,
        0 <= j <= k <= s.len(),
        all_digits(s, radix),
    ensures
        digits_value(s.subrange(0, j), radix) <= digits_value(s.subrange(0, k), radix),
    decreases k - j,
{
    if j < k {
        lemma_digits_grow(s, radix, j, k - 1);
        assert(s.subrange(0, k).drop_last() =~= s.subrange(0, k - 1));
        lemma_digits_nonneg(s.subrange(0, k - 1), radix);
        let v = digits_value(s.subrange(0, k - 1), radix);
        assert(v * radix >= v) by (nonlinear_arith)
            requires
                v >= 0,
                radix >= 2,
        ;
        assert(is_digit(s[k - 1], radix));
    }
}

/// Reads an unsigned number in base `radix` (10 or 16) that is at most `max`.
pub fn parse_number(s: &[u8], radix: u64, max: u64) -> (r: Option<u64>)
    requires
        radix == 10 || radix == 16,
    ensures
        match r {
            Some(v) => parse_unsigned(s@, radix as int, max as int) == Some(v as int),
            None => parse_unsigned(s@, radix as int, max as int).is_none(),
        },
{
    let n = s.len();
    let start: usize = if n > 0 && s[0] == 43 { 1 } else { 0 };
    let ghost d = number_digits(s@);
    assert(d =~= s@.subrange(start as int, n as int));
    if start >= n {
        return None;
    }
    let mut value: u64 = 0;
    let mut i: usize = start;
    while i < n
        invariant
            n == s@.len(),
            start <= i <= n,
            radix == 10 || radix == 16,
            d == s@.subrange(start as int, n as int),
            d == number_digits(s@),
            all_digits(d.subrange(0, i - start), radix as int),
            value as int == digits_value(d.subrange(0, i - start), radix as int),
            value <= max,
        decreases n - i,
    {
        let c = s[i];
        let dv: u64 = if 48 <= c && c <= 57 {
            (c - 48) as u64
        } else if 97 <= c && c <= 102 {
            (c - 97 + 10) as u64
        } else if 65 <= c && c <= 70 {
            (c - 65 + 10) as u64
        } else {
            99
        };
        assert(c == d[i - start]);
        if dv >= radix {
            assert(!is_digit(d[i - start], radix as int));
            assert(!all_digits(d, radix as int));
            return None;
        }
        let ghost p = d.subrange(0, i - start + 1);
        assert(p.drop_last() =~= d.subrange(0, i - start));
        assert(all_digits(p, radix as int)) by {
            assert forall|k: int| 0 <= k < p.len() implies is_digit(#[trigger] p[k], radix as int) by {
                if k < p.len() - 1 {
                    assert(p[k] == d.subrange(0, i - start)[k]);
                }
            }
        }
        assert(p.last() == c);
        assert(digits_value(p, radix as int) == value * radix + dv);
        let next = match value.checked_mul(radix) {
            Some(m) => m.checked_add(dv),
            None => None,
        };
        match next {
            Some(v) if v <= max => {
                value = v;
                i = i + 1;
            },
            _ => {
                assert(digits_value(p, radix as int) > max);
                proof {
                    if all_digits(d, radix as int) {
                        lemma_digits_grow(d, radix as int, i - start + 1, d.len() as int);
                        assert(d.subrange(0, d.len() as int) =~= d);
                    }
                }
                return None;
            },
        }
    }
    assert(d.subrange(0, i - start) =~= d);
    Some(value)
}

/// Skips the whitespace (see `space_at`) at and after `i`.
pub open spec fn skip_spaces(s: Seq<u8>, i: int) -> int
    decreases s.len() - i,
{
    if 0 <= i < s.len() && space_at(s, i) > 0 {
        skip_spaces(s, i + space_at(s, i))
    } else {
        i
    }
}

/// Skips the word at and after `i`.
pub open spec fn skip_word(s: Seq<u8>, i: int) -> int
    decreases s.len() - i,
{
    if 0 <= i < s.len() && space_at(s, i) == 0 {
        skip_word(s, i + 1)
    } else {
        i
    }
}

/// The `n`-th whitespace-separated word of `s` after index `i`, counting from 0.
pub open spec fn nth_word_from(s: Seq<u8>, i: int, n: nat) -> Option<Seq<u8>>
    decreases n,
{
    let a = skip_spaces(s, i);
    if a >= s.len() {
        None
    } else if n == 0 {
        Some(s.subrange(a, skip_word(s, a)))
    } else {
        nth_word_from(s, skip_word(s, a), (n - 1) as nat)
    }
}

/// The `n`-th word of `s`, counting from 0, as `str::split_whitespace` has
/// it: words are separated by whitespace as `space_at` gives it.
pub open spec fn nth_word(s: Seq<u8>, n: nat) -> Option<Seq<u8>> {
    nth_word_from(s, 0, n)
}

/// The start and end of the first word at or after `i`; both are the length
/// of `s` when no word is left.
pub fn next_word(s: &[u8], i: usize) -> (r: (usize, usize))
    requires
        i <= s@.len(),
    ensures
        r.0 as int == skip_spaces(s@, i as int),
        r.1 as int == skip_word(s@, r.0 as int),
        i <= r.0 <= r.1 <= s@.len(),
{
    let n = s.len();
    let mut a = i;
    loop
        invariant
            n == s@.len(),
            i <= a <= n,
            skip_spaces(s@, i as int) == skip_spaces(s@, a as int),
        ensures
            i <= a <= n,
            a == skip_spaces(s@, i as int),
        decreases n - a,
    {
        if a >= n {
            break;
        }
        let k = space_len_at(s, a);
        if k == 0 {
            break;
        }
        a = a + k;
    }
    let mut b = a;
    while b < n && space_len_at(s, b) == 0
        invariant
            n == s@.len(),
            a <= b <= n,
            skip_word(s@, a as int) == skip_word(s@, b as int),
        decreases n - b,
    {
        b = b + 1;
    }
    (a, b)
}

/// The decimal digits of `n`, without leading zeros.
pub open spec fn decimal(n: nat) -> Seq<u8>
    decreases n,
{
    if n < 10 {
        seq![(48 + n) as u8]
    } else {
        decimal(n / 10) + seq![(48 + n % 10) as u8]
    }
}

/// Appends the decimal digits of `n` to `out`.
pub fn push_decimal(out: &mut Vec<u8>, n: u64)
    ensures
        final(out)@ == old(out)@ + decimal(n as nat),
    decreases n,
{
    if n >= 10 {
        push_decimal(out, n / 10);
    }
    out.push((48 + n % 10) as u8);
    assert(final(out)@ =~= old(out)@ + decimal(n as nat));
}

/// Appends the bytes of `s` to `out`.
pub fn push_all(out: &mut Vec<u8>, s: &[u8])
    ensures
        final(out)@ == old(out)@ + s@,
{
    let n = s.len();
    let mut i: usize = 0;
    while i < n
        invariant
            n == s@.len(),
            i <= n,
            out@ == old(out)@ + s@.subrange(0, i as int),
        decreases n - i,
    {
        out.push(s[i]);
        i = i + 1;
        assert(out@ =~= old(out)@ + s@.subrange(0, i as int));
    }
    assert(s@.subrange(0, n as int) =~= s@);
}

/// Whether `a` and `b` hold the same bytes.
pub fn same_bytes(a: &[u8], b: &[u8]) -> (r: bool)
    ensures
        r == (a@ == b@),
{
    if a.len() != b.len() {
        return false;
    }
    let n = a.len();
    let mut i: usize = 0;
    while i < n
        invariant
            n == a@.len() == b@.len(),
            i <= n,
            forall|k: int| 0 <= k < i ==> a@[k] == b@[k],
        decreases n - i,
    {
        if a[i] != b[i] {
            return false;
        }
        i = i + 1;
    }
    assert(a@ =~= b@);
    true
}

/// Whether `s` starts with the bytes of `p`.
pub fn starts_with(s: &[u8], p: &[u8]) -> (r: bool)
    ensures
        r == (p@.len() <= s@.len() && s@.subrange(0, p@.len() as int) == p@),
{
    if p.len() > s.len() {
        return false;
    }
    occurs_here(s, p, 0)
}

/// The value paired with the first occurrence of `key`, if any.
pub open spec fn lookup(pairs: Seq<(Seq<u8>, Seq<u8>)>, key: Seq<u8>) -> Option<Seq<u8>>
    decreases pairs.len(),
{
    if pairs.len() == 0 {
        None
    } else if pairs[0].0 == key {
        Some(pairs[0].1)
    } else {
        lookup(pairs.drop_first(), key)
    }
}

/// The text that `String::from_utf8_lossy` makes of `b`: its characters,
/// with each invalid sequence replaced by U+FFFD.
pub uninterp spec fn lossy_text(b: Seq<u8>) -> Seq<char>;

/// Relies on `String::from_utf8_lossy`: the result depends on the bytes
/// alone, and valid UTF-8 is decoded as it stands.
#[verifier::external_body]
pub fn utf8_lossy(b: &[u8]) -> (r: String)
    ensures
        r@ == lossy_text(b@),
        vstd::utf8::valid_utf8(b@) ==> r@ == vstd::utf8::decode_utf8(b@),
{
    String::from_utf8_lossy(b).into_owned()
}

} // verus!
