//! Character-level scanning over a line held as a sequence of `char`s.
use vstd::prelude::*;

verus! {

/// The classes of characters that the log grammars are built from.
#[derive(Clone, Copy, PartialEq, Eq, Debug)]
pub enum CharClass {
    /// ASCII whitespace: space, tab, line feed, carriage return, vertical tab, form feed.
    Space,
    /// ASCII decimal digit.
    Digit,
    /// ASCII letter, digit or underscore.
    Word,
    /// ASCII decimal digit or `.`.
    DottedDigit,
}

pub open spec fn is_space(c: char) -> bool {
    c == ' ' || c == '\t' || c == '\n' || c == '\r' || c == '\x0B' || c == '\x0C'
}

pub open spec fn is_digit(c: char) -> bool {
    '0' <= c && c <= '9'
}

pub open spec fn in_class(c: char, k: CharClass) -> bool {
    match k {
        CharClass::Space => is_space(c),
        CharClass::Digit => is_digit(c),
        CharClass::Word => is_digit(c) || ('a' <= c && c <= 'z') || ('A' <= c && c <= 'Z')
            || c == '_',
        CharClass::DottedDigit => is_digit(c) || c == '.',
    }
}

pub fn char_in_class(c: char, k: CharClass) -> (r: bool)
    ensures
        r == in_class(c, k),
{
    match k {
        CharClass::Space => c == ' ' || c == '\t' || c == '\n' || c == '\r' || c == '\x0B'
            || c == '\x0C',
        CharClass::Digit => '0' <= c && c <= '9',
        CharClass::Word => ('0' <= c && c <= '9') || ('a' <= c && c <= 'z') || ('A' <= c && c
            <= 'Z') || c == '_',
        CharClass::DottedDigit => ('0' <= c && c <= '9') || c == '.',
    }
}

/// End of the longest run of class `k` that starts at `i`.
pub open spec fn span_end(s: Seq<char>, i: int, k: CharClass) -> int
    decreases s.len() - i,
{
    if 0 <= i < s.len() && in_class(s[i], k) {
        span_end(s, i + 1, k)
    } else {
        i
    }
}

/// Start of the longest run of class `k` that ends just before `j`.
pub open spec fn span_start(s: Seq<char>, j: int, k: CharClass) -> int
    decreases j,
{
    if 0 < j <= s.len() && in_class(s[j - 1], k) {
        span_start(s, j - 1, k)
    } else {
        j
    }
}

/// First position at or after `i` that holds `c`, or the length when there is none.
pub open spec fn find_char(s: Seq<char>, i: int, c: char) -> int
    decreases s.len() - i,
{
    if i < 0 || i >= s.len() {
        s.len() as int
    } else if s[i] == c {
        i
    } else {
        find_char(s, i + 1, c)
    }
}

/// `lit` stands in `s` from position `i` on.
pub open spec fn matches_at(s: Seq<char>, i: int, lit: Seq<char>) -> bool {
    0 <= i && i + lit.len() <= s.len() && s.subrange(i, i + lit.len()) == lit
}

/// The part of `s[lo..hi]` without whitespace at either end, as a pair of positions.
pub open spec fn trimmed(s: Seq<char>, lo: int, hi: int) -> (int, int) {
    let a = span_end(s, lo, CharClass::Space);
    if a >= hi {
        (hi, hi)
    } else {
        (a, span_start(s, hi, CharClass::Space))
    }
}

/// `s[lo..hi]` without surrounding whitespace.
pub open spec fn trim_of(s: Seq<char>, lo: int, hi: int) -> Seq<char> {
    s.subrange(trimmed(s, lo, hi).0, trimmed(s, lo, hi).1)
}

/// The number that a run of decimal digits writes.
pub open spec fn digits_value(s: Seq<char>) -> nat
    decreases s.len(),
{
    if s.len() == 0 {
        0
    } else {
        (digits_value(s.drop_last()) * 10 + (s.last() as int - '0' as int)) as nat
    }
}

/// After a non-empty run of digits from `i`, the character `c`: the position past `c`.
pub open spec fn number_then(s: Seq<char>, i: int, c: char) -> Option<int> {
    let a = span_end(s, i, CharClass::Digit);
    if 0 <= i && a > i && a < s.len() && s[a] == c {
        Some(a + 1)
    } else {
        None
    }
}

/// A non-empty run of digits from `i`: its end.
pub open spec fn number_end(s: Seq<char>, i: int) -> Option<int> {
    let a = span_end(s, i, CharClass::Digit);
    if 0 <= i && a > i {
        Some(a)
    } else {
        None
    }
}

/// Four runs of digits joined by three dots, from `i`: the end of the address.
pub open spec fn ipv4_end(s: Seq<char>, i: int) -> Option<int> {
    match number_then(s, i, '.') {
        Some(a) => match number_then(s, a, '.') {
            Some(b) => match number_then(s, b, '.') {
                Some(c) => number_end(s, c),
                None => None,
            },
            None => None,
        },
        None => None,
    }
}

/// Three runs of digits joined by two colons (`hh:mm:ss`), from `i`: the end of the time.
pub open spec fn clock_end(s: Seq<char>, i: int) -> Option<int> {
    match number_then(s, i, ':') {
        Some(a) => match number_then(s, a, ':') {
            Some(b) => number_end(s, b),
            None => None,
        },
        None => None,
    }
}

pub open spec fn opt_int(o: Option<usize>) -> Option<int> {
    match o {
        Some(x) => Some(x as int),
        None => None,
    }
}

pub proof fn lemma_span_end_bounds(s: Seq<char>, i: int, k: CharClass)
    requires
        0 <= i <= s.len(),
    ensures
        i <= span_end(s, i, k) <= s.len(),
        forall|j: int| i <= j < span_end(s, i, k) ==> in_class(#[trigger] s[j], k),
        span_end(s, i, k) < s.len() ==> !in_class(s[span_end(s, i, k)], k),
    decreases s.len() - i,
{
    if i < s.len() && in_class(s[i], k) {
        lemma_span_end_bounds(s, i + 1, k);
    }
}

pub proof fn lemma_span_start_bounds(s: Seq<char>, j: int, k: CharClass)
    requires
        0 <= j <= s.len(),
    ensures
        0 <= span_start(s, j, k) <= j,
        forall|i: int| span_start(s, j, k) <= i < j ==> in_class(#[trigger] s[i], k),
    decreases j,
{
    if 0 < j && in_class(s[j - 1], k) {
        lemma_span_start_bounds(s, j - 1, k);
    }
}

/// The characters of `line`, one by one.
pub fn chars_of(line: &str) -> (v: Vec<char>)
    ensures
        v@ == line@,
{
    let n = line.unicode_len();
    let mut v: Vec<char> = Vec::new();
    let mut i: usize = 0;
    while i < n
        invariant
            n == line@.len(),
            i <= n,
            v@ == line@.subrange(0, i as int),
        decreases n - i,
    {
        v.push(line.get_char(i));
        i = i + 1;
        assert(v@ =~= line@.subrange(0, i as int));
    }
    assert(v@ =~= line@);
    v
}

/// `line[lo..hi]`, counted in characters, as a string.
pub fn string_of(line: &str, lo: usize, hi: usize) -> (r: String)
    requires
        lo <= hi <= line@.len(),
    ensures
        r@ == line@.subrange(lo as int, hi as int),
{
    line.substring_char(lo, hi).to_owned()
}

pub fn scan_end(v: &Vec<char>, i: usize, k: CharClass) -> (r: usize)
    requires
        i <= v.len(),
    ensures
        r as int == span_end(v@, i as int, k),
        i <= r <= v.len(),
{
    let mut j = i;
    while j < v.len() && char_in_class(v[j], k)
        invariant
            i <= j <= v.len(),
            span_end(v@, j as int, k) == span_end(v@, i as int, k),
        decreases v.len() - j,
    {
        j = j + 1;
    }
    j
}

pub fn scan_start(v: &Vec<char>, j: usize, k: CharClass) -> (r: usize)
    requires
        j <= v.len(),
    ensures
        r as int == span_start(v@, j as int, k),
        r <= j,
{
    let mut i = j;
    while i > 0 && char_in_class(v[i - 1], k)
        invariant
            i <= j <= v.len(),
            span_start(v@, i as int, k) == span_start(v@, j as int, k),
        decreases i,
    {
        i = i - 1;
    }
    i
}

pub fn find_from(v: &Vec<char>, i: usize, c: char) -> (r: usize)
    requires
        i <= v.len(),
    ensures
        r as int == find_char(v@, i as int, c),
        i <= r <= v.len(),
{
    let mut j = i;
    while j < v.len() && v[j] != c
        invariant
            i <= j <= v.len(),
            find_char(v@, j as int, c) == find_char(v@, i as int, c),
        decreases v.len() - j,
    {
        j = j + 1;
    }
    j
}

pub fn literal_at(v: &Vec<char>, i: usize, lit: &str) -> (r: bool)
    ensures
        r == matches_at(v@, i as int, lit@),
{
    let n = lit.unicode_len();
    if n > v.len() || i > v.len() - n {
        return false;
    }
    let mut j: usize = 0;
    while j < n
        invariant
            n == lit@.len(),
            i + n <= v.len(),
            j <= n,
            forall|t: int| 0 <= t < j ==> v@[i + t] == lit@[t],
        decreases n - j,
    {
        if v[i + j] != lit.get_char(j) {
            assert(v@.subrange(i as int, i + n)[j as int] != lit@[j as int]);
            return false;
        }
        j = j + 1;
    }
    assert(v@.subrange(i as int, i + n) =~= lit@);
    true
}

pub fn trim_bounds(v: &Vec<char>, lo: usize, hi: usize) -> (r: (usize, usize))
    requires
        lo <= hi <= v.len(),
    ensures
        r.0 as int == trimmed(v@, lo as int, hi as int).0,
        r.1 as int == trimmed(v@, lo as int, hi as int).1,
        lo <= r.0 <= r.1 <= hi,
{
    let a = scan_end(v, lo, CharClass::Space);
    if a >= hi {
        (hi, hi)
    } else {
        let b = scan_start(v, hi, CharClass::Space);
        proof {
            lemma_span_end_bounds(v@, lo as int, CharClass::Space);
            lemma_span_start_bounds(v@, hi as int, CharClass::Space);
            assert(!in_class(v@[a as int], CharClass::Space));
        }
        (a, b)
    }
}

/// The value of the digits `v[lo..hi]` when it is at most `max`, else 0.
pub fn bounded_value(v: &Vec<char>, lo: usize, hi: usize, max: u64) -> (r: u64)
    requires
        lo <= hi <= v.len(),
        forall|t: int| lo <= t < hi ==> is_digit(#[trigger] v@[t]),
    ensures
        r == (if digits_value(v@.subrange(lo as int, hi as int)) <= max {
            digits_value(v@.subrange(lo as int, hi as int))
        } else {
            0
        }),
{
    let mut acc: u64 = 0;
    let mut over = false;
    let mut j = lo;
    while j < hi
        invariant
            lo <= j <= hi <= v.len(),
            forall|t: int| lo <= t < hi ==> is_digit(#[trigger] v@[t]),
            over == (digits_value(v@.subrange(lo as int, j as int)) > max),
            !over ==> acc == digits_value(v@.subrange(lo as int, j as int)),
        decreases hi - j,
    {
        let ghost prev = v@.subrange(lo as int, j as int);
        let d = (v[j] as u32 - '0' as u32) as u64;
        assert(is_digit(v@[j as int]));
        assert(v@.subrange(lo as int, j + 1).drop_last() =~= prev);
        assert(digits_value(v@.subrange(lo as int, j + 1)) == digits_value(prev) * 10 + d);
        if !over {
            if d > max || acc > (max - d) / 10 {
                over = true;
                assert(digits_value(prev) * 10 + d > max) by (nonlinear_arith)
                    requires
                        d > max || acc > (max - d) / 10,
                        acc == digits_value(prev),
                        d <= 9,
                ;
            } else {
                assert(acc * 10 + d <= max) by (nonlinear_arith)
                    requires
                        acc <= (max - d) / 10,
                        d <= max,
                ;
                acc = acc * 10 + d;
            }
        } else {
            assert(digits_value(prev) * 10 + d > max) by (nonlinear_arith)
                requires
                    digits_value(prev) > max,
            ;
        }
        j = j + 1;
    }
    if over {
        0
    } else {
        acc
    }
}

pub fn number_then_at(v: &Vec<char>, i: usize, c: char) -> (r: Option<usize>)
    requires
        i <= v.len(),
    ensures
        opt_int(r) == number_then(v@, i as int, c),
        r matches Some(x) ==> i < x <= v.len(),
{
    let a = scan_end(v, i, CharClass::Digit);
    if a > i && a < v.len() && v[a] == c {
        Some(a + 1)
    } else {
        None
    }
}

pub fn number_end_at(v: &Vec<char>, i: usize) -> (r: Option<usize>)
    requires
        i <= v.len(),
    ensures
        opt_int(r) == number_end(v@, i as int),
        r matches Some(x) ==> i < x <= v.len(),
{
    let a = scan_end(v, i, CharClass::Digit);
    if a > i {
        Some(a)
    } else {
        None
    }
}

pub fn ipv4_end_at(v: &Vec<char>, i: usize) -> (r: Option<usize>)
    requires
        i <= v.len(),
    ensures
        opt_int(r) == ipv4_end(v@, i as int),
        r matches Some(x) ==> i < x <= v.len(),
{
    let a = number_then_at(v, i, '.')?;
    let b = number_then_at(v, a, '.')?;
    let c = number_then_at(v, b, '.')?;
    number_end_at(v, c)
}

pub fn clock_end_at(v: &Vec<char>, i: usize) -> (r: Option<usize>)
    requires
        i <= v.len(),
    ensures
        opt_int(r) == clock_end(v@, i as int),
        r matches Some(x) ==> i < x <= v.len(),
{
    let a = number_then_at(v, i, ':')?;
    let b = number_then_at(v, a, ':')?;
    number_end_at(v, b)
}

/// The value of the digits `s[lo..hi]` as an octet: at most three digits, at most 255.
pub open spec fn octet_of(s: Seq<char>, lo: int, hi: int) -> Option<u128> {
    if hi - lo <= 3 && digits_value(s.subrange(lo, hi)) <= 255 {
        Some(digits_value(s.subrange(lo, hi)) as u128)
    } else {
        None
    }
}

/// The dotted-quad IPv4 address that `s` is, as a 32-bit number.
pub open spec fn ipv4_key(s: Seq<char>) -> Option<u128> {
    match number_then(s, 0, '.') {
        Some(a) => match number_then(s, a, '.') {
            Some(b) => match number_then(s, b, '.') {
                Some(c) => match number_end(s, c) {
                    Some(d) => if d == s.len() {
                        match (
                            octet_of(s, 0, a - 1),
                            octet_of(s, a, b - 1),
                            octet_of(s, b, c - 1),
                            octet_of(s, c, d),
                        ) {
                            (Some(w), Some(x), Some(y), Some(z)) => Some(
                                (w * 16777216 + x * 65536 + y * 256 + z) as u128,
                            ),
                            _ => None,
                        }
                    } else {
                        None
                    },
                    None => None,
                },
                None => None,
            },
            None => None,
        },
        None => None,
    }
}

proof fn lemma_short_digits_bound(s: Seq<char>)
    requires
        s.len() <= 3,
        forall|t: int| 0 <= t < s.len() ==> is_digit(#[trigger] s[t]),
    ensures
        digits_value(s) <= 999,
        s.len() <= 2 ==> digits_value(s) <= 99,
        s.len() <= 1 ==> digits_value(s) <= 9,
    decreases s.len(),
{
    if s.len() > 0 {
        assert(is_digit(s[s.len() - 1]));
        lemma_short_digits_bound(s.drop_last());
    }
}

fn octet_at(v: &Vec<char>, lo: usize, hi: usize) -> (r: Option<u128>)
    requires
        lo <= hi <= v.len(),
        forall|t: int| lo <= t < hi ==> is_digit(#[trigger] v@[t]),
    ensures
        r == octet_of(v@, lo as int, hi as int),
{
    if hi - lo > 3 {
        return None;
    }
    proof {
        lemma_short_digits_bound(v@.subrange(lo as int, hi as int));
    }
    let x = bounded_value(v, lo, hi, 255);
    if x == 0 {
        // a value above 255 also reads 0 here: tell the two apart
        let y = bounded_value(v, lo, hi, 999);
        if y != 0 {
            return None;
        }
    }
    Some(x as u128)
}

/// The dotted-quad IPv4 address that `text` is, as a 32-bit number; `None` where `text` is
/// no such address.
pub fn ipv4_key_of(text: &str) -> (r: Option<u128>)
    ensures
        r == ipv4_key(text@),
{
    let v = chars_of(text);
    let a = number_then_at(&v, 0, '.')?;
    let b = number_then_at(&v, a, '.')?;
    let c = number_then_at(&v, b, '.')?;
    let d = number_end_at(&v, c)?;
    if d != v.len() {
        return None;
    }
    proof {
        lemma_span_end_bounds(v@, 0, CharClass::Digit);
        lemma_span_end_bounds(v@, a as int, CharClass::Digit);
        lemma_span_end_bounds(v@, b as int, CharClass::Digit);
        lemma_span_end_bounds(v@, c as int, CharClass::Digit);
    }
    let w = octet_at(&v, 0, a - 1)?;
    let x = octet_at(&v, a, b - 1)?;
    let y = octet_at(&v, b, c - 1)?;
    let z = octet_at(&v, c, d)?;
    Some(w * 16777216 + x * 65536 + y * 256 + z)
}

} // verus!
