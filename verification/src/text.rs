//! Text as a sequence of characters: the string operations that the rest of
//! the library is stated over.
use vstd::prelude::*;
use vstd::string::*;

verus! {

/// `String::push` appends one character to the end of the string.
pub assume_specification[ String::push ](s: &mut String, c: char)
    ensures
        final(s)@ == old(s)@.push(c),
;

/// The characters of a string.
pub fn chars_of(s: &str) -> (r: Vec<char>)
    ensures
        r@ == s@,
{
    let mut out: Vec<char> = Vec::new();
    for c in it: s.chars()
        invariant
            it.seq() == s@,
            out@ == s@.take(it.index()),
    {
        out.push(c);
        assert(s@.take(it.index() + 1) =~= s@.take(it.index()).push(c));
    }
    assert(s@.take(s@.len() as int) =~= s@);
    out
}

/// The string made of `v[from..to]`.
pub fn string_of(v: &Vec<char>, from: usize, to: usize) -> (r: String)
    requires
        from <= to <= v@.len(),
    ensures
        r@ == v@.subrange(from as int, to as int),
{
    let mut out = String::new();
    let mut i: usize = from;
    while i < to
        invariant
            from <= i <= to <= v@.len(),
            out@ == v@.subrange(from as int, i as int),
        decreases to - i,
    {
        out.push(v[i]);
        assert(v@.subrange(from as int, i + 1) =~= v@.subrange(from as int, i as int).push(v@[i as int]));
        i += 1;
    }
    out
}

/// The characters of a string, where there is one.
pub open spec fn opt_view(s: Option<String>) -> Option<Seq<char>> {
    match s {
        Some(t) => Some(t@),
        None => None,
    }
}

/// The characters of a string slice, where there is one.
pub open spec fn opt_str_view(s: Option<&str>) -> Option<Seq<char>> {
    match s {
        Some(t) => Some(t@),
        None => None,
    }
}

/// Whether two strings hold the same characters.
pub fn same(a: &str, b: &str) -> (r: bool)
    ensures
        r == (a@ == b@),
{
    a.to_owned() == b.to_owned()
}

/// The first `n` characters of `s`.
pub fn head<'a>(s: &'a str, n: usize) -> (r: &'a str)
    requires
        n <= s@.len(),
    ensures
        r@ == s@.take(n as int),
{
    s.substring_char(0, n)
}

/// What follows the first `n` characters of `s`.
pub fn tail<'a>(s: &'a str, n: usize) -> (r: &'a str)
    requires
        n <= s@.len(),
    ensures
        r@ == s@.skip(n as int),
{
    let len: usize = s.unicode_len();
    s.substring_char(n, len)
}

// ---------------------------------------------------------------------------
// White space

/// Unicode's `White_Space` property.
pub open spec fn is_white_space(c: char) -> bool {
    ||| '\u{9}' <= c <= '\u{d}'
    ||| c == '\u{20}'
    ||| c == '\u{85}'
    ||| c == '\u{a0}'
    ||| c == '\u{1680}'
    ||| '\u{2000}' <= c <= '\u{200a}'
    ||| c == '\u{2028}'
    ||| c == '\u{2029}'
    ||| c == '\u{202f}'
    ||| c == '\u{205f}'
    ||| c == '\u{3000}'
}

/// Whether `c` has Unicode's `White_Space` property.
pub fn white_space(c: char) -> (r: bool)
    ensures
        r == is_white_space(c),
{
    ('\u{9}' <= c && c <= '\u{d}') || c == '\u{20}' || c == '\u{85}' || c == '\u{a0}' || c
        == '\u{1680}' || ('\u{2000}' <= c && c <= '\u{200a}') || c == '\u{2028}' || c == '\u{2029}'
        || c == '\u{202f}' || c == '\u{205f}' || c == '\u{3000}'
}

/// The ASCII white space of HTML: space, tab, line feed, form feed, return.
pub open spec fn is_ascii_white_space(c: char) -> bool {
    c == ' ' || c == '\t' || c == '\n' || c == '\u{c}' || c == '\r'
}

pub fn ascii_white_space(c: char) -> (r: bool)
    ensures
        r == is_ascii_white_space(c),
{
    c == ' ' || c == '\t' || c == '\n' || c == '\u{c}' || c == '\r'
}

/// `s` without its leading white space.
pub open spec fn trimmed_start(s: Seq<char>) -> Seq<char>
    decreases s.len(),
{
    if s.len() > 0 && is_white_space(s[0]) {
        trimmed_start(s.skip(1))
    } else {
        s
    }
}

/// `s` without its trailing white space.
pub open spec fn trimmed_end(s: Seq<char>) -> Seq<char>
    decreases s.len(),
{
    if s.len() > 0 && is_white_space(s.last()) {
        trimmed_end(s.drop_last())
    } else {
        s
    }
}

/// `s` without its leading and trailing white space.
pub open spec fn trimmed(s: Seq<char>) -> Seq<char> {
    trimmed_end(trimmed_start(s))
}

/// `s` is white space throughout.
pub open spec fn is_white(s: Seq<char>) -> bool {
    forall|i: int| 0 <= i < s.len() ==> is_white_space(#[trigger] s[i])
}

proof fn trimming_drops_a_blank_start(before: Seq<char>, s: Seq<char>)
    requires
        is_white(before),
        s.len() > 0,
        !is_white_space(s[0]),
    ensures
        trimmed_start(before + s) == s,
    decreases before.len(),
{
    if before.len() == 0 {
        assert(before + s =~= s);
    } else {
        let rest = before.skip(1);
        assert((before + s)[0] == before[0]);
        assert((before + s).skip(1) =~= rest + s);
        assert forall|i: int| 0 <= i < rest.len() implies is_white_space(#[trigger] rest[i]) by {
            assert(rest[i] == before[i + 1]);
        }
        trimming_drops_a_blank_start(rest, s);
    }
}

proof fn trimming_drops_a_blank_end(s: Seq<char>, after: Seq<char>)
    requires
        is_white(after),
        s.len() > 0,
        !is_white_space(s.last()),
    ensures
        trimmed_end(s + after) == s,
    decreases after.len(),
{
    if after.len() == 0 {
        assert(s + after =~= s);
    } else {
        let rest = after.drop_last();
        assert((s + after).last() == after[after.len() - 1]);
        assert((s + after).drop_last() =~= s + rest);
        assert forall|i: int| 0 <= i < rest.len() implies is_white_space(#[trigger] rest[i]) by {
            assert(rest[i] == after[i]);
        }
        trimming_drops_a_blank_end(s, rest);
    }
}

/// Trimming takes off the white space around a text that neither begins nor ends
/// with any, and nothing of the text.
pub proof fn trimming_drops_what_is_blank(before: Seq<char>, s: Seq<char>, after: Seq<char>)
    requires
        is_white(before),
        is_white(after),
        s.len() > 0,
        !is_white_space(s[0]),
        !is_white_space(s.last()),
    ensures
        trimmed(before + s + after) == s,
{
    assert(before + s + after =~= before + (s + after));
    trimming_drops_a_blank_start(before, s + after);
    trimming_drops_a_blank_end(s, after);
}

pub fn trim_start<'a>(s: &'a str) -> (r: &'a str)
    ensures
        r@ == trimmed_start(s@),
{
    let v = chars_of(s);
    let mut i: usize = 0;
    assert(s@.skip(0) =~= s@);
    while i < v.len() && white_space(v[i])
        invariant
            i <= v@.len(),
            v@ == s@,
            trimmed_start(s@) == trimmed_start(s@.skip(i as int)),
        decreases v@.len() - i,
    {
        assert(s@.skip(i as int).skip(1) =~= s@.skip(i + 1));
        i += 1;
    }
    tail(s, i)
}

pub fn trim_end<'a>(s: &'a str) -> (r: &'a str)
    ensures
        r@ == trimmed_end(s@),
{
    let v = chars_of(s);
    let mut n: usize = v.len();
    assert(s@.take(s@.len() as int) =~= s@);
    while n > 0 && white_space(v[n - 1])
        invariant
            n <= v@.len(),
            v@ == s@,
            trimmed_end(s@) == trimmed_end(s@.take(n as int)),
        decreases n,
    {
        assert(s@.take(n as int).drop_last() =~= s@.take(n - 1));
        n -= 1;
    }
    head(s, n)
}

pub fn trim<'a>(s: &'a str) -> (r: &'a str)
    ensures
        r@ == trimmed(s@),
{
    trim_end(trim_start(s))
}

/// Trimming drops characters only: a trimmed text is no longer than the text.
pub proof fn trimmed_is_no_longer(s: Seq<char>)
    ensures
        trimmed_start(s).len() <= s.len(),
        trimmed_end(s).len() <= s.len(),
        trimmed(s).len() <= s.len(),
    decreases s.len(),
{
    if s.len() > 0 {
        trimmed_is_no_longer(s.skip(1));
        trimmed_is_no_longer(s.drop_last());
        if !is_white_space(s[0]) {
            if is_white_space(s.last()) {
                assert(trimmed(s) == trimmed_end(s));
            }
        }
    }
}

// ---------------------------------------------------------------------------
// Searching

/// `pat` stands in `s` at position `i`.
pub open spec fn occurs_at(s: Seq<char>, pat: Seq<char>, i: int) -> bool {
    0 <= i && i + pat.len() <= s.len() && s.subrange(i, i + pat.len()) == pat
}

/// `pat` stands somewhere in `s`.
pub open spec fn has(s: Seq<char>, pat: Seq<char>) -> bool {
    exists|i: int| #[trigger] occurs_at(s, pat, i)
}

/// The first position at or after `from` at which `pat` stands in `s`.
pub open spec fn first_from(s: Seq<char>, pat: Seq<char>, from: int) -> Option<int>
    decreases s.len() + 1 - from,
{
    if from + pat.len() > s.len() {
        None
    } else if occurs_at(s, pat, from) {
        Some(from)
    } else {
        first_from(s, pat, from + 1)
    }
}

/// The first position at which `pat` stands in `s`.
pub open spec fn first_at(s: Seq<char>, pat: Seq<char>) -> Option<int> {
    first_from(s, pat, 0)
}

/// What `first_from` finds is an occurrence, and none lies before it.
pub proof fn first_from_is_first(s: Seq<char>, pat: Seq<char>, from: int)
    requires
        0 <= from,
    ensures
        match first_from(s, pat, from) {
            Some(i) => from <= i && occurs_at(s, pat, i) && forall|j: int|
                from <= j < i ==> !occurs_at(s, pat, j),
            None => forall|j: int| from <= j ==> !occurs_at(s, pat, j),
        },
    decreases s.len() + 1 - from,
{
    if from + pat.len() > s.len() {
    } else if occurs_at(s, pat, from) {
    } else {
        first_from_is_first(s, pat, from + 1);
    }
}

/// A text holds `pat` exactly when `first_at` finds it.
pub proof fn has_iff_first(s: Seq<char>, pat: Seq<char>)
    ensures
        has(s, pat) == (first_at(s, pat) is Some),
{
    first_from_is_first(s, pat, 0);
    if has(s, pat) {
        let i = choose|i: int| occurs_at(s, pat, i);
        assert(occurs_at(s, pat, i));
    }
}

/// Whether `pat` stands in `v` at position `i`.
pub fn occurs(v: &Vec<char>, pat: &Vec<char>, i: usize) -> (r: bool)
    ensures
        r == occurs_at(v@, pat@, i as int),
{
    if i > v.len() || pat.len() > v.len() - i {
        return false;
    }
    let mut k: usize = 0;
    while k < pat.len()
        invariant
            i + pat.len() <= v.len(),
            k <= pat@.len(),
            forall|j: int| 0 <= j < k ==> v@[i + j] == pat@[j],
        decreases pat@.len() - k,
    {
        if v[i + k] != pat[k] {
            assert(v@.subrange(i as int, i + pat@.len())[k as int] != pat@[k as int]);
            return false;
        }
        k += 1;
    }
    assert(v@.subrange(i as int, i + pat@.len()) =~= pat@);
    true
}

/// The first position at or after `from` at which `pat` stands in `v`.
pub fn position(v: &Vec<char>, pat: &Vec<char>, from: usize) -> (r: Option<usize>)
    requires
        from <= v@.len(),
    ensures
        match r {
            Some(i) => first_from(v@, pat@, from as int) == Some(i as int) && from <= i && i
                + pat@.len() <= v@.len(),
            None => first_from(v@, pat@, from as int) is None,
        },
{
    let mut i: usize = from;
    while i <= v.len() && pat.len() <= v.len() - i
        invariant
            from <= i,
            first_from(v@, pat@, from as int) == first_from(v@, pat@, i as int),
        decreases v@.len() + 1 - i,
    {
        if occurs(v, pat, i) {
            return Some(i);
        }
        assert(i == v@.len() ==> v@.subrange(i as int, i as int) =~= pat@);
        i += 1;
    }
    None
}

/// The first position at which `pat` stands in `s`.
pub fn find(s: &str, pat: &str) -> (r: Option<usize>)
    ensures
        match r {
            Some(i) => first_at(s@, pat@) == Some(i as int) && i + pat@.len() <= s@.len()
                <= usize::MAX,
            None => first_at(s@, pat@) is None,
        },
{
    let v = chars_of(s);
    let n: usize = v.len();
    assert(s@.len() == n);
    position(&v, &chars_of(pat), 0)
}

/// Whether `pat` stands somewhere in `s`.
pub fn contains(s: &str, pat: &str) -> (r: bool)
    ensures
        r == has(s@, pat@),
{
    proof {
        has_iff_first(s@, pat@);
    }
    find(s, pat).is_some()
}

/// `s` begins with `pat`.
pub open spec fn begins(s: Seq<char>, pat: Seq<char>) -> bool {
    pat.len() <= s.len() && s.take(pat.len() as int) == pat
}

/// `s` ends with `pat`.
pub open spec fn ends(s: Seq<char>, pat: Seq<char>) -> bool {
    pat.len() <= s.len() && s.skip(s.len() - pat.len()) == pat
}

pub fn starts_with(s: &str, pat: &str) -> (r: bool)
    ensures
        r == begins(s@, pat@),
{
    let v = chars_of(s);
    let p = chars_of(pat);
    let r = occurs(&v, &p, 0);
    proof {
        if pat@.len() <= s@.len() {
            assert(s@.subrange(0, pat@.len() as int) =~= s@.take(pat@.len() as int));
        }
    }
    r
}

pub fn ends_with(s: &str, pat: &str) -> (r: bool)
    ensures
        r == ends(s@, pat@),
{
    let v = chars_of(s);
    let p = chars_of(pat);
    if p.len() > v.len() {
        return false;
    }
    assert(s@.subrange(s@.len() - pat@.len(), s@.len() as int) =~= s@.skip(
        s@.len() - pat@.len(),
    ));
    occurs(&v, &p, v.len() - p.len())
}

/// `s` without a leading `pat`, where it begins with it.
pub open spec fn without_prefix(s: Seq<char>, pat: Seq<char>) -> Option<Seq<char>> {
    if begins(s, pat) {
        Some(s.skip(pat.len() as int))
    } else {
        None
    }
}

/// `s` without a trailing `pat`, where it ends with it.
pub open spec fn without_suffix(s: Seq<char>, pat: Seq<char>) -> Option<Seq<char>> {
    if ends(s, pat) {
        Some(s.take(s.len() - pat.len()))
    } else {
        None
    }
}

pub fn strip_prefix<'a>(s: &'a str, pat: &str) -> (r: Option<&'a str>)
    ensures
        match r {
            Some(t) => without_prefix(s@, pat@) == Some(t@),
            None => without_prefix(s@, pat@) is None,
        },
{
    if starts_with(s, pat) {
        Some(tail(s, pat.unicode_len()))
    } else {
        None
    }
}

pub fn strip_suffix<'a>(s: &'a str, pat: &str) -> (r: Option<&'a str>)
    ensures
        match r {
            Some(t) => without_suffix(s@, pat@) == Some(t@),
            None => without_suffix(s@, pat@) is None,
        },
{
    if ends_with(s, pat) {
        Some(head(s, s.unicode_len() - pat.unicode_len()))
    } else {
        None
    }
}

// ---------------------------------------------------------------------------
// Decimal numbers

pub open spec fn is_digit(c: char) -> bool {
    '0' <= c <= '9'
}

pub fn digit(c: char) -> (r: bool)
    ensures
        r == is_digit(c),
{
    '0' <= c && c <= '9'
}

pub open spec fn all_digits(s: Seq<char>) -> bool {
    forall|i: int| 0 <= i < s.len() ==> is_digit(#[trigger] s[i])
}

/// The number that a run of decimal digits stands for.
pub open spec fn decimal_value(s: Seq<char>) -> nat
    decreases s.len(),
{
    if s.len() == 0 {
        0
    } else {
        decimal_value(s.drop_last()) * 10 + (s.last() as nat - '0' as nat) as nat
    }
}

/// The natural number that `s` writes: digits, with an optional leading `+`.
pub open spec fn natural_of(s: Seq<char>) -> Option<nat> {
    let digits = if s.len() > 0 && s[0] == '+' {
        s.skip(1)
    } else {
        s
    };
    if digits.len() > 0 && all_digits(digits) {
        Some(decimal_value(digits))
    } else {
        None
    }
}

/// The number that `s` writes, where it is one and at most `max`.
pub open spec fn natural_up_to(s: Seq<char>, max: nat) -> Option<nat> {
    match natural_of(s) {
        Some(n) => if n <= max {
            Some(n)
        } else {
            None
        },
        None => None,
    }
}

/// Every prefix of a digit run stands for no more than the whole run.
proof fn decimal_value_grows(s: Seq<char>, n: int)
    requires
        0 <= n <= s.len(),
    ensures
        decimal_value(s.take(n)) <= decimal_value(s),
    decreases s.len(),
{
    if n == s.len() {
        assert(s.take(n) =~= s);
    } else {
        assert(s.drop_last().take(n) =~= s.take(n));
        decimal_value_grows(s.drop_last(), n);
    }
}

/// The number that `s` writes, where it is one and at most `max`.
pub fn parse_natural(s: &str, max: u64) -> (r: Option<u64>)
    ensures
        match r {
            Some(n) => natural_up_to(s@, max as nat) == Some(n as nat),
            None => natural_up_to(s@, max as nat) is None,
        },
{
    let v = chars_of(s);
    let start: usize = if v.len() > 0 && v[0] == '+' {
        1
    } else {
        0
    };
    let ghost digits = s@.skip(start as int);
    assert(start == 0 ==> digits =~= s@);
    if v.len() == start {
        return None;
    }
    let mut n: u64 = 0;
    let mut i: usize = start;
    while i < v.len()
        invariant
            v@ == s@,
            start <= i <= v@.len(),
            digits == s@.skip(start as int),
            start == (if s@.len() > 0 && s@[0] == '+' {
                1int
            } else {
                0
            }),
            start == 0 ==> digits == s@,
            n == decimal_value(digits.take(i - start)),
            n <= max,
            forall|j: int| 0 <= j < i - start ==> is_digit(#[trigger] digits[j]),
        decreases v@.len() - i,
    {
        let c = v[i];
        assert(digits[i - start] == c);
        if !digit(c) {
            return None;
        }
        let d: u64 = c as u64 - '0' as u64;
        proof {
            assert(digits.take(i - start + 1).drop_last() =~= digits.take(i - start));
            decimal_value_grows(digits, i - start + 1);
        }
        if n > (max - (if d <= max {
            d
        } else {
            max
        })) / 10 || d > max {
            assert(n * 10 + d > max);
            assert(natural_up_to(s@, max as nat) is None);
            return None;
        }
        n = n * 10 + d;
        i += 1;
    }
    assert(digits.take(digits.len() as int) =~= digits);
    Some(n)
}

/// The text of a natural number in decimal, without leading zeros.
pub open spec fn decimal_text(n: nat) -> Seq<char>
    decreases n,
{
    if n < 10 {
        seq![('0' as nat + n) as char]
    } else {
        decimal_text(n / 10).push(('0' as nat + n % 10) as char)
    }
}

/// The text of an integer in decimal: a minus sign where it is negative.
pub open spec fn integer_text(n: int) -> Seq<char> {
    if n < 0 {
        seq!['-'] + decimal_text((-n) as nat)
    } else {
        decimal_text(n as nat)
    }
}

fn digit_char(d: u128) -> (c: char)
    requires
        d < 10,
    ensures
        c as nat == '0' as nat + d,
{
    let b: u8 = d as u8 + 48;
    b as char
}

pub fn u128_text(n: u128) -> (r: String)
    ensures
        r@ == decimal_text(n as nat),
    decreases n,
{
    if n < 10 {
        let mut out = String::new();
        out.push(digit_char(n));
        assert(out@ =~= decimal_text(n as nat));
        out
    } else {
        let mut out = u128_text(n / 10);
        out.push(digit_char(n % 10));
        out
    }
}

pub fn u64_text(n: u64) -> (r: String)
    ensures
        r@ == decimal_text(n as nat),
{
    u128_text(n as u128)
}

pub fn i64_text(n: i64) -> (r: String)
    ensures
        r@ == integer_text(n as int),
{
    if n < 0 {
        let magnitude: u64 = (-(n as i128)) as u64;
        let mut out = String::new();
        out.push('-');
        out.append(u64_text(magnitude).as_str());
        assert(out@ =~= integer_text(n as int));
        out
    } else {
        u64_text(n as u64)
    }
}

/// The signed number that `s` writes: digits with an optional sign.
pub open spec fn signed_of(s: Seq<char>) -> Option<int> {
    if s.len() > 0 && s[0] == '-' {
        let digits = s.skip(1);
        if digits.len() > 0 && all_digits(digits) {
            Some(-(decimal_value(digits) as int))
        } else {
            None
        }
    } else {
        match natural_of(s) {
            Some(n) => Some(n as int),
            None => None,
        }
    }
}

/// The number that `s` writes, where it is one that an `i64` holds.
pub open spec fn int64_of(s: Seq<char>) -> Option<i64> {
    match signed_of(s) {
        Some(n) => if i64::MIN <= n <= i64::MAX {
            Some(n as i64)
        } else {
            None
        },
        None => None,
    }
}

/// The number that `s` writes, where it is one that an `i64` holds.
pub fn parse_i64(s: &str) -> (r: Option<i64>)
    ensures
        r == int64_of(s@),
{
    let v = chars_of(s);
    if v.len() > 0 && v[0] == '-' {
        let digits = tail(s, 1);
        if v.len() > 1 && v[1] == '+' {
            assert(digits@[0] == '+');
            assert(!is_digit('+'));
            return None;
        }
        assert(natural_of(digits@) == (if digits@.len() > 0 && all_digits(digits@) {
            Some(decimal_value(digits@))
        } else {
            None
        }));
        match parse_natural(digits, 0x8000_0000_0000_0000) {
            Some(n) => Some((-(n as i128)) as i64),
            None => None,
        }
    } else {
        match parse_natural(s, i64::MAX as u64) {
            Some(n) => Some(n as i64),
            None => None,
        }
    }
}

// ---------------------------------------------------------------------------
// Case

pub open spec fn is_ascii_text(s: Seq<char>) -> bool {
    forall|i: int| 0 <= i < s.len() ==> (#[trigger] s[i]) as nat <= 127
}

pub open spec fn ascii_lower(c: char) -> char {
    if 'A' <= c <= 'Z' {
        (c as nat + 32) as char
    } else {
        c
    }
}

/// `s` with its ASCII letters in lower case.
pub open spec fn ascii_lowercase(s: Seq<char>) -> Seq<char> {
    s.map_values(|c: char| ascii_lower(c))
}

fn lower_char(c: char) -> (r: char)
    ensures
        r == ascii_lower(c),
{
    if 'A' <= c && c <= 'Z' {
        let b: u8 = c as u8 + 32;
        b as char
    } else {
        c
    }
}

/// `s` with its ASCII letters in lower case.
pub fn to_ascii_lowercase(s: &str) -> (r: String)
    ensures
        r@ == ascii_lowercase(s@),
{
    let v = chars_of(s);
    let mut out = String::new();
    let mut i: usize = 0;
    while i < v.len()
        invariant
            v@ == s@,
            i <= v@.len(),
            out@ == ascii_lowercase(s@.take(i as int)),
        decreases v@.len() - i,
    {
        out.push(lower_char(v[i]));
        i += 1;
        assert(out@ =~= ascii_lowercase(s@.take(i as int)));
    }
    assert(s@.take(i as int) =~= s@);
    out
}

/// What `str::to_lowercase` makes of a text that is not all ASCII.
pub uninterp spec fn unicode_lowercase(s: Seq<char>) -> Seq<char>;

/// `s` in lower case: letter by letter in ASCII, by Unicode's rules beyond it.
pub open spec fn lowercase(s: Seq<char>) -> Seq<char> {
    if is_ascii_text(s) {
        ascii_lowercase(s)
    } else {
        unicode_lowercase(s)
    }
}

/// `str::to_lowercase`: an ASCII text has its ASCII letters lowered; of any
/// other text only that the result is settled by it is claimed.
#[verifier::external_body]
pub(crate) fn to_lowercase(s: &str) -> (r: String)
    ensures
        is_ascii_text(s@) ==> r@ == ascii_lowercase(s@),
        !is_ascii_text(s@) ==> r@ == unicode_lowercase(s@),
{
    s.to_lowercase()
}

pub open spec fn ascii_upper(c: char) -> char {
    if 'a' <= c <= 'z' {
        (c as nat - 32) as char
    } else {
        c
    }
}

/// `s` with its ASCII letters in upper case.
pub open spec fn ascii_uppercase(s: Seq<char>) -> Seq<char> {
    s.map_values(|c: char| ascii_upper(c))
}

/// What `str::to_uppercase` makes of a text that is not all ASCII.
pub uninterp spec fn unicode_uppercase(s: Seq<char>) -> Seq<char>;

/// `s` in upper case: letter by letter in ASCII, by Unicode's rules beyond it.
pub open spec fn uppercase(s: Seq<char>) -> Seq<char> {
    if is_ascii_text(s) {
        ascii_uppercase(s)
    } else {
        unicode_uppercase(s)
    }
}

/// `str::to_uppercase`: an ASCII text has its ASCII letters raised; of any
/// other text only that the result is settled by it is claimed.
#[verifier::external_body]
pub(crate) fn to_uppercase(s: &str) -> (r: String)
    ensures
        is_ascii_text(s@) ==> r@ == ascii_uppercase(s@),
        !is_ascii_text(s@) ==> r@ == unicode_uppercase(s@),
{
    s.to_uppercase()
}

/// The text that `{:?}` writes for a string: quoted and escaped.
pub uninterp spec fn debug_text(s: Seq<char>) -> Seq<char>;

/// The `Debug` of `str`, whose text is settled by the string.
#[verifier::external_body]
pub(crate) fn debug(s: &str) -> (r: String)
    ensures
        r@ == debug_text(s@),
{
    format!("{:?}", s)
}

// ---------------------------------------------------------------------------
// Characters at the ends, and the last occurrence of one

/// `s` without the trailing characters that equal `c`.
pub open spec fn without_trailing(s: Seq<char>, c: char) -> Seq<char>
    decreases s.len(),
{
    if s.len() > 0 && s.last() == c {
        without_trailing(s.drop_last(), c)
    } else {
        s
    }
}

pub fn trim_end_char<'a>(s: &'a str, c: char) -> (r: &'a str)
    ensures
        r@ == without_trailing(s@, c),
{
    let v = chars_of(s);
    let mut n: usize = v.len();
    assert(s@.take(s@.len() as int) =~= s@);
    while n > 0 && v[n - 1] == c
        invariant
            n <= v@.len(),
            v@ == s@,
            without_trailing(s@, c) == without_trailing(s@.take(n as int), c),
        decreases n,
    {
        assert(s@.take(n as int).drop_last() =~= s@.take(n - 1));
        n -= 1;
    }
    head(s, n)
}

/// `s` without its leading line feeds and carriage returns.
pub open spec fn without_leading_breaks(s: Seq<char>) -> Seq<char>
    decreases s.len(),
{
    if s.len() > 0 && (s[0] == '\n' || s[0] == '\r') {
        without_leading_breaks(s.skip(1))
    } else {
        s
    }
}

pub fn trim_start_breaks<'a>(s: &'a str) -> (r: &'a str)
    ensures
        r@ == without_leading_breaks(s@),
{
    let v = chars_of(s);
    let mut i: usize = 0;
    assert(s@.skip(0) =~= s@);
    while i < v.len() && (v[i] == '\n' || v[i] == '\r')
        invariant
            i <= v@.len(),
            v@ == s@,
            without_leading_breaks(s@) == without_leading_breaks(s@.skip(i as int)),
        decreases v@.len() - i,
    {
        assert(s@.skip(i as int).skip(1) =~= s@.skip(i + 1));
        i += 1;
    }
    tail(s, i)
}

/// The last position of the character `c` in `s`.
pub open spec fn last_char(s: Seq<char>, c: char) -> Option<int>
    decreases s.len(),
{
    if s.len() == 0 {
        None
    } else if s.last() == c {
        Some(s.len() - 1)
    } else {
        last_char(s.drop_last(), c)
    }
}

pub fn rfind_char(s: &str, c: char) -> (r: Option<usize>)
    ensures
        match r {
            Some(i) => last_char(s@, c) == Some(i as int) && i < s@.len() <= usize::MAX,
            None => last_char(s@, c) is None,
        },
{
    let v = chars_of(s);
    let mut n: usize = v.len();
    assert(s@.take(s@.len() as int) =~= s@);
    while n > 0
        invariant
            n <= v@.len(),
            v@ == s@,
            last_char(s@, c) == last_char(s@.take(n as int), c),
        decreases n,
    {
        assert(s@.take(n as int).drop_last() =~= s@.take(n - 1));
        if v[n - 1] == c {
            return Some(n - 1);
        }
        n -= 1;
    }
    None
}

/// The texts with `sep` between each two.
pub open spec fn joined(parts: Seq<Seq<char>>, sep: Seq<char>) -> Seq<char>
    decreases parts.len(),
{
    if parts.len() == 0 {
        Seq::empty()
    } else if parts.len() == 1 {
        parts[0]
    } else {
        joined(parts.drop_last(), sep) + sep + parts.last()
    }
}

/// The characters of each string.
pub open spec fn views(v: Seq<String>) -> Seq<Seq<char>> {
    v.map_values(|s: String| s@)
}

pub fn join(parts: &Vec<String>, sep: &str) -> (r: String)
    ensures
        r@ == joined(views(parts@), sep@),
{
    let mut out = String::new();
    let mut i: usize = 0;
    while i < parts.len()
        invariant
            i <= parts@.len(),
            out@ == joined(views(parts@).take(i as int), sep@),
        decreases parts@.len() - i,
    {
        assert(views(parts@).take(i + 1).drop_last() =~= views(parts@).take(i as int));
        if i > 0 {
            out.append(sep);
        }
        out.append(parts[i].as_str());
        i += 1;
        assert(out@ =~= joined(views(parts@).take(i as int), sep@));
    }
    assert(views(parts@).take(i as int) =~= views(parts@));
    out
}

/// `["a", "b"]`: strings as `{:?}` shows a list of them.
pub open spec fn debug_list(items: Seq<Seq<char>>) -> Seq<char> {
    "["@ + joined(items.map_values(|s: Seq<char>| debug_text(s)), ", "@) + "]"@
}

/// `{:?}` of a list of strings.
pub fn show_list(items: &Vec<String>) -> (r: String)
    ensures
        r@ == debug_list(views(items@)),
{
    let ghost wanted = views(items@).map_values(|s: Seq<char>| debug_text(s));
    let mut shown: Vec<String> = Vec::new();
    let mut i: usize = 0;
    while i < items.len()
        invariant
            i <= items@.len(),
            wanted == views(items@).map_values(|s: Seq<char>| debug_text(s)),
            shown@.len() == i,
            forall|j: int| 0 <= j < i ==> (#[trigger] shown@[j])@ == wanted[j],
        decreases items@.len() - i,
    {
        shown.push(debug(items[i].as_str()));
        i += 1;
    }
    assert(views(shown@) =~= wanted);
    "[".to_owned().concat(join(&shown, ", ").as_str()).concat("]")
}

// ---------------------------------------------------------------------------
// Laws of texts

/// Trimming leaves the middle of a text untouched: what goes is white space at
/// either end, and what stays neither begins nor ends with any.
pub proof fn trimming_keeps_the_middle(s: Seq<char>)
    ensures
        trimmed(s).len() > 0 ==> !is_white_space(trimmed(s)[0]) && !is_white_space(
            trimmed(s).last(),
        ),
        exists|i: int, j: int|
            0 <= i <= j <= s.len() && trimmed(s) == #[trigger] s.subrange(i, j) && is_white(
                s.take(i),
            ) && is_white(s.skip(j)),
{
    trimmed_start_is_a_tail(s);
    let t = trimmed_start(s);
    let i = s.len() - t.len();
    trimmed_end_is_a_head(t);
    let n = trimmed_end(t).len();
    let j = i + n;
    assert(trimmed(s) =~= s.subrange(i, j));
    assert(s.skip(j) =~= t.skip(n as int));
    if n > 0 {
        assert(trimmed(s)[0] == t[0]);
    }
}

proof fn trimmed_start_is_a_tail(s: Seq<char>)
    ensures
        trimmed_start(s).len() <= s.len(),
        trimmed_start(s) == s.skip(s.len() - trimmed_start(s).len()),
        is_white(s.take(s.len() - trimmed_start(s).len())),
        trimmed_start(s).len() > 0 ==> !is_white_space(trimmed_start(s)[0]),
    decreases s.len(),
{
    if s.len() > 0 && is_white_space(s[0]) {
        let rest = s.skip(1);
        trimmed_start_is_a_tail(rest);
        let n = s.len() - trimmed_start(s).len();
        assert(s.skip(n) =~= rest.skip(n - 1));
        assert forall|k: int| 0 <= k < s.take(n).len() implies is_white_space(
            #[trigger] s.take(n)[k],
        ) by {
            if k > 0 {
                assert(rest.take(n - 1)[k - 1] == s[k]);
            }
        }
    } else {
        assert(s.skip(0) =~= s);
    }
}

proof fn trimmed_end_is_a_head(s: Seq<char>)
    ensures
        trimmed_end(s).len() <= s.len(),
        trimmed_end(s) == s.take(trimmed_end(s).len() as int),
        is_white(s.skip(trimmed_end(s).len() as int)),
        trimmed_end(s).len() > 0 ==> !is_white_space(trimmed_end(s).last()),
    decreases s.len(),
{
    if s.len() > 0 && is_white_space(s.last()) {
        let rest = s.drop_last();
        trimmed_end_is_a_head(rest);
        let n = trimmed_end(s).len() as int;
        assert(s.take(n) =~= rest.take(n));
        assert forall|k: int| 0 <= k < s.skip(n).len() implies is_white_space(
            #[trigger] s.skip(n)[k],
        ) by {
            if k < rest.len() - n {
                assert(rest.skip(n)[k] == s[n + k]);
            }
        }
    } else {
        assert(s.take(s.len() as int) =~= s);
    }
}

/// Joining keeps every text whole and in order, with one separator between each
/// two neighbours: joining two lists is joining each, with a separator between.
pub proof fn texts_are_joined_in_order(a: Seq<Seq<char>>, b: Seq<Seq<char>>, sep: Seq<char>)
    requires
        a.len() > 0,
        b.len() > 0,
    ensures
        joined(a + b, sep) == joined(a, sep) + sep + joined(b, sep),
        joined(seq![a[0]], sep) == a[0],
    decreases b.len(),
{
    assert((a + b).drop_last() =~= a + b.drop_last());
    assert((a + b).last() == b.last());
    if b.len() == 1 {
        assert(a + b.drop_last() =~= a);
    } else {
        texts_are_joined_in_order(a, b.drop_last(), sep);
        assert(joined(a + b, sep) =~= joined(a, sep) + sep + joined(b, sep));
    }
}

/// The parts of a joined text stand in it, each as a whole.
pub proof fn each_part_is_in_the_whole(parts: Seq<Seq<char>>, sep: Seq<char>, i: int)
    requires
        0 <= i < parts.len(),
    ensures
        has(joined(parts, sep), parts[i]),
{
    let p = parts[i];
    let before = parts.take(i);
    let after = parts.skip(i + 1);
    assert(parts =~= before + seq![p] + after);
    let head = if i == 0 {
        Seq::empty()
    } else {
        joined(before, sep) + sep
    };
    let tail = if after.len() == 0 {
        Seq::empty()
    } else {
        sep + joined(after, sep)
    };
    let whole = joined(parts, sep);
    assert(joined(seq![p], sep) == p);
    if i == 0 {
        assert(parts =~= seq![p] + after);
        if after.len() == 0 {
            assert(parts =~= seq![p]);
        } else {
            texts_are_joined_in_order(seq![p], after, sep);
        }
    } else {
        texts_are_joined_in_order(before, seq![p], sep);
        if after.len() == 0 {
            assert(parts =~= before + seq![p]);
        } else {
            texts_are_joined_in_order(before + seq![p], after, sep);
        }
    }
    assert(whole =~= head + p + tail);
    let n = head.len() as int;
    assert(whole.subrange(n, n + p.len()) =~= p);
    assert(occurs_at(whole, p, n));
}

/// A number that was written is read as the same number.
pub proof fn naturals_read_back(n: nat)
    ensures
        natural_of(decimal_text(n)) == Some(n),
        all_digits(decimal_text(n)),
        n > 0 ==> decimal_text(n)[0] != '0',
    decreases n,
{
    if n < 10 {
        assert(decimal_text(n).drop_last() =~= Seq::empty());
        assert(decimal_value(Seq::<char>::empty()) == 0);
    } else {
        let rest = decimal_text(n / 10);
        naturals_read_back(n / 10);
        assert(decimal_text(n).drop_last() =~= rest);
        assert(rest[0] != '+');
        assert(decimal_text(n)[0] == rest[0]);
        assert forall|i: int| 0 <= i < decimal_text(n).len() implies is_digit(
            #[trigger] decimal_text(n)[i],
        ) by {
            if i < rest.len() {
                assert(decimal_text(n)[i] == rest[i]);
            }
        }
    }
}

/// An integer that was written is read as the same integer.
pub proof fn integers_read_back(n: i64)
    ensures
        int64_of(integer_text(n as int)) == Some(n),
{
    if n < 0 {
        let m = (-(n as int)) as nat;
        naturals_read_back(m);
        assert(integer_text(n as int).skip(1) =~= decimal_text(m));
        assert(!is_digit('+'));
        assert(decimal_text(m)[0] != '+');
    } else {
        naturals_read_back(n as nat);
        assert(!is_digit('-'));
    }
}

/// What `last_char` finds is the character, and it does not stand behind it.
pub proof fn last_char_is_last(s: Seq<char>, c: char)
    ensures
        match last_char(s, c) {
            Some(i) => 0 <= i < s.len() && s[i] == c && forall|j: int| i < j < s.len() ==> s[j] != c,
            None => forall|j: int| 0 <= j < s.len() ==> s[j] != c,
        },
    decreases s.len(),
{
    if s.len() > 0 && s.last() != c {
        let rest = s.drop_last();
        last_char_is_last(rest, c);
        assert forall|j: int| 0 <= j < s.len() && s[j] == c implies j < rest.len() && rest[j]
            == c by {}
    }
}

/// A pattern is first found right behind a text, where it does not begin within
/// that text.
pub proof fn first_behind(a: Seq<char>, pat: Seq<char>, b: Seq<char>)
    requires
        pat.len() > 0,
        forall|j: int| 0 <= j < a.len() ==> !occurs_at(a + pat, pat, j),
    ensures
        first_at(a + pat + b, pat) == Some(a.len() as int),
{
    let s = a + pat + b;
    first_from_is_first(s, pat, 0);
    let n = a.len() as int;
    assert(s.subrange(n, n + pat.len()) =~= pat);
    assert(occurs_at(s, pat, n));
    let i = first_at(s, pat)->0;
    if i < n {
        assert((a + pat).subrange(i, i + pat.len()) =~= s.subrange(i, i + pat.len()));
        assert(occurs_at(a + pat, pat, i));
    }
}

/// What stands between two texts stands in the whole, and the last of them ends
/// it.
pub proof fn parts_stand_in_the_whole(a: Seq<char>, m: Seq<char>, b: Seq<char>)
    ensures
        has(a + m + b, m),
        ends(a + m, m),
        begins(m + b, m),
{
    let n = a.len() as int;
    assert((a + m + b).subrange(n, n + m.len()) =~= m);
    assert(occurs_at(a + m + b, m, n));
    assert((a + m).skip(n) =~= m);
    assert((m + b).take(m.len() as int) =~= m);
}

/// What stands in a part stands in the whole.
pub proof fn has_is_kept(a: Seq<char>, m: Seq<char>, b: Seq<char>, pat: Seq<char>)
    requires
        has(m, pat),
    ensures
        has(a + m + b, pat),
{
    let i = choose|i: int| #[trigger] occurs_at(m, pat, i);
    let n = a.len() as int;
    assert((a + m + b).subrange(n + i, n + i + pat.len()) =~= m.subrange(i, i + pat.len()));
    assert(occurs_at(a + m + b, pat, n + i));
}

/// A text that neither begins nor ends with white space is trimmed already.
pub proof fn trimming_nothing(s: Seq<char>)
    requires
        s.len() > 0 ==> !is_white_space(s[0]) && !is_white_space(s.last()),
    ensures
        trimmed(s) == s,
{
}

/// There is no white space about a number.
pub proof fn number_is_trimmed(n: i64)
    ensures
        trimmed(integer_text(n as int)) == integer_text(n as int),
{
    let s = integer_text(n as int);
    if n < 0 {
        let m = (-(n as int)) as nat;
        naturals_read_back(m);
        assert(is_digit(decimal_text(m)[decimal_text(m).len() - 1]));
        assert(s.last() == decimal_text(m).last());
    } else {
        naturals_read_back(n as nat);
        assert(is_digit(s[0]));
        assert(is_digit(s[s.len() - 1]));
    }
}

/// Only the characters in question go from the end of a text, and all of them.
pub proof fn trailing_characters_go(s: Seq<char>, c: char)
    ensures
        ({
            let t = without_trailing(s, c);
            &&& t.is_prefix_of(s)
            &&& t.len() > 0 ==> t.last() != c
            &&& forall|i: int| t.len() <= i < s.len() ==> s[i] == c
        }),
    decreases s.len(),
{
    if s.len() > 0 && s.last() == c {
        trailing_characters_go(s.drop_last(), c);
        let t = without_trailing(s, c);
        assert forall|i: int| t.len() <= i < s.len() implies s[i] == c by {
            if i < s.len() - 1 {
                assert(s.drop_last()[i] == s[i]);
            }
        }
    }
}

/// Lowering and raising touch the ASCII letters alone, each where it stands.
pub proof fn only_letters_change_case(s: Seq<char>, i: int)
    requires
        0 <= i < s.len(),
    ensures
        ascii_lowercase(s).len() == s.len(),
        ascii_uppercase(s).len() == s.len(),
        'A' <= s[i] <= 'Z' ==> ascii_lowercase(s)[i] as nat == s[i] as nat + 32,
        !('A' <= s[i] <= 'Z') ==> ascii_lowercase(s)[i] == s[i],
        'a' <= s[i] <= 'z' ==> ascii_uppercase(s)[i] as nat == s[i] as nat - 32,
        !('a' <= s[i] <= 'z') ==> ascii_uppercase(s)[i] == s[i],
        is_ascii_text(s) ==> lowercase(s) == ascii_lowercase(s) && uppercase(s)
            == ascii_uppercase(s),
        ascii_lowercase(ascii_uppercase(s)) == ascii_lowercase(s),
{
    let c = s[i];
    if 'A' <= c <= 'Z' {
        assert((c as nat + 32) as char as nat == c as nat + 32);
    }
    if 'a' <= c <= 'z' {
        assert((c as nat - 32) as char as nat == c as nat - 32);
    }
    assert forall|k: int| 0 <= k < s.len() implies ascii_lower(ascii_upper(#[trigger] s[k]))
        == ascii_lower(s[k]) by {
        let d = s[k];
        if 'a' <= d <= 'z' {
            let u = (d as nat - 32) as char;
            assert(u as nat == d as nat - 32);
            assert('A' <= u <= 'Z');
            assert((u as nat + 32) as char == d);
        }
    }
    assert(ascii_lowercase(ascii_uppercase(s)) =~= ascii_lowercase(s));
}

/// Only line breaks go from the start of a text, and all of them.
pub proof fn leading_breaks_go(s: Seq<char>)
    ensures
        ({
            let t = without_leading_breaks(s);
            &&& t.len() <= s.len()
            &&& t == s.skip(s.len() - t.len())
            &&& t.len() > 0 ==> t[0] != '\n' && t[0] != '\r'
            &&& forall|i: int|
                0 <= i < s.len() - t.len() ==> #[trigger] s[i] == '\n' || s[i] == '\r'
        }),
    decreases s.len(),
{
    if s.len() > 0 && (s[0] == '\n' || s[0] == '\r') {
        let rest = s.skip(1);
        leading_breaks_go(rest);
        let t = without_leading_breaks(s);
        let n = s.len() - t.len();
        assert(s.skip(n) =~= rest.skip(n - 1));
        assert forall|i: int| 0 <= i < n implies #[trigger] s[i] == '\n' || s[i] == '\r' by {
            if i > 0 {
                assert(rest[i - 1] == s[i]);
            }
        }
    } else {
        assert(s.skip(0) =~= s);
    }
}

/// What is taken off the start or the end of a text is what was asked for, and the rest
/// stays.
pub proof fn prefixes_and_suffixes_come_off(pat: Seq<char>, s: Seq<char>)
    ensures
        without_prefix(pat + s, pat) == Some(s),
        without_suffix(s + pat, pat) == Some(s),
        without_prefix(s, pat) matches Some(t) ==> s == pat + t,
        without_suffix(s, pat) matches Some(t) ==> s == t + pat,
{
    let n = pat.len() as int;
    assert((pat + s).take(n) =~= pat);
    assert((pat + s).skip(n) =~= s);
    assert((s + pat).skip((s + pat).len() - n) =~= pat);
    assert((s + pat).take((s + pat).len() - n) =~= s);
    if let Some(t) = without_prefix(s, pat) {
        assert(s =~= s.take(n) + s.skip(n));
    }
    if let Some(t) = without_suffix(s, pat) {
        let m = s.len() - n;
        assert(s =~= s.take(m) + s.skip(m));
    }
}

/// A number is written digit by digit, the highest first: another digit at the end makes ten
/// times as much and the digit more.
pub proof fn digits_count_in_tens(n: nat, d: nat, s: Seq<char>, c: char)
    requires
        d < 10,
        is_digit(c),
    ensures
        n > 0 ==> decimal_text(n * 10 + d) == decimal_text(n) + decimal_text(d),
        decimal_text(d).len() == 1,
        decimal_text(d)[0] as nat == 0x30 + d,
        decimal_value(s.push(c)) == 10 * decimal_value(s) + (c as nat - 0x30),
        decimal_value(Seq::empty()) == 0,
{
    assert((n * 10 + d) / 10 == n);
    assert((n * 10 + d) % 10 == d as int);
    if n > 0 {
        assert(decimal_text(n * 10 + d) =~= decimal_text(n) + decimal_text(d));
    }
    assert(s.push(c).drop_last() =~= s);
}

/// A sign makes a number negative, and is written before it; a plus sign is read and changes
/// nothing; and a text with anything but digits behind its sign is no number.
pub proof fn signs_stand_before_numbers(n: nat, s: Seq<char>)
    ensures
        n > 0 ==> integer_text(-(n as int)) == seq!['-'] + decimal_text(n),
        integer_text(n as int) == decimal_text(n),
        signed_of(seq!['-'] + decimal_text(n)) == Some(-(n as int)),
        signed_of(decimal_text(n)) == Some(n as int),
        natural_of(seq!['+'] + decimal_text(n)) == Some(n),
        natural_of(s) is Some ==> s.len() > 0 && forall|i: int|
            0 <= i < s.len() ==> is_digit(#[trigger] s[i]) || (i == 0 && s[i] == '+'),
        signed_of(s) is Some ==> s.len() > 0 && forall|i: int|
            0 <= i < s.len() ==> is_digit(#[trigger] s[i]) || (i == 0 && (s[i] == '+' || s[i]
                == '-')),
{
    naturals_read_back(n);
    let d = decimal_text(n);
    assert(is_digit(d[0]));
    assert((seq!['-'] + d).skip(1) =~= d);
    assert((seq!['+'] + d).skip(1) =~= d);
    if s.len() > 0 && (s[0] == '+' || s[0] == '-') {
        let rest = s.skip(1);
        if all_digits(rest) {
            assert forall|i: int| 1 <= i < s.len() implies is_digit(#[trigger] s[i]) by {
                assert(rest[i - 1] == s[i]);
            }
        }
    }
}

/// A list is shown between brackets with every item in it.
pub proof fn lists_show_every_item(items: Seq<Seq<char>>, i: int)
    requires
        0 <= i < items.len(),
    ensures
        has(debug_list(items), debug_text(items[i])),
        debug_list(items)[0] == '[',
        debug_list(items).last() == ']',
{
    reveal_strlit("[");
    reveal_strlit("]");
    let shown = items.map_values(|s: Seq<char>| debug_text(s));
    each_part_is_in_the_whole(shown, ", "@, i);
    assert(shown[i] == debug_text(items[i]));
    has_is_kept("["@, joined(shown, ", "@), "]"@, shown[i]);
}

/// White space is the twenty-five characters that Unicode says it is; of them five are the
/// ASCII white space of HTML.
pub proof fn white_space_is_what_unicode_says(c: char)
    ensures
        is_white_space(c) <==> {
            let n = c as nat;
            ||| n == 0x9 || n == 0xa || n == 0xb || n == 0xc || n == 0xd || n == 0x20 || n == 0x85
            ||| n == 0xa0 || n == 0x1680 || n == 0x2000 || n == 0x2001 || n == 0x2002 || n == 0x2003
            ||| n == 0x2004 || n == 0x2005 || n == 0x2006 || n == 0x2007 || n == 0x2008 || n
                == 0x2009
            ||| n == 0x200a || n == 0x2028 || n == 0x2029 || n == 0x202f || n == 0x205f || n
                == 0x3000
        },
        is_ascii_white_space(c) <==> c as nat == 0x20 || c as nat == 0x9 || c as nat == 0xa
            || c as nat == 0xc || c as nat == 0xd,
        is_ascii_white_space(c) ==> is_white_space(c),
{
}

/// A number is read where it is within the bound, the bound itself included, and not beyond.
pub proof fn numbers_are_read_up_to_their_bound(n: nat, max: nat, s: Seq<char>)
    ensures
        n <= max ==> natural_up_to(decimal_text(n), max) == Some(n),
        n > max ==> natural_up_to(decimal_text(n), max) is None,
        natural_up_to(s, max) is Some ==> natural_of(s) == natural_up_to(s, max)
            && natural_up_to(s, max)->0 <= max,
{
    naturals_read_back(n);
}

} // verus!
