//! Character-level helpers on strings: trimming, splitting, searching, and
//! rendering and reading unsigned numbers.

use vstd::prelude::*;
use vstd::string::*;
use vstd::utf8::{decode_utf8, valid_utf8};

verus! {

// ---------------------------------------------------------------------------
// Meaning
// ---------------------------------------------------------------------------

/// Unicode `White_Space`.
pub open spec fn is_white(c: char) -> bool {
    let n = c as u32;
    ||| 0x09 <= n <= 0x0d
    ||| n == 0x20
    ||| n == 0x85
    ||| n == 0xa0
    ||| n == 0x1680
    ||| 0x2000 <= n <= 0x200a
    ||| n == 0x2028
    ||| n == 0x2029
    ||| n == 0x202f
    ||| n == 0x205f
    ||| n == 0x3000
}

/// `s` without its leading white space.
pub open spec fn trim_start(s: Seq<char>) -> Seq<char>
    decreases s.len(),
{
    if s.len() > 0 && is_white(s[0]) {
        trim_start(s.skip(1))
    } else {
        s
    }
}

/// `s` without its trailing white space.
pub open spec fn trim_end(s: Seq<char>) -> Seq<char>
    decreases s.len(),
{
    if s.len() > 0 && is_white(s.last()) {
        trim_end(s.drop_last())
    } else {
        s
    }
}

/// `s` without white space at either end.
pub open spec fn trimmed(s: Seq<char>) -> Seq<char> {
    trim_end(trim_start(s))
}

/// `s` without any leading `c`.
pub open spec fn without_leading(s: Seq<char>, c: char) -> Seq<char>
    decreases s.len(),
{
    if s.len() > 0 && s[0] == c {
        without_leading(s.skip(1), c)
    } else {
        s
    }
}

/// `s` without any trailing `c`.
pub open spec fn without_trailing(s: Seq<char>, c: char) -> Seq<char>
    decreases s.len(),
{
    if s.len() > 0 && s.last() == c {
        without_trailing(s.drop_last(), c)
    } else {
        s
    }
}

/// The position of the first `c` in `s` (the length of `s` if there is none).
pub open spec fn first_of(s: Seq<char>, c: char) -> int
    decreases s.len(),
{
    if s.len() == 0 || s[0] == c {
        0
    } else {
        1 + first_of(s.skip(1), c)
    }
}

/// The position of the last `c` in `s` (-1 if there is none).
pub open spec fn last_of(s: Seq<char>, c: char) -> int
    decreases s.len(),
{
    if s.len() == 0 {
        -1
    } else if s.last() == c {
        s.len() - 1
    } else {
        last_of(s.drop_last(), c)
    }
}

/// The pieces of `s` between occurrences of `sep`.
pub open spec fn pieces(s: Seq<char>, sep: char) -> Seq<Seq<char>>
    decreases s.len(),
{
    let at = first_of(s, sep);
    if 0 <= at < s.len() {
        seq![s.take(at)] + pieces(s.skip(at + 1), sep)
    } else {
        seq![s]
    }
}

/// `needle` occurs in `s`.
pub open spec fn occurs(s: Seq<char>, needle: Seq<char>) -> bool {
    exists|i: int|
        0 <= i <= s.len() - needle.len() && #[trigger] s.subrange(i, i + needle.len()) == needle
}

pub open spec fn is_digit(c: char) -> bool {
    '0' <= c <= '9'
}

pub open spec fn all_digits(s: Seq<char>) -> bool {
    forall|i: int| 0 <= i < s.len() ==> is_digit(#[trigger] s[i])
}

/// The number that decimal digits `s` write.
pub open spec fn decimal_value(s: Seq<char>) -> int
    decreases s.len(),
{
    if s.len() == 0 {
        0
    } else {
        decimal_value(s.drop_last()) * 10 + (s.last() as u32 - '0' as u32)
    }
}

/// The unsigned number, at most `max`, that `s` writes: an optional `+`, then
/// one or more decimal digits.
pub open spec fn unsigned_value(s: Seq<char>, max: int) -> Option<int> {
    let digits = if s.len() > 0 && s[0] == '+' {
        s.skip(1)
    } else {
        s
    };
    if digits.len() > 0 && all_digits(digits) && decimal_value(digits) <= max {
        Some(decimal_value(digits))
    } else {
        None
    }
}

/// What a text of digits writes is no negative number.
pub proof fn law_unsigned_value(s: Seq<char>, max: int)
    ensures
        unsigned_value(s, max) matches Some(n) ==> 0 <= n <= max,
{
    let digits = if s.len() > 0 && s[0] == '+' {
        s.skip(1)
    } else {
        s
    };
    if all_digits(digits) {
        lemma_decimal_value_nonneg(digits);
    }
}

/// The digit for `d` (0 to 15), lower case.
pub open spec fn digit_char(d: int) -> char {
    if 0 <= d < 10 {
        ('0' as u32 + d) as char
    } else {
        ('a' as u32 + (d - 10)) as char
    }
}

/// `n` written in `base`, without leading zeros.
pub open spec fn in_base(n: nat, base: nat) -> Seq<char>
    decreases n,
{
    if base < 2 || n < base {
        seq![digit_char(n as int)]
    } else {
        proof {
            vstd::arithmetic::div_mod::lemma_div_decreases(n as int, base as int);
        }
        in_base(n / base, base).push(digit_char((n % base) as int))
    }
}

/// `n` in decimal.
pub open spec fn decimal(n: nat) -> Seq<char> {
    in_base(n, 10)
}

/// `c` with an ASCII upper case letter made lower case.
pub open spec fn lower_char(c: char) -> char {
    if 'A' <= c <= 'Z' {
        (c as u32 + 32) as char
    } else {
        c
    }
}

/// `s` with its ASCII upper case letters made lower case.
pub open spec fn lowered(s: Seq<char>) -> Seq<char> {
    s.map_values(|c: char| lower_char(c))
}

// ---------------------------------------------------------------------------
// Characters and strings
// ---------------------------------------------------------------------------

/// `String::push`: appends one character to the string.
pub assume_specification[ String::push ](s: &mut String, c: char)
    ensures
        final(s)@ == old(s)@.push(c),
;

/// The characters of `s`.
pub fn chars_of(s: &str) -> (r: Vec<char>)
    ensures
        r@ == s@,
{
    let mut r: Vec<char> = Vec::new();
    for c in it: s.chars()
        invariant
            r@ == it.seq().take(it.index() as int),
            it.seq() == s@,
    {
        r.push(c);
        assert(it.seq().take(it.index() + 1) =~= it.seq().take(it.index() as int).push(c));
    }
    assert(s@.take(s@.len() as int) =~= s@);
    r
}

/// The string made of characters `from..to` of `s`.
pub fn string_of(s: &Vec<char>, from: usize, to: usize) -> (r: String)
    requires
        from <= to <= s@.len(),
    ensures
        r@ == s@.subrange(from as int, to as int),
{
    let mut r = String::new();
    let mut i: usize = from;
    while i < to
        invariant
            from <= i <= to <= s@.len(),
            r@ == s@.subrange(from as int, i as int),
        decreases to - i,
    {
        r.push(s[i]);
        i = i + 1;
    }
    r
}

/// Whether `a` and `b` hold the same characters.
pub fn same(a: &str, b: &str) -> (r: bool)
    ensures
        r == (a@ == b@),
{
    a.to_owned() == b.to_owned()
}

/// Whether `s` starts with `prefix`.
pub fn starts_with(s: &str, prefix: &str) -> (r: bool)
    ensures
        r == prefix@.is_prefix_of(s@),
{
    let cs = chars_of(s);
    let ps = chars_of(prefix);
    if ps.len() > cs.len() {
        return false;
    }
    let mut i: usize = 0;
    while i < ps.len()
        invariant
            i <= ps@.len() <= cs@.len(),
            cs@ == s@,
            ps@ == prefix@,
            cs@.take(i as int) == ps@.take(i as int),
        decreases ps@.len() - i,
    {
        if cs[i] != ps[i] {
            assert(cs@.take(ps@.len() as int)[i as int] != ps@[i as int]);
            return false;
        }
        assert(cs@.take(i + 1) =~= cs@.take(i as int).push(cs@[i as int]));
        assert(ps@.take(i + 1) =~= ps@.take(i as int).push(ps@[i as int]));
        i = i + 1;
    }
    assert(ps@.take(ps@.len() as int) =~= ps@);
    true
}

/// Whether `needle` occurs in `s`.
pub fn contains(s: &str, needle: &str) -> (r: bool)
    ensures
        r == occurs(s@, needle@),
{
    let cs = chars_of(s);
    let n: usize = needle.unicode_len();
    if n == 0 {
        assert(s@.subrange(0, 0int + needle@.len()) =~= needle@);
        return true;
    }
    if n > cs.len() {
        return false;
    }
    let mut i: usize = 0;
    while i <= cs.len() - n
        invariant
            cs@ == s@,
            0 < n == needle@.len() <= cs@.len(),
            i <= cs@.len() - n + 1,
            forall|j: int| 0 <= j < i ==> #[trigger] s@.subrange(j, j + n) != needle@,
        decreases cs@.len() - n + 1 - i,
    {
        let here = string_of(&cs, i, i + n);
        if same(here.as_str(), needle) {
            assert(s@.subrange(i as int, i + needle@.len()) == needle@);
            return true;
        }
        i = i + 1;
    }
    false
}

// ---------------------------------------------------------------------------
// Trimming
// ---------------------------------------------------------------------------

/// Whether `c` is Unicode white space.
pub fn white(c: char) -> (r: bool)
    ensures
        r == is_white(c),
{
    let n: u32 = c as u32;
    (0x09 <= n && n <= 0x0d) || n == 0x20 || n == 0x85 || n == 0xa0 || n == 0x1680 || (0x2000 <= n
        && n <= 0x200a) || n == 0x2028 || n == 0x2029 || n == 0x202f || n == 0x205f || n == 0x3000
}

proof fn lemma_trim_start(s: Seq<char>, a: int)
    requires
        0 <= a <= s.len(),
        forall|i: int| 0 <= i < a ==> is_white(#[trigger] s[i]),
        a < s.len() ==> !is_white(s[a]),
    ensures
        trim_start(s) == s.skip(a),
    decreases a,
{
    if a > 0 {
        lemma_trim_start(s.skip(1), a - 1);
        assert(s.skip(1).skip(a - 1) =~= s.skip(a));
    } else {
        assert(s.skip(0) =~= s);
    }
}

proof fn lemma_trim_end(s: Seq<char>, b: int)
    requires
        0 <= b <= s.len(),
        forall|i: int| b <= i < s.len() ==> is_white(#[trigger] s[i]),
        b > 0 ==> !is_white(s[b - 1]),
    ensures
        trim_end(s) == s.take(b),
    decreases s.len() - b,
{
    if b < s.len() {
        lemma_trim_end(s.drop_last(), b);
        assert(s.drop_last().take(b) =~= s.take(b));
    } else {
        assert(s.take(b) =~= s);
    }
}

/// `s` without white space at either end.
pub fn trim<'a>(s: &'a str) -> (r: &'a str)
    ensures
        r@ == trimmed(s@),
{
    let cs = chars_of(s);
    let mut a: usize = 0;
    while a < cs.len() && white(cs[a])
        invariant
            a <= cs@.len(),
            forall|i: int| 0 <= i < a ==> is_white(#[trigger] cs@[i]),
        decreases cs@.len() - a,
    {
        a = a + 1;
    }
    let mut b: usize = cs.len();
    while b > a && white(cs[b - 1])
        invariant
            a <= b <= cs@.len(),
            forall|i: int| b <= i < cs@.len() ==> is_white(#[trigger] cs@[i]),
        decreases b,
    {
        b = b - 1;
    }
    proof {
        lemma_trim_start(s@, a as int);
        lemma_trim_end(s@.skip(a as int), b - a);
        assert(s@.skip(a as int).take(b - a) =~= s@.subrange(a as int, b as int));
    }
    s.substring_char(a, b)
}

proof fn lemma_without_leading(s: Seq<char>, c: char, a: int)
    requires
        0 <= a <= s.len(),
        forall|i: int| 0 <= i < a ==> #[trigger] s[i] == c,
        a < s.len() ==> s[a] != c,
    ensures
        without_leading(s, c) == s.skip(a),
    decreases a,
{
    if a > 0 {
        lemma_without_leading(s.skip(1), c, a - 1);
        assert(s.skip(1).skip(a - 1) =~= s.skip(a));
    } else {
        assert(s.skip(0) =~= s);
    }
}

proof fn lemma_without_trailing(s: Seq<char>, c: char, b: int)
    requires
        0 <= b <= s.len(),
        forall|i: int| b <= i < s.len() ==> #[trigger] s[i] == c,
        b > 0 ==> s[b - 1] != c,
    ensures
        without_trailing(s, c) == s.take(b),
    decreases s.len() - b,
{
    if b < s.len() {
        lemma_without_trailing(s.drop_last(), c, b);
        assert(s.drop_last().take(b) =~= s.take(b));
    } else {
        assert(s.take(b) =~= s);
    }
}

/// `s` without any leading `c`.
pub fn strip_leading<'a>(s: &'a str, c: char) -> (r: &'a str)
    ensures
        r@ == without_leading(s@, c),
{
    let cs = chars_of(s);
    let mut a: usize = 0;
    while a < cs.len() && cs[a] == c
        invariant
            a <= cs@.len(),
            forall|i: int| 0 <= i < a ==> #[trigger] cs@[i] == c,
        decreases cs@.len() - a,
    {
        a = a + 1;
    }
    proof {
        lemma_without_leading(s@, c, a as int);
        assert(s@.skip(a as int) =~= s@.subrange(a as int, s@.len() as int));
    }
    s.substring_char(a, cs.len())
}

/// `s` without any trailing `c`.
pub fn strip_trailing<'a>(s: &'a str, c: char) -> (r: &'a str)
    ensures
        r@ == without_trailing(s@, c),
{
    let cs = chars_of(s);
    let mut b: usize = cs.len();
    while b > 0 && cs[b - 1] == c
        invariant
            b <= cs@.len(),
            forall|i: int| b <= i < cs@.len() ==> #[trigger] cs@[i] == c,
        decreases b,
    {
        b = b - 1;
    }
    proof {
        lemma_without_trailing(s@, c, b as int);
        assert(s@.take(b as int) =~= s@.subrange(0, b as int));
    }
    s.substring_char(0, b)
}

// ---------------------------------------------------------------------------
// Splitting
// ---------------------------------------------------------------------------

/// `at` is the position of the first `c` in `s`, or its length if none.
pub proof fn lemma_first_of(s: Seq<char>, c: char, at: int)
    requires
        0 <= at <= s.len(),
        forall|i: int| 0 <= i < at ==> #[trigger] s[i] != c,
        at < s.len() ==> s[at] == c,
    ensures
        first_of(s, c) == at,
    decreases s.len(),
{
    if at > 0 {
        lemma_first_of(s.skip(1), c, at - 1);
    }
}

proof fn lemma_last_of(s: Seq<char>, c: char, at: int)
    requires
        -1 <= at < s.len(),
        forall|i: int| at < i < s.len() ==> #[trigger] s[i] != c,
        at >= 0 ==> s[at] == c,
    ensures
        last_of(s, c) == at,
    decreases s.len(),
{
    if at < s.len() - 1 {
        lemma_last_of(s.drop_last(), c, at);
    }
}

/// The position of the first `c` in `s`, if there is one.
pub fn find(s: &str, c: char) -> (r: Option<usize>)
    ensures
        match r {
            Some(at) => at == first_of(s@, c) && at < s@.len(),
            None => first_of(s@, c) == s@.len(),
        },
{
    let cs = chars_of(s);
    let mut i: usize = 0;
    while i < cs.len()
        invariant
            cs@ == s@,
            i <= cs@.len(),
            forall|j: int| 0 <= j < i ==> #[trigger] s@[j] != c,
        decreases cs@.len() - i,
    {
        if cs[i] == c {
            proof {
                lemma_first_of(s@, c, i as int);
            }
            return Some(i);
        }
        i = i + 1;
    }
    proof {
        lemma_first_of(s@, c, i as int);
    }
    None
}

/// The position of the last `c` in `s`, if there is one.
pub fn rfind(s: &str, c: char) -> (r: Option<usize>)
    ensures
        match r {
            Some(at) => at == last_of(s@, c) && at < s@.len(),
            None => last_of(s@, c) == -1,
        },
{
    let cs = chars_of(s);
    let mut i: usize = cs.len();
    while i > 0
        invariant
            cs@ == s@,
            i <= cs@.len(),
            forall|j: int| i <= j < cs@.len() ==> #[trigger] s@[j] != c,
        decreases i,
    {
        i = i - 1;
        if cs[i] == c {
            proof {
                lemma_last_of(s@, c, i as int);
            }
            return Some(i);
        }
    }
    proof {
        lemma_last_of(s@, c, -1);
    }
    None
}

/// The views of strings.
pub open spec fn views(v: Seq<String>) -> Seq<Seq<char>> {
    v.map_values(|s: String| s@)
}

/// The pieces of `s` between occurrences of `sep`.
pub fn split(s: &str, sep: char) -> (r: Vec<String>)
    ensures
        views(r@) == pieces(s@, sep),
{
    let cs = chars_of(s);
    let mut r: Vec<String> = Vec::new();
    let mut from: usize = 0;
    let mut i: usize = 0;
    assert(s@.skip(0) =~= s@);
    assert(views(r@) + pieces(s@.skip(0), sep) =~= pieces(s@, sep));
    while i < cs.len()
        invariant
            cs@ == s@,
            from <= i <= cs@.len(),
            forall|j: int| from <= j < i ==> #[trigger] s@[j] != sep,
            views(r@) + pieces(s@.skip(from as int), sep) == pieces(s@, sep),
        decreases cs@.len() - i,
    {
        if cs[i] == sep {
            let ghost done = views(r@);
            let ghost rest = s@.skip(from as int);
            r.push(string_of(&cs, from, i));
            proof {
                lemma_first_of(rest, sep, i - from);
                assert(rest.take(i - from) =~= s@.subrange(from as int, i as int));
                assert(rest.skip(i - from + 1) =~= s@.skip(i + 1));
                assert(views(r@) =~= done.push(rest.take(i - from)));
                assert(views(r@) + pieces(s@.skip(i + 1), sep) =~= done + pieces(rest, sep));
            }
            from = i + 1;
        }
        i = i + 1;
    }
    let ghost done = views(r@);
    let ghost rest = s@.skip(from as int);
    r.push(string_of(&cs, from, i));
    proof {
        lemma_first_of(rest, sep, i - from);
        assert(rest =~= s@.subrange(from as int, i as int));
        assert(views(r@) =~= done + seq![rest]);
    }
    r
}

// ---------------------------------------------------------------------------
// Numbers
// ---------------------------------------------------------------------------

/// Whether every character of `s` is a decimal digit.
pub fn digits_only(s: &str) -> (r: bool)
    ensures
        r == all_digits(s@),
{
    let cs = chars_of(s);
    let mut i: usize = 0;
    while i < cs.len()
        invariant
            cs@ == s@,
            i <= cs@.len(),
            forall|j: int| 0 <= j < i ==> is_digit(#[trigger] s@[j]),
        decreases cs@.len() - i,
    {
        if !('0' <= cs[i] && cs[i] <= '9') {
            return false;
        }
        i = i + 1;
    }
    true
}

proof fn lemma_decimal_value_grows(s: Seq<char>, n: int)
    requires
        all_digits(s),
        0 <= n <= s.len(),
    ensures
        0 <= decimal_value(s.take(n)) <= decimal_value(s),
    decreases s.len() - n, n,
{
    if n < s.len() {
        lemma_decimal_value_grows(s, n + 1);
        assert(s.take(n + 1).drop_last() =~= s.take(n));
        lemma_decimal_value_nonneg(s.take(n));
    } else {
        assert(s.take(n) =~= s);
        lemma_decimal_value_nonneg(s);
    }
}

proof fn lemma_decimal_value_nonneg(s: Seq<char>)
    requires
        all_digits(s),
    ensures
        0 <= decimal_value(s),
    decreases s.len(),
{
    if s.len() > 0 {
        lemma_decimal_value_nonneg(s.drop_last());
    }
}

/// The number that decimal digits `s` write, if it is at most `max`.
pub fn digits_value(s: &str, max: u64) -> (r: Option<u64>)
    requires
        all_digits(s@),
    ensures
        match r {
            Some(n) => n == decimal_value(s@) && n <= max,
            None => decimal_value(s@) > max,
        },
{
    let cs = chars_of(s);
    let mut n: u64 = 0;
    let mut i: usize = 0;
    assert(s@.take(0) =~= Seq::<char>::empty());
    while i < cs.len()
        invariant
            cs@ == s@,
            all_digits(s@),
            i <= cs@.len(),
            n == decimal_value(s@.take(i as int)),
            n <= max,
        decreases cs@.len() - i,
    {
        proof {
            assert(s@.take(i + 1).drop_last() =~= s@.take(i as int));
            lemma_decimal_value_grows(s@, i + 1);
        }
        let d: u64 = (cs[i] as u32 - '0' as u32) as u64;
        match n.checked_mul(10) {
            Some(m) => {
                if m > max || d > max - m {
                    return None;
                }
                n = m + d;
            },
            None => {
                return None;
            },
        }
        i = i + 1;
    }
    assert(s@.take(s@.len() as int) =~= s@);
    Some(n)
}

/// The unsigned number, at most `max`, that `s` writes.
pub fn parse_unsigned(s: &str, max: u64) -> (r: Option<u64>)
    ensures
        match r {
            Some(n) => unsigned_value(s@, max as int) == Some(n as int),
            None => unsigned_value(s@, max as int) is None,
        },
{
    let len: usize = s.unicode_len();
    let from: usize = if len > 0 && s.get_char(0) == '+' {
        1
    } else {
        0
    };
    let digits = s.substring_char(from, len);
    assert(s@.subrange(0, s@.len() as int) =~= s@);
    assert(from == 1 ==> s@.skip(1) =~= digits@);
    if digits.unicode_len() == 0 || !digits_only(digits) {
        return None;
    }
    digits_value(digits, max)
}

/// The digit for `d`, lower case.
fn digit(d: u64) -> (r: char)
    requires
        d < 16,
    ensures
        r == digit_char(d as int),
{
    if d < 10 {
        (48u8 + d as u8) as char
    } else {
        (97u8 + (d as u8 - 10)) as char
    }
}

/// `n` written in `base`, without leading zeros.
pub fn to_base(n: u64, base: u64) -> (r: String)
    requires
        2 <= base <= 16,
    ensures
        r@ == in_base(n as nat, base as nat),
    decreases n,
{
    if n < base {
        let mut r = String::new();
        r.push(digit(n));
        assert(r@ =~= seq![digit_char(n as int)]);
        r
    } else {
        proof {
            vstd::arithmetic::div_mod::lemma_div_decreases(n as int, base as int);
        }
        let mut r = to_base(n / base, base);
        r.push(digit(n % base));
        r
    }
}

/// `n` in decimal.
pub fn to_decimal(n: u64) -> (r: String)
    ensures
        r@ == decimal(n as nat),
{
    to_base(n, 10)
}

// ---------------------------------------------------------------------------
// Letter case
// ---------------------------------------------------------------------------

/// `s` with its ASCII upper case letters made lower case.
pub fn lowercase(s: &str) -> (r: String)
    ensures
        r@ == lowered(s@),
{
    let cs = chars_of(s);
    let mut r = String::new();
    let mut i: usize = 0;
    while i < cs.len()
        invariant
            cs@ == s@,
            i <= cs@.len(),
            r@ == lowered(s@.take(i as int)),
        decreases cs@.len() - i,
    {
        let c = cs[i];
        if 'A' <= c && c <= 'Z' {
            r.push((c as u8 + 32) as char);
        } else {
            r.push(c);
        }
        assert(lowered(s@.take(i + 1)) =~= lowered(s@.take(i as int)).push(lower_char(c)));
        i = i + 1;
    }
    assert(s@.take(s@.len() as int) =~= s@);
    r
}

// ---------------------------------------------------------------------------
// Quoting
// ---------------------------------------------------------------------------

/// `s` as Rust's `{:?}` shows it: in double quotes, escaped.
pub uninterp spec fn debug_form(s: Seq<char>) -> Seq<char>;

/// `format!("{:?}")` of a string: the string in double quotes, escaped.
#[verifier::external_body]
pub(crate) fn debug_quote(s: &str) -> (r: String)
    ensures
        r@ == debug_form(s@),
{
    format!("{:?}", s)
}

// ---------------------------------------------------------------------------
// Bytes
// ---------------------------------------------------------------------------

/// `bytes` read as UTF-8, with U+FFFD for what is not.
pub uninterp spec fn lossy_text(bytes: Seq<u8>) -> Seq<char>;

/// `String::from_utf8_lossy`: the text of `bytes`, with replacement characters
/// where they are not valid UTF-8. Valid UTF-8 is read as it stands.
#[verifier::external_body]
pub(crate) fn lossy(bytes: &[u8]) -> (r: String)
    ensures
        r@ == lossy_text(bytes@),
        valid_utf8(bytes@) ==> r@ == decode_utf8(bytes@),
{
    String::from_utf8_lossy(bytes).into_owned()
}

// ---------------------------------------------------------------------------
// Laws
// ---------------------------------------------------------------------------

/// What is written in decimal is digits, and reads back as the number.
pub proof fn law_decimal_reads_back(n: nat)
    ensures
        decimal(n).len() > 0,
        all_digits(decimal(n)),
        decimal_value(decimal(n)) == n,
        forall|max: int| n <= max ==> #[trigger] unsigned_value(decimal(n), max) == Some(n as int),
        forall|max: int| n > max ==> #[trigger] unsigned_value(decimal(n), max) is None,
    decreases n,
{
    if n < 10 {
        let s = decimal(n);
        assert(s =~= seq![digit_char(n as int)]);
        assert(s.drop_last() =~= seq![]);
        assert(decimal_value(s.drop_last()) == 0);
        assert(s.last() as u32 == '0' as u32 + n);
    } else {
        law_decimal_reads_back(n / 10);
        let s = decimal(n);
        let head = decimal(n / 10);
        let d = digit_char((n % 10) as int);
        assert(s =~= head.push(d));
        assert(s.drop_last() =~= head);
        assert(d as u32 == '0' as u32 + n % 10);
        assert forall|i: int| 0 <= i < s.len() implies is_digit(#[trigger] s[i]) by {
            if i < head.len() {
                assert(s[i] == head[i]);
            }
        }
    }
    assert(is_digit(decimal(n)[0]));
}

/// A number in decimal has no white space around it.
pub proof fn law_decimal_is_trim(n: nat)
    ensures
        trimmed(decimal(n)) == decimal(n),
{
    law_decimal_reads_back(n);
    assert(is_digit(decimal(n)[0]));
    assert(is_digit(decimal(n).last()));
}

/// Trimming takes white space off both ends, all of it, and nothing else: what
/// is left is `s` from `r.0` to `r.1`.
pub proof fn law_trimming(s: Seq<char>) -> (r: (int, int))
    ensures
        0 <= r.0 <= r.1 <= s.len(),
        trimmed(s) == s.subrange(r.0, r.1),
        forall|i: int| 0 <= i < r.0 ==> is_white(#[trigger] s[i]),
        forall|i: int| r.1 <= i < s.len() ==> is_white(#[trigger] s[i]),
        r.0 < r.1 ==> !is_white(s[r.0]) && !is_white(s[r.1 - 1]),
        r.0 == r.1 ==> r.0 == s.len(),
{
    let a = lemma_leading_white(s);
    lemma_trim_start(s, a);
    let t = s.skip(a);
    let b = lemma_trailing_white(t);
    lemma_trim_end(t, b);
    assert(t.take(b) =~= s.subrange(a, a + b));
    assert forall|i: int| a + b <= i < s.len() implies is_white(#[trigger] s[i]) by {
        assert(t[i - a] == s[i]);
    }
    if b == 0 && a < s.len() {
        assert(is_white(t[0]));
    }
    if b > 0 {
        assert(t[b - 1] == s[a + b - 1]);
    }
    (a, a + b)
}

proof fn lemma_leading_white(s: Seq<char>) -> (a: int)
    ensures
        0 <= a <= s.len(),
        forall|i: int| 0 <= i < a ==> is_white(#[trigger] s[i]),
        a < s.len() ==> !is_white(s[a]),
    decreases s.len(),
{
    if s.len() > 0 && is_white(s[0]) {
        let a = lemma_leading_white(s.skip(1));
        assert forall|i: int| 0 <= i < a + 1 implies is_white(#[trigger] s[i]) by {
            if i > 0 {
                assert(s.skip(1)[i - 1] == s[i]);
            }
        }
        a + 1
    } else {
        0
    }
}

proof fn lemma_trailing_white(s: Seq<char>) -> (b: int)
    ensures
        0 <= b <= s.len(),
        forall|i: int| b <= i < s.len() ==> is_white(#[trigger] s[i]),
        b > 0 ==> !is_white(s[b - 1]),
    decreases s.len(),
{
    if s.len() > 0 && is_white(s.last()) {
        let b = lemma_trailing_white(s.drop_last());
        assert forall|i: int| b <= i < s.len() implies is_white(#[trigger] s[i]) by {
            if i < s.len() - 1 {
                assert(s.drop_last()[i] == s[i]);
            }
        }
        b
    } else {
        s.len() as int
    }
}

proof fn lemma_trimmed_to(s: Seq<char>, a: int, b: int)
    requires
        0 <= a <= b <= s.len(),
        forall|i: int| 0 <= i < a ==> is_white(#[trigger] s[i]),
        forall|i: int| b <= i < s.len() ==> is_white(#[trigger] s[i]),
        a < b ==> !is_white(s[a]) && !is_white(s[b - 1]),
        a == b ==> a == s.len(),
    ensures
        trimmed(s) == s.subrange(a, b),
{
    lemma_trim_start(s, a);
    let t = s.skip(a);
    lemma_trim_end(t, b - a);
    assert(t.take(b - a) =~= s.subrange(a, b));
}

/// White space around a text does not count.
pub proof fn law_white_around_is_ignored(a: Seq<char>, s: Seq<char>, b: Seq<char>)
    requires
        forall|i: int| 0 <= i < a.len() ==> is_white(#[trigger] a[i]),
        forall|i: int| 0 <= i < b.len() ==> is_white(#[trigger] b[i]),
    ensures
        trimmed(a + s + b) == trimmed(s),
{
    let all = a + s + b;
    let n = a.len() as int;
    let (i, j) = law_trimming(s);
    if i < j {
        assert forall|k: int| 0 <= k < n + i implies is_white(#[trigger] all[k]) by {
            if k < n {
                assert(all[k] == a[k]);
            } else {
                assert(all[k] == s[k - n]);
            }
        }
        assert forall|k: int| n + j <= k < all.len() implies is_white(#[trigger] all[k]) by {
            if k < n + s.len() {
                assert(all[k] == s[k - n]);
            } else {
                assert(all[k] == b[k - n - s.len()]);
            }
        }
        lemma_trimmed_to(all, n + i, n + j);
        assert(all.subrange(n + i, n + j) =~= s.subrange(i, j));
    } else {
        let m = all.len() as int;
        assert forall|k: int| 0 <= k < m implies is_white(#[trigger] all[k]) by {
            if k < n {
                assert(all[k] == a[k]);
            } else if k < n + s.len() {
                assert(all[k] == s[k - n]);
            } else {
                assert(all[k] == b[k - n - s.len()]);
            }
        }
        lemma_trimmed_to(all, m, m);
        assert(all.subrange(m, m) =~= s.subrange(i, j));
    }
}

/// A text with no white space at its ends is left as it is.
pub proof fn law_trim_text_is_kept(s: Seq<char>)
    requires
        s.len() > 0 ==> !is_white(s[0]) && !is_white(s.last()),
    ensures
        trimmed(s) == s,
{
    lemma_trimmed_to(s, 0, s.len() as int);
    assert(s.subrange(0, s.len() as int) =~= s);
}

/// The first `c` is a `c`, and there is none before it.
pub proof fn law_first_is_first(s: Seq<char>, c: char)
    ensures
        0 <= first_of(s, c) <= s.len(),
        first_of(s, c) < s.len() ==> s[first_of(s, c)] == c,
        forall|i: int| 0 <= i < first_of(s, c) ==> #[trigger] s[i] != c,
    decreases s.len(),
{
    if s.len() > 0 && s[0] != c {
        law_first_is_first(s.skip(1), c);
        assert forall|i: int| 0 <= i < first_of(s, c) implies #[trigger] s[i] != c by {
            if i > 0 {
                assert(s.skip(1)[i - 1] == s[i]);
            }
        }
    }
}

/// The last `c` is a `c`, and there is none behind it.
pub proof fn law_last_is_last(s: Seq<char>, c: char)
    ensures
        -1 <= last_of(s, c) < s.len(),
        last_of(s, c) >= 0 ==> s[last_of(s, c)] == c,
        forall|i: int| last_of(s, c) < i < s.len() ==> #[trigger] s[i] != c,
    decreases s.len(),
{
    if s.len() > 0 && s.last() != c {
        law_last_is_last(s.drop_last(), c);
        assert forall|i: int| last_of(s, c) < i < s.len() implies #[trigger] s[i] != c by {
            if i < s.len() - 1 {
                assert(s.drop_last()[i] == s[i]);
            }
        }
    }
}

/// Splitting goes at every separator and nowhere else: what is on either side
/// of one is split on its own, and a text without any is one piece.
pub proof fn law_splitting(a: Seq<char>, b: Seq<char>, sep: char)
    ensures
        pieces(a + seq![sep] + b, sep) == pieces(a, sep) + pieces(b, sep),
        !a.contains(sep) ==> pieces(a, sep) == seq![a],
    decreases a.len(),
{
    let all = a + seq![sep] + b;
    law_first_is_first(a, sep);
    let at = first_of(a, sep);
    if at < a.len() {
        assert(a.contains(sep));
        let rest = a.skip(at + 1);
        law_splitting(rest, b, sep);
        lemma_first_of(all, sep, at);
        assert(all.take(at) =~= a.take(at));
        assert(all.skip(at + 1) =~= rest + seq![sep] + b);
        assert(pieces(all, sep) =~= seq![a.take(at)] + (pieces(rest, sep) + pieces(b, sep)));
        assert(pieces(all, sep) =~= pieces(a, sep) + pieces(b, sep));
    } else {
        assert forall|i: int| 0 <= i < a.len() implies #[trigger] all[i] != sep by {
            assert(all[i] == a[i]);
        }
        lemma_first_of(all, sep, a.len() as int);
        assert(all.take(a.len() as int) =~= a);
        assert(all.skip(a.len() + 1int) =~= b);
    }
}

/// Leading `c`s go, all of them, and nothing else.
pub proof fn law_leading_are_dropped(n: nat, s: Seq<char>, c: char)
    requires
        s.len() > 0 ==> s[0] != c,
    ensures
        without_leading(Seq::new(n, |i: int| c) + s, c) == s,
{
    let all = Seq::new(n, |i: int| c) + s;
    lemma_without_leading(all, c, n as int);
    assert(all.skip(n as int) =~= s);
}

/// Trailing `c`s go, all of them, and nothing else.
pub proof fn law_trailing_are_dropped(s: Seq<char>, n: nat, c: char)
    requires
        s.len() > 0 ==> s.last() != c,
    ensures
        without_trailing(s + Seq::new(n, |i: int| c), c) == s,
{
    let all = s + Seq::new(n, |i: int| c);
    lemma_without_trailing(all, c, s.len() as int);
    assert(all.take(s.len() as int) =~= s);
}

/// Only digits, behind a plus sign or not, are read as a number, and the
/// number is what they write in decimal: a digit behind them makes it ten times
/// as large, and adds its own.
pub proof fn law_numbers_are_decimal(s: Seq<char>, d: char, max: int)
    ensures
        unsigned_value(s, max) is Some ==> s.len() > 0 && forall|i: int|
            1 <= i < s.len() ==> '0' <= #[trigger] s[i] <= '9',
        unsigned_value(s, max) is Some ==> s[0] == '+' || '0' <= s[0] <= '9',
        '0' <= d <= '9' ==> decimal_value(s.push(d)) == decimal_value(s) * 10 + (d as u32
            - '0' as u32),
        decimal_value(seq![]) == 0,
{
    assert(s.push(d).drop_last() =~= s);
    if unsigned_value(s, max) is Some {
        let digits = if s.len() > 0 && s[0] == '+' {
            s.skip(1)
        } else {
            s
        };
        assert(is_digit(digits[0]));
        assert forall|i: int| 1 <= i < s.len() implies '0' <= #[trigger] s[i] <= '9' by {
            if s[0] == '+' {
                assert(digits[i - 1] == s[i]);
            }
            assert(is_digit(s[i]));
        }
    }
}

/// Letters `A` to `Z` are made lower case one by one, and nothing else changes.
pub proof fn law_lowering(s: Seq<char>, i: int)
    requires
        0 <= i < s.len(),
    ensures
        lowered(s).len() == s.len(),
        'A' <= s[i] <= 'Z' ==> lowered(s)[i] as u32 == s[i] as u32 + 32,
        !('A' <= s[i] <= 'Z') ==> lowered(s)[i] == s[i],
        lowered(lowered(s)) == lowered(s),
{
    assert(lowered(lowered(s)) =~= lowered(s));
}

/// A text occurs wherever it is put.
pub proof fn law_what_is_there_occurs(a: Seq<char>, needle: Seq<char>, b: Seq<char>)
    ensures
        occurs(a + needle + b, needle),
{
    let all = a + needle + b;
    let n = a.len() as int;
    assert(all.subrange(n, n + needle.len()) =~= needle);
}

/// White space is these characters and no others.
pub proof fn law_white_space(c: char)
    ensures
        is_white(c) <==> {
            ||| c == '\t' || c == '\n' || c == '\u{0b}' || c == '\u{0c}' || c == '\r' || c == ' '
            ||| c == '\u{85}' || c == '\u{a0}' || c == '\u{1680}'
            ||| '\u{2000}' <= c <= '\u{200a}'
            ||| c == '\u{2028}' || c == '\u{2029}' || c == '\u{202f}' || c == '\u{205f}' || c
                == '\u{3000}'
        },
{
}

/// A text that occurs is there: `r.0` stands before it and `r.1` behind.
pub proof fn law_what_occurs_is_there(s: Seq<char>, needle: Seq<char>) -> (r: (
    Seq<char>,
    Seq<char>,
))
    requires
        occurs(s, needle),
    ensures
        s == r.0 + needle + r.1,
{
    let i = choose|i: int|
        0 <= i <= s.len() - needle.len() && #[trigger] s.subrange(i, i + needle.len()) == needle;
    let a = s.take(i);
    let b = s.skip(i + needle.len());
    assert(s =~= a + s.subrange(i, i + needle.len()) + b);
    (a, b)
}

} // verus!
