//! Character-level helpers on which the text rules of the library rest:
//! whitespace, punctuation, case, and numbers written in decimal.

use vstd::prelude::*;

verus! {

/// The characters that carry the Unicode `White_Space` property.
pub open spec fn is_whitespace(c: char) -> bool {
    let n = c as u32;
    ||| 0x09 <= n <= 0x0D
    ||| n == 0x20
    ||| n == 0x85
    ||| n == 0xA0
    ||| n == 0x1680
    ||| 0x2000 <= n <= 0x200A
    ||| n == 0x2028
    ||| n == 0x2029
    ||| n == 0x202F
    ||| n == 0x205F
    ||| n == 0x3000
}

/// The ASCII punctuation characters.
pub open spec fn is_ascii_punctuation(c: char) -> bool {
    let n = c as u32;
    ||| 0x21 <= n <= 0x2F
    ||| 0x3A <= n <= 0x40
    ||| 0x5B <= n <= 0x60
    ||| 0x7B <= n <= 0x7E
}

/// The code of a character, with the letters `A` to `Z` taken as `a` to `z`.
pub open spec fn ascii_folded(c: char) -> int {
    let n = c as u32;
    if 0x41 <= n <= 0x5A {
        n + 0x20
    } else {
        n as int
    }
}

/// Whitespace, as a predicate.
pub open spec fn whitespace() -> spec_fn(char) -> bool {
    |c: char| is_whitespace(c)
}

/// ASCII punctuation, as a predicate.
pub open spec fn ascii_punctuation() -> spec_fn(char) -> bool {
    |c: char| is_ascii_punctuation(c)
}

/// Tells whether `c` is a whitespace character.
pub fn is_whitespace_char(c: char) -> (r: bool)
    ensures
        r == is_whitespace(c),
        r == whitespace()(c),
{
    let n: u32 = c as u32;
    (0x09 <= n && n <= 0x0D) || n == 0x20 || n == 0x85 || n == 0xA0 || n == 0x1680 || (0x2000 <= n
        && n <= 0x200A) || n == 0x2028 || n == 0x2029 || n == 0x202F || n == 0x205F || n == 0x3000
}

/// Tells whether `c` is an ASCII punctuation character.
pub fn is_ascii_punctuation_char(c: char) -> (r: bool)
    ensures
        r == is_ascii_punctuation(c),
        r == ascii_punctuation()(c),
{
    let n: u32 = c as u32;
    (0x21 <= n && n <= 0x2F) || (0x3A <= n && n <= 0x40) || (0x5B <= n && n <= 0x60) || (0x7B <= n
        && n <= 0x7E)
}

/// The code of `c`, with the letters `A` to `Z` taken as `a` to `z`.
pub fn ascii_folded_char(c: char) -> (r: u32)
    ensures
        r == ascii_folded(c),
{
    let n: u32 = c as u32;
    if 0x41 <= n && n <= 0x5A {
        n + 0x20
    } else {
        n
    }
}

/// The characters of a string, in order.
pub fn chars_of(s: &str) -> (v: Vec<char>)
    ensures
        v@ == s@,
{
    let mut v: Vec<char> = Vec::new();
    for c in it: s.chars()
        invariant
            v@ == s@.take(it.index() as int),
            it.seq() == s@,
    {
        v.push(c);
    }
    v
}

/// Number of characters at the front of `s` that satisfy `pred`.
pub open spec fn leading_run(s: Seq<char>, pred: spec_fn(char) -> bool) -> nat
    decreases s.len(),
{
    if s.len() > 0 && pred(s[0]) {
        1 + leading_run(s.drop_first(), pred)
    } else {
        0
    }
}

/// Number of characters at the back of `s` that satisfy `pred`.
pub open spec fn trailing_run(s: Seq<char>, pred: spec_fn(char) -> bool) -> nat
    decreases s.len(),
{
    if s.len() > 0 && pred(s.last()) {
        1 + trailing_run(s.drop_last(), pred)
    } else {
        0
    }
}

/// `s` without the characters at its front and at its back that satisfy `pred`.
pub open spec fn strip(s: Seq<char>, pred: spec_fn(char) -> bool) -> Seq<char> {
    if leading_run(s, pred) == s.len() {
        Seq::empty()
    } else {
        s.subrange(leading_run(s, pred) as int, s.len() - trailing_run(s, pred))
    }
}

/// A string is blank when it holds nothing but whitespace.
pub open spec fn is_blank(s: Seq<char>) -> bool {
    leading_run(s, whitespace()) == s.len()
}

/// `s` without its leading and trailing whitespace.
pub open spec fn trim(s: Seq<char>) -> Seq<char> {
    strip(s, whitespace())
}

/// Two strings are the same but for the case of the letters `A` to `Z`.
/// Letters beyond ASCII are the same only if they are the same character.
pub open spec fn eq_ignore_ascii_case(a: Seq<char>, b: Seq<char>) -> bool {
    a.len() == b.len() && forall|i: int| 0 <= i < a.len() ==> ascii_folded(#[trigger] a[i]) == ascii_folded(b[i])
}

/// The leading run of `s` is its longest prefix of characters that satisfy `pred`.
pub proof fn lemma_leading_run(s: Seq<char>, pred: spec_fn(char) -> bool, a: int)
    requires
        0 <= a <= s.len(),
        forall|i: int| 0 <= i < a ==> pred(#[trigger] s[i]),
        a == s.len() || !pred(s[a]),
    ensures
        leading_run(s, pred) == a,
    decreases a,
{
    if a > 0 {
        let rest = s.drop_first();
        assert forall|i: int| 0 <= i < a - 1 implies pred(#[trigger] rest[i]) by {
            assert(rest[i] == s[i + 1]);
        }
        if a < s.len() {
            assert(rest[a - 1] == s[a]);
        }
        lemma_leading_run(rest, pred, a - 1);
    }
}

/// The trailing run of `s` is its longest suffix of characters that satisfy `pred`.
pub proof fn lemma_trailing_run(s: Seq<char>, pred: spec_fn(char) -> bool, b: int)
    requires
        0 <= b <= s.len(),
        forall|i: int| b <= i < s.len() ==> pred(#[trigger] s[i]),
        b == 0 || !pred(s[b - 1]),
    ensures
        trailing_run(s, pred) == s.len() - b,
    decreases s.len() - b,
{
    if b < s.len() {
        let rest = s.drop_last();
        assert forall|i: int| b <= i < rest.len() implies pred(#[trigger] rest[i]) by {
            assert(rest[i] == s[i]);
        }
        if b > 0 {
            assert(rest[b - 1] == s[b - 1]);
        }
        lemma_trailing_run(rest, pred, b);
    }
}

/// Around a character that does not satisfy `pred`, something is left of `s`
/// when it is stripped.
pub proof fn lemma_strip_keeps(s: Seq<char>, pred: spec_fn(char) -> bool, i: int)
    requires
        0 <= i < s.len(),
        !pred(s[i]),
    ensures
        leading_run(s, pred) <= i,
        trailing_run(s, pred) <= s.len() - 1 - i,
        strip(s, pred).len() > 0,
    decreases s.len(),
{
    if pred(s[0]) {
        lemma_strip_keeps(s.drop_first(), pred, i - 1);
    }
    if pred(s.last()) {
        lemma_strip_keeps(s.drop_last(), pred, i);
    }
}

/// Tells whether `chars` holds nothing but whitespace.
pub fn is_blank_chars(chars: &Vec<char>) -> (r: bool)
    ensures
        r == is_blank(chars@),
{
    let mut a: usize = 0;
    while a < chars.len() && is_whitespace_char(chars[a])
        invariant
            a <= chars.len(),
            forall|i: int| 0 <= i < a ==> whitespace()(#[trigger] chars@[i]),
        decreases chars.len() - a,
    {
        a += 1;
    }
    proof {
        lemma_leading_run(chars@, whitespace(), a as int);
    }
    a == chars.len()
}

/// Copies `s` without its leading and trailing whitespace.
pub fn trimmed(s: &str) -> (r: String)
    ensures
        r@ == trim(s@),
{
    let chars = chars_of(s);
    let n = chars.len();
    let mut a: usize = 0;
    while a < n && is_whitespace_char(chars[a])
        invariant
            n == chars.len(),
            a <= n,
            forall|i: int| 0 <= i < a ==> whitespace()(#[trigger] chars@[i]),
        decreases n - a,
    {
        a += 1;
    }
    proof {
        lemma_leading_run(chars@, whitespace(), a as int);
    }
    if a == n {
        return String::new();
    }
    let mut b: usize = n;
    while b > 0 && is_whitespace_char(chars[b - 1])
        invariant
            n == chars.len(),
            b <= n,
            forall|i: int| b <= i < n ==> whitespace()(#[trigger] chars@[i]),
        decreases b,
    {
        b -= 1;
    }
    proof {
        lemma_trailing_run(chars@, whitespace(), b as int);
        lemma_strip_keeps(chars@, whitespace(), a as int);
    }
    String::from_str(s.substring_char(a, b))
}

/// Tells whether two strings hold the same characters.
pub fn str_eq(a: &str, b: &str) -> (r: bool)
    ensures
        r == (a@ == b@),
{
    let x = chars_of(a);
    let y = chars_of(b);
    if x.len() != y.len() {
        return false;
    }
    let mut i: usize = 0;
    while i < x.len()
        invariant
            i <= x.len(),
            x.len() == y.len(),
            x@ == a@,
            y@ == b@,
            forall|j: int| 0 <= j < i ==> x@[j] == y@[j],
        decreases x.len() - i,
    {
        if x[i] != y[i] {
            return false;
        }
        i += 1;
    }
    assert(x@ =~= y@);
    true
}

/// The digit for a number below ten.
pub open spec fn digit(d: nat) -> char {
    if d == 0 {
        '0'
    } else if d == 1 {
        '1'
    } else if d == 2 {
        '2'
    } else if d == 3 {
        '3'
    } else if d == 4 {
        '4'
    } else if d == 5 {
        '5'
    } else if d == 6 {
        '6'
    } else if d == 7 {
        '7'
    } else if d == 8 {
        '8'
    } else {
        '9'
    }
}

/// A number written in decimal.
pub open spec fn decimal(n: nat) -> Seq<char>
    decreases n,
{
    if n < 10 {
        seq![digit(n)]
    } else {
        decimal(n / 10).push(digit(n % 10))
    }
}

/// The number that a digit stands for.
pub open spec fn digit_value(c: char) -> Option<nat> {
    if c == '0' {
        Some(0)
    } else if c == '1' {
        Some(1)
    } else if c == '2' {
        Some(2)
    } else if c == '3' {
        Some(3)
    } else if c == '4' {
        Some(4)
    } else if c == '5' {
        Some(5)
    } else if c == '6' {
        Some(6)
    } else if c == '7' {
        Some(7)
    } else if c == '8' {
        Some(8)
    } else if c == '9' {
        Some(9)
    } else {
        None
    }
}

/// The number that `s` writes in decimal, if it writes one: digits only,
/// at least one, and no `0` before another digit.
pub open spec fn parse_decimal(s: Seq<char>) -> Option<nat>
    decreases s.len(),
{
    if s.len() == 0 {
        None
    } else if s.len() == 1 {
        digit_value(s[0])
    } else {
        let front = parse_decimal(s.drop_last());
        let back = digit_value(s.last());
        if front is Some && front->0 > 0 && back is Some {
            Some(10 * front->0 + back->0)
        } else {
            None
        }
    }
}

/// What is read back from a number written in decimal is that number.
pub proof fn lemma_parse_decimal(n: nat)
    ensures
        parse_decimal(decimal(n)) == Some(n),
        decimal(n).len() >= 1,
    decreases n,
{
    if n >= 10 {
        lemma_parse_decimal(n / 10);
        let s = decimal(n);
        assert(s.drop_last() == decimal(n / 10));
        assert(s.last() == digit(n % 10));
    }
}

/// Only the decimal notation of a number is read as that number.
pub proof fn lemma_decimal_parse(s: Seq<char>, n: nat)
    requires
        parse_decimal(s) == Some(n),
    ensures
        s == decimal(n),
    decreases s.len(),
{
    if s.len() == 1 {
        assert(s =~= seq![digit(n)]);
    } else {
        let v = parse_decimal(s.drop_last())->0;
        lemma_decimal_parse(s.drop_last(), v);
        assert(s =~= s.drop_last().push(s.last()));
    }
}

/// Where a string writes a number, each of its starts writes a number that
/// is no greater.
pub proof fn lemma_parse_prefix(s: Seq<char>, k: int)
    requires
        parse_decimal(s) is Some,
        1 <= k <= s.len(),
    ensures
        parse_decimal(s.take(k)) is Some,
        parse_decimal(s.take(k))->0 <= parse_decimal(s)->0,
    decreases s.len(),
{
    if k == s.len() {
        assert(s.take(k) == s);
    } else {
        lemma_parse_prefix(s.drop_last(), k);
        assert(s.drop_last().take(k) == s.take(k));
    }
}

fn digit_str(d: u64) -> (r: &'static str)
    requires
        d < 10,
    ensures
        r@ == seq![digit(d as nat)],
{
    proof {
        reveal_strlit("0");
        reveal_strlit("1");
        reveal_strlit("2");
        reveal_strlit("3");
        reveal_strlit("4");
        reveal_strlit("5");
        reveal_strlit("6");
        reveal_strlit("7");
        reveal_strlit("8");
        reveal_strlit("9");
    }
    let r = if d == 0 {
        "0"
    } else if d == 1 {
        "1"
    } else if d == 2 {
        "2"
    } else if d == 3 {
        "3"
    } else if d == 4 {
        "4"
    } else if d == 5 {
        "5"
    } else if d == 6 {
        "6"
    } else if d == 7 {
        "7"
    } else if d == 8 {
        "8"
    } else {
        "9"
    };
    assert(r@ =~= seq![digit(d as nat)]);
    r
}

/// Appends `n`, written in decimal, to `s`.
pub fn push_decimal(s: &mut String, n: u64)
    ensures
        final(s)@ == old(s)@ + decimal(n as nat),
    decreases n,
{
    if n >= 10 {
        push_decimal(s, n / 10);
    }
    s.append(digit_str(n % 10));
    assert(final(s)@ =~= old(s)@ + decimal(n as nat));
}

/// A number with its sign written in decimal.
pub open spec fn signed_decimal(n: int) -> Seq<char> {
    if n < 0 {
        seq!['-'] + decimal((-n) as nat)
    } else {
        decimal(n as nat)
    }
}

/// Appends `n`, written in decimal with its sign, to `s`.
pub fn push_signed_decimal(s: &mut String, n: i64)
    ensures
        final(s)@ == old(s)@ + signed_decimal(n as int),
{
    if n < 0 {
        proof {
            reveal_strlit("-");
        }
        s.append("-");
        push_decimal(s, (-(n as i128)) as u64);
        assert(final(s)@ =~= old(s)@ + signed_decimal(n as int));
    } else {
        push_decimal(s, n as u64);
    }
}

fn digit_of(c: char) -> (r: Option<u64>)
    ensures
        match digit_value(c) {
            Some(d) => r == Some(d as u64),
            None => r is None,
        },
        r is Some ==> r->0 < 10,
{
    if c == '0' {
        Some(0)
    } else if c == '1' {
        Some(1)
    } else if c == '2' {
        Some(2)
    } else if c == '3' {
        Some(3)
    } else if c == '4' {
        Some(4)
    } else if c == '5' {
        Some(5)
    } else if c == '6' {
        Some(6)
    } else if c == '7' {
        Some(7)
    } else if c == '8' {
        Some(8)
    } else if c == '9' {
        Some(9)
    } else {
        None
    }
}

/// Reads `chars[from..to]` as a number in decimal, if it writes one that is
/// no greater than the greatest 32-bit number.
pub(crate) fn read_decimal(chars: &Vec<char>, from: usize, to: usize) -> (r: Option<u32>)
    requires
        from <= to <= chars.len(),
    ensures
        match parse_decimal(chars@.subrange(from as int, to as int)) {
            Some(n) => if n <= u32::MAX {
                r == Some(n as u32)
            } else {
                r is None
            },
            None => r is None,
        },
{
    let ghost part = chars@.subrange(from as int, to as int);
    if from == to {
        return None;
    }
    let mut value: u64 = match digit_of(chars[from]) {
        Some(d) => d,
        None => {
            proof {
                assert(part.take(1)[0] == chars@[from as int]);
                if parse_decimal(part) is Some {
                    lemma_parse_prefix(part, 1);
                }
            }
            return None;
        },
    };
    assert(part.take(1)[0] == chars@[from as int]);
    let mut i: usize = from + 1;
    while i < to
        invariant
            from < i <= to <= chars.len(),
            part == chars@.subrange(from as int, to as int),
            parse_decimal(part.take(i - from)) == Some(value as nat),
            value <= u32::MAX,
        decreases to - i,
    {
        let ghost next = part.take(i - from + 1);
        proof {
            assert(next.drop_last() == part.take(i - from));
            assert(next.last() == chars@[i as int]);
        }
        let digit = digit_of(chars[i]);
        if value == 0 || digit.is_none() || value * 10 + digit.unwrap() > 0xffff_ffff {
            proof {
                if parse_decimal(part) is Some {
                    lemma_parse_prefix(part, i - from + 1);
                }
            }
            return None;
        }
        value = value * 10 + digit.unwrap();
        i += 1;
    }
    assert(part.take(to - from) == part);
    Some(value as u32)
}

} // verus!
