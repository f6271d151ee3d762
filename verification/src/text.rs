//! Strings as sequences of characters: comparison, trimming, splitting and
//! decimal numbers.

use vstd::prelude::*;

verus! {

/// `String::push` appends one character at the end of the string.
pub assume_specification[ String::push ](s: &mut String, ch: char)
    ensures
        final(s)@ == old(s)@.push(ch),
;

/// How `Debug` renders a text: in double quotes, with escapes.
pub uninterp spec fn debug_text(text: Seq<char>) -> Seq<char>;

/// The text as the `Debug` implementation of `str` writes it. Nothing is stated
/// of the escapes: the result is named, and depends on the text alone.
#[verifier::external_body]
pub(crate) fn debug_quoted(s: &str) -> (out: String)
    ensures
        out@ == debug_text(s@),
{
    format!("{s:?}")
}

/// The characters of `s`, in order.
pub fn chars_of(s: &str) -> (out: Vec<char>)
    ensures
        out@ == s@,
{
    let mut out: Vec<char> = Vec::new();
    for c in iter: s.chars()
        invariant
            out@ == s@.take(iter.index()),
            iter.seq() == s@,
    {
        out.push(c);
    }
    out
}

/// The string that holds the characters of `chars`, in order.
pub fn string_of(chars: &[char]) -> (out: String)
    ensures
        out@ == chars@,
{
    let mut out: String = String::new();
    let n: usize = chars.len();
    for i in 0..n
        invariant
            n == chars@.len(),
            out@ == chars@.take(i as int),
    {
        out.push(chars[i]);
        assert(chars@.take(i + 1) =~= chars@.take(i as int).push(chars@[i as int]));
    }
    assert(chars@.take(n as int) =~= chars@);
    out
}

/// The string that holds the characters of `chars` from `from` up to `to`.
pub fn string_between(chars: &[char], from: usize, to: usize) -> (out: String)
    requires
        from <= to <= chars@.len(),
    ensures
        out@ == chars@.subrange(from as int, to as int),
{
    let mut out: String = String::new();
    let mut i: usize = from;
    while i < to
        invariant
            from <= i <= to <= chars@.len(),
            out@ == chars@.subrange(from as int, i as int),
        decreases to - i,
    {
        out.push(chars[i]);
        assert(chars@.subrange(from as int, i + 1) =~= chars@.subrange(from as int, i as int).push(
            chars@[i as int],
        ));
        i = i + 1;
    }
    out
}

// ---------------------------------------------------------------------------
// Equality and order
// ---------------------------------------------------------------------------

/// Whether two strings hold the same characters.
pub fn same(a: &str, b: &str) -> (out: bool)
    ensures
        out == (a@ == b@),
{
    let x: Vec<char> = chars_of(a);
    let y: Vec<char> = chars_of(b);
    if x.len() != y.len() {
        return false;
    }
    let mut i: usize = 0;
    while i < x.len()
        invariant
            x@ == a@,
            y@ == b@,
            x@.len() == y@.len(),
            i <= x@.len(),
            forall|j: int| 0 <= j < i ==> x@[j] == y@[j],
        decreases x@.len() - i,
    {
        if x[i] != y[i] {
            assert(a@[i as int] != b@[i as int]);
            return false;
        }
        i = i + 1;
    }
    assert(a@ =~= b@);
    true
}

/// `a` and `b` agree before position `k`, and at `k` either `a` has ended
/// while `b` goes on, or the character of `a` is the smaller one.
pub open spec fn first_below(a: Seq<char>, b: Seq<char>, k: int) -> bool {
    &&& 0 <= k <= a.len()
    &&& k < b.len()
    &&& forall|i: int| 0 <= i < k ==> a[i] == b[i]
    &&& k == a.len() || a[k] < b[k]
}

/// Lexicographic order by code point: the order of `str`.
pub open spec fn text_lt(a: Seq<char>, b: Seq<char>) -> bool {
    exists|k: int| first_below(a, b, k)
}

/// `a` is `b` or comes before it.
pub open spec fn text_le(a: Seq<char>, b: Seq<char>) -> bool {
    a == b || text_lt(a, b)
}

/// No text comes before itself.
pub proof fn text_lt_irreflexive(a: Seq<char>)
    ensures
        !text_lt(a, a),
{
}

/// The order of texts is transitive.
pub proof fn text_lt_transitive(a: Seq<char>, b: Seq<char>, c: Seq<char>)
    requires
        text_lt(a, b),
        text_lt(b, c),
    ensures
        text_lt(a, c),
{
    let k = choose|k: int| first_below(a, b, k);
    let m = choose|k: int| first_below(b, c, k);
    let n = if k <= m {
        k
    } else {
        m
    };
    assert(first_below(a, c, n));
}

proof fn text_lt_total_from(a: Seq<char>, b: Seq<char>, k: int)
    requires
        0 <= k <= a.len(),
        k <= b.len(),
        forall|i: int| 0 <= i < k ==> a[i] == b[i],
    ensures
        a == b || text_lt(a, b) || text_lt(b, a),
    decreases a.len() - k,
{
    if k < a.len() && k < b.len() && a[k] == b[k] {
        text_lt_total_from(a, b, k + 1);
    } else if k == a.len() && k == b.len() {
        assert(a =~= b);
    } else if k == a.len() {
        assert(first_below(a, b, k));
    } else if k == b.len() {
        assert(first_below(b, a, k));
    } else if a[k] < b[k] {
        assert(first_below(a, b, k));
    } else {
        assert(first_below(b, a, k));
    }
}

/// Of two different texts, one comes before the other.
pub proof fn text_lt_total(a: Seq<char>, b: Seq<char>)
    ensures
        a == b || text_lt(a, b) || text_lt(b, a),
{
    text_lt_total_from(a, b, 0);
}

/// Whether `a` comes before `b`.
pub fn less(a: &str, b: &str) -> (out: bool)
    ensures
        out == text_lt(a@, b@),
{
    let x: Vec<char> = chars_of(a);
    let y: Vec<char> = chars_of(b);
    let mut i: usize = 0;
    while i < x.len() && i < y.len() && x[i] == y[i]
        invariant
            x@ == a@,
            y@ == b@,
            i <= x@.len(),
            i <= y@.len(),
            forall|j: int| 0 <= j < i ==> x@[j] == y@[j],
        decreases x@.len() - i,
    {
        i = i + 1;
    }
    if i < y.len() && (i == x.len() || x[i] < y[i]) {
        assert(first_below(a@, b@, i as int));
        true
    } else {
        assert forall|k: int| !first_below(a@, b@, k) by {
            if first_below(a@, b@, k) {
                if k < i {
                    assert(x@[k] == y@[k]);
                } else if k > i {
                    assert(a@[i as int] == b@[i as int]);
                }
            }
        }
        false
    }
}

// ---------------------------------------------------------------------------
// White space
// ---------------------------------------------------------------------------

/// The characters with the Unicode property `White_Space`.
pub open spec fn is_space(c: char) -> bool {
    ||| '\u{9}' <= c <= '\u{d}'
    ||| c == '\u{20}'
    ||| c == '\u{85}'
    ||| c == '\u{a0}'
    ||| c == '\u{1680}'
    ||| '\u{2000}' <= c <= '\u{200a}'
    ||| c == '\u{2028}'
    ||| c == '\u{2029}'
    ||| c == '\u{202f}'
    ||| c == '\u{205f}'
    ||| c == '\u{3000}'
}

/// Whether `c` is white space.
pub fn space(c: char) -> (out: bool)
    ensures
        out == is_space(c),
{
    ('\u{9}' <= c && c <= '\u{d}') || c == '\u{20}' || c == '\u{85}' || c == '\u{a0}' || c
        == '\u{1680}' || ('\u{2000}' <= c && c <= '\u{200a}') || c == '\u{2028}' || c == '\u{2029}'
        || c == '\u{202f}' || c == '\u{205f}' || c == '\u{3000}'
}

/// `s` without the white space at its front.
pub open spec fn trim_front(s: Seq<char>) -> Seq<char>
    decreases s.len(),
{
    if s.len() > 0 && is_space(s[0]) {
        trim_front(s.skip(1))
    } else {
        s
    }
}

/// `s` without the white space at its end.
pub open spec fn trim_back(s: Seq<char>) -> Seq<char>
    decreases s.len(),
{
    if s.len() > 0 && is_space(s.last()) {
        trim_back(s.drop_last())
    } else {
        s
    }
}

/// `s` without the white space at either end.
pub open spec fn trimmed(s: Seq<char>) -> Seq<char> {
    trim_back(trim_front(s))
}

/// `s` without the white space at either end.
pub fn trim<'a>(s: &'a str) -> (out: &'a str)
    ensures
        out@ == trimmed(s@),
{
    let chars: Vec<char> = chars_of(s);
    let n: usize = chars.len();
    let mut from: usize = 0;
    assert(s@.skip(0) =~= s@);
    while from < n && space(chars[from])
        invariant
            chars@ == s@,
            n == s@.len(),
            from <= n,
            trim_front(s@) == trim_front(s@.skip(from as int)),
        decreases n - from,
    {
        assert(s@.skip(from as int).skip(1) =~= s@.skip(from + 1));
        from = from + 1;
    }
    assert(trim_front(s@) =~= s@.skip(from as int));
    let mut to: usize = n;
    assert(s@.subrange(from as int, n as int) =~= s@.skip(from as int));
    while to > from && space(chars[to - 1])
        invariant
            chars@ == s@,
            n == s@.len(),
            from <= to <= n,
            trimmed(s@) == trim_back(s@.subrange(from as int, to as int)),
        decreases to,
    {
        assert(s@.subrange(from as int, to as int).drop_last() =~= s@.subrange(
            from as int,
            to - 1,
        ));
        to = to - 1;
    }
    assert(trim_back(s@.subrange(from as int, to as int)) == s@.subrange(from as int, to as int));
    s.substring_char(from, to)
}

// ---------------------------------------------------------------------------
// Prefixes and separators
// ---------------------------------------------------------------------------

/// Whether `s` begins with `prefix`.
pub open spec fn begins_with(s: Seq<char>, prefix: Seq<char>) -> bool {
    prefix.len() <= s.len() && s.take(prefix.len() as int) == prefix
}

/// The position of the first `c` in `s`, or the length of `s`.
pub open spec fn position(s: Seq<char>, c: char) -> int
    decreases s.len(),
{
    if s.len() == 0 {
        0
    } else if s[0] == c {
        0
    } else {
        1 + position(s.skip(1), c)
    }
}

/// `position` is the first place where `c` stands.
pub proof fn position_is_first(s: Seq<char>, c: char)
    ensures
        0 <= position(s, c) <= s.len(),
        position(s, c) < s.len() ==> s[position(s, c)] == c,
        forall|i: int| 0 <= i < position(s, c) ==> s[i] != c,
    decreases s.len(),
{
    if s.len() > 0 && s[0] != c {
        position_is_first(s.skip(1), c);
        assert forall|i: int| 0 <= i < position(s, c) implies s[i] != c by {
            if i > 0 {
                assert(s.skip(1)[i - 1] == s[i]);
            }
        }
    }
}

/// The position of the first `c` in `chars`, or its length.
pub fn find(chars: &[char], c: char) -> (out: usize)
    ensures
        out == position(chars@, c),
{
    let mut i: usize = 0;
    let n: usize = chars.len();
    assert(chars@.skip(0) =~= chars@);
    while i < n && chars[i] != c
        invariant
            n == chars@.len(),
            i <= n,
            position(chars@, c) == i + position(chars@.skip(i as int), c),
        decreases n - i,
    {
        assert(chars@.skip(i as int).skip(1) =~= chars@.skip(i + 1));
        i = i + 1;
    }
    i
}

/// What stands before and after the first `c`, if there is one.
pub open spec fn split_at_first(s: Seq<char>, c: char) -> Option<(Seq<char>, Seq<char>)> {
    let p = position(s, c);
    if p < s.len() {
        Some((s.take(p), s.skip(p + 1)))
    } else {
        None
    }
}

/// What stands before and after the first `c`, if there is one.
pub fn split_once<'a>(s: &'a str, c: char) -> (out: Option<(&'a str, &'a str)>)
    ensures
        match (out, split_at_first(s@, c)) {
            (Some((a, b)), Some((x, y))) => a@ == x && b@ == y,
            (None, None) => true,
            _ => false,
        },
{
    let chars: Vec<char> = chars_of(s);
    let n: usize = chars.len();
    let p: usize = find(&chars, c);
    if p < n {
        let before = s.substring_char(0, p);
        let after = s.substring_char(p + 1, n);
        assert(s@.subrange(0, p as int) =~= s@.take(p as int));
        assert(s@.subrange(p + 1, n as int) =~= s@.skip(p + 1));
        Some((before, after))
    } else {
        proof {
            position_is_first(s@, c);
        }
        None
    }
}

/// The pieces of `s` between the characters `c`: one more than there are of
/// them.
pub open spec fn pieces(s: Seq<char>, c: char) -> Seq<Seq<char>>
    decreases s.len(),
{
    let p = position(s, c);
    if 0 <= p < s.len() {
        seq![s.take(p)] + pieces(s.skip(p + 1), c)
    } else {
        seq![s]
    }
}

/// The texts that a list of strings holds.
pub open spec fn texts(v: Seq<String>) -> Seq<Seq<char>> {
    Seq::new(v.len(), |i: int| v[i]@)
}

/// The pieces of `s` between the characters `c`.
pub fn split(s: &str, c: char) -> (out: Vec<String>)
    ensures
        texts(out@) == pieces(s@, c),
{
    let chars: Vec<char> = chars_of(s);
    let n: usize = chars.len();
    let mut out: Vec<String> = Vec::new();
    let mut from: usize = 0;
    let mut i: usize = 0;
    assert(s@.skip(0) =~= s@);
    assert(texts(out@) =~= Seq::<Seq<char>>::empty());
    assert(texts(out@) + pieces(s@.skip(from as int), c) =~= pieces(s@, c));
    while i < n
        invariant
            chars@ == s@,
            n == s@.len(),
            from <= i <= n,
            forall|j: int| from <= j < i ==> s@[j] != c,
            texts(out@) + pieces(s@.skip(from as int), c) == pieces(s@, c),
        decreases n - i,
    {
        if chars[i] == c {
            let piece: String = string_between(&chars, from, i);
            let ghost rest = s@.skip(from as int);
            let ghost before = out@;
            proof {
                position_is_first(rest, c);
                assert(rest[i - from] == c);
                assert forall|j: int| 0 <= j < i - from implies rest[j] != c by {
                    assert(rest[j] == s@[from + j]);
                }
                assert(position(rest, c) == i - from);
                assert(rest.take(i - from) =~= s@.subrange(from as int, i as int));
                assert(rest.skip(i - from + 1) =~= s@.skip(i + 1));
            }
            out.push(piece);
            proof {
                assert(texts(out@) =~= texts(before).push(piece@));
                assert(texts(out@) + pieces(s@.skip(i + 1), c) =~= texts(before) + pieces(rest, c));
            }
            from = i + 1;
        }
        i = i + 1;
    }
    let last: String = string_between(&chars, from, n);
    let ghost rest = s@.skip(from as int);
    let ghost before = out@;
    proof {
        position_is_first(rest, c);
        if position(rest, c) < rest.len() {
            assert(rest[position(rest, c)] == s@[from + position(rest, c)]);
        }
        assert(s@.subrange(from as int, n as int) =~= rest);
    }
    out.push(last);
    assert(texts(out@) =~= texts(before) + seq![rest]);
    out
}

/// `a` followed by the parts of `rest`, each after `sep`.
pub open spec fn joined(parts: Seq<Seq<char>>, sep: Seq<char>) -> Seq<char>
    decreases parts.len(),
{
    if parts.len() == 0 {
        seq![]
    } else if parts.len() == 1 {
        parts[0]
    } else {
        joined(parts.drop_last(), sep) + sep + parts.last()
    }
}

/// The parts in order, with `sep` between them.
pub fn join(parts: &[String], sep: &str) -> (out: String)
    ensures
        out@ == joined(texts(parts@), sep@),
{
    let mut out: String = String::new();
    let n: usize = parts.len();
    for i in 0..n
        invariant
            n == parts@.len(),
            out@ == joined(texts(parts@.take(i as int)), sep@),
    {
        proof {
            assert(texts(parts@.take(i + 1)).drop_last() =~= texts(parts@.take(i as int)));
        }
        if i > 0 {
            out.append(sep);
        } else {
            assert(Seq::<char>::empty() + parts@[0]@ =~= parts@[0]@);
        }
        out.append(&parts[i]);
    }
    assert(parts@.take(n as int) =~= parts@);
    out
}

// ---------------------------------------------------------------------------
// Decimal numbers
// ---------------------------------------------------------------------------

/// The character of a digit.
pub open spec fn digit_char(d: nat) -> char {
    (d + 48) as char
}

/// Whether `c` is an ASCII digit.
pub open spec fn is_digit(c: char) -> bool {
    '0' <= c <= '9'
}

/// The value of an ASCII digit.
pub open spec fn digit_value(c: char) -> nat {
    (c as int - 48) as nat
}

/// `n` in decimal, without leading zeros.
pub open spec fn decimal(n: nat) -> Seq<char>
    decreases n,
{
    if n < 10 {
        seq![digit_char(n)]
    } else {
        decimal(n / 10).push(digit_char(n % 10))
    }
}

/// The number that a sequence of digits stands for.
pub open spec fn digits_value(s: Seq<char>) -> nat
    decreases s.len(),
{
    if s.len() == 0 {
        0
    } else {
        10 * digits_value(s.drop_last()) + digit_value(s.last())
    }
}

/// Whether `s` is made of digits alone, and of at least one.
pub open spec fn all_digits(s: Seq<char>) -> bool {
    s.len() > 0 && forall|i: int| 0 <= i < s.len() ==> is_digit(#[trigger] s[i])
}

/// Reading back the decimal form of a number gives that number.
pub proof fn decimal_reads_back(n: nat)
    ensures
        all_digits(decimal(n)),
        digits_value(decimal(n)) == n,
    decreases n,
{
    if n < 10 {
        assert(decimal(n).drop_last() =~= Seq::<char>::empty());
        assert(digits_value(Seq::<char>::empty()) == 0);
    } else {
        decimal_reads_back(n / 10);
        let d = decimal(n);
        assert(d.drop_last() =~= decimal(n / 10));
        assert forall|i: int| 0 <= i < d.len() implies is_digit(#[trigger] d[i]) by {
            if i < d.len() - 1 {
                assert(d[i] == decimal(n / 10)[i]);
            }
        }
    }
}

/// `n` in decimal.
pub fn decimal_string(n: u64) -> (out: String)
    ensures
        out@ == decimal(n as nat),
    decreases n,
{
    let mut out: String = if n < 10 {
        String::new()
    } else {
        decimal_string(n / 10)
    };
    let d: u8 = (n % 10) as u8;
    let c: char = (d + 48) as char;
    out.push(c);
    assert(n < 10 ==> out@ =~= seq![digit_char(n as nat)]);
    out
}

/// `n` in decimal, with a `-` in front when it is negative.
pub open spec fn signed_decimal(n: int) -> Seq<char> {
    if n < 0 {
        seq!['-'] + decimal((-n) as nat)
    } else {
        decimal(n as nat)
    }
}

/// The digits of a number text: what is left without one sign in front.
pub open spec fn without_sign(s: Seq<char>, minus: bool) -> Seq<char> {
    if s.len() > 0 && (s[0] == '+' || (minus && s[0] == '-')) {
        s.skip(1)
    } else {
        s
    }
}

/// The unsigned number, at most `max`, that `s` spells: an optional `+` and at
/// least one digit.
pub open spec fn parsed_unsigned(s: Seq<char>, max: nat) -> Option<nat> {
    let digits = without_sign(s, false);
    if all_digits(digits) && digits_value(digits) <= max {
        Some(digits_value(digits))
    } else {
        None
    }
}

/// The number in the range of `i64` that `s` spells: an optional sign and at
/// least one digit.
pub open spec fn parsed_signed(s: Seq<char>) -> Option<int> {
    let digits = without_sign(s, true);
    let value = if s.len() > 0 && s[0] == '-' {
        -(digits_value(digits) as int)
    } else {
        digits_value(digits) as int
    };
    if all_digits(digits) && i64::MIN <= value <= i64::MAX {
        Some(value)
    } else {
        None
    }
}

proof fn digits_value_grows(s: Seq<char>, k: int)
    requires
        0 <= k <= s.len(),
    ensures
        digits_value(s.take(k)) <= digits_value(s),
    decreases s.len(),
{
    if k == s.len() {
        assert(s.take(k) =~= s);
    } else {
        digits_value_grows(s.drop_last(), k);
        assert(s.drop_last().take(k) =~= s.take(k));
    }
}

/// The value of the digits of `chars` from `from` on, or `None` where one is
/// no digit, there is none, or the value is above `max`.
fn parse_digits(chars: &[char], from: usize, max: u64) -> (out: Option<u64>)
    requires
        from <= chars@.len(),
    ensures
        match out {
            Some(v) => all_digits(chars@.skip(from as int)) && v == digits_value(
                chars@.skip(from as int),
            ) && v <= max,
            None => !all_digits(chars@.skip(from as int)) || digits_value(chars@.skip(from as int))
                > max,
        },
{
    let n: usize = chars.len();
    let ghost digits = chars@.skip(from as int);
    if from == n {
        return None;
    }
    let mut value: u64 = 0;
    let mut i: usize = from;
    assert(digits.take(0) =~= Seq::<char>::empty());
    while i < n
        invariant
            n == chars@.len(),
            from <= i <= n,
            from < n,
            digits == chars@.skip(from as int),
            value == digits_value(digits.take(i - from)),
            value <= max,
            forall|j: int| 0 <= j < i - from ==> is_digit(#[trigger] digits[j]),
        decreases n - i,
    {
        let c: char = chars[i];
        assert(c == digits[i - from]);
        if c < '0' || c > '9' {
            return None;
        }
        let d: u64 = (c as u32 - 48) as u64;
        proof {
            let next = digits.take(i - from + 1);
            assert(next.drop_last() =~= digits.take(i - from));
            assert(digits_value(next) == 10 * value + d);
            digits_value_grows(digits, i - from + 1);
        }
        if d > max || value > (max - d) / 10 {
            assert(10 * value + d > max);
            return None;
        }
        value = 10 * value + d;
        i = i + 1;
    }
    assert(digits.take(n - from) =~= digits);
    Some(value)
}

/// The unsigned number, at most `max`, that `s` spells.
pub fn parse_unsigned(s: &str, max: u64) -> (out: Option<u64>)
    ensures
        match out {
            Some(v) => parsed_unsigned(s@, max as nat) == Some(v as nat),
            None => parsed_unsigned(s@, max as nat) is None,
        },
{
    let chars: Vec<char> = chars_of(s);
    let from: usize = if chars.len() > 0 && chars[0] == '+' {
        1
    } else {
        0
    };
    assert(s@.skip(0) =~= s@);
    parse_digits(&chars, from, max)
}

/// The number in the range of `i64` that `s` spells.
pub fn parse_signed(s: &str) -> (out: Option<i64>)
    ensures
        match out {
            Some(v) => parsed_signed(s@) == Some(v as int),
            None => parsed_signed(s@) is None,
        },
{
    let chars: Vec<char> = chars_of(s);
    let negative: bool = chars.len() > 0 && chars[0] == '-';
    let from: usize = if chars.len() > 0 && (chars[0] == '+' || chars[0] == '-') {
        1
    } else {
        0
    };
    assert(s@.skip(0) =~= s@);
    let max: u64 = if negative {
        0x8000_0000_0000_0000
    } else {
        0x7fff_ffff_ffff_ffff
    };
    match parse_digits(&chars, from, max) {
        Some(v) => {
            if negative {
                if v == 0x8000_0000_0000_0000 {
                    Some(i64::MIN)
                } else {
                    Some(-(v as i64))
                }
            } else {
                Some(v as i64)
            }
        },
        None => None,
    }
}

/// The decimal form of a number is one of its spellings.
pub proof fn parsed_unsigned_of_decimal(n: nat, max: nat)
    requires
        n <= max,
    ensures
        parsed_unsigned(decimal(n), max) == Some(n),
{
    decimal_reads_back(n);
    assert(is_digit(decimal(n)[0]));
}

/// `s` with every `from` replaced by `to`, from the front on. Where two overlap,
/// the first one counts.
pub open spec fn replaced(s: Seq<char>, from: Seq<char>, to: Seq<char>) -> Seq<char>
    decreases s.len(),
{
    if s.len() == 0 || from.len() == 0 {
        s
    } else if begins_with(s, from) {
        to + replaced(s.skip(from.len() as int), from, to)
    } else {
        seq![s[0]] + replaced(s.skip(1), from, to)
    }
}

/// Whether `part` stands in `chars` at `at`.
fn stands_at(chars: &Vec<char>, at: usize, part: &Vec<char>) -> (out: bool)
    requires
        at <= chars@.len(),
    ensures
        out == begins_with(chars@.skip(at as int), part@),
{
    let n: usize = part.len();
    let m: usize = chars.len();
    if m - at < n {
        return false;
    }
    let ghost tail = chars@.skip(at as int);
    for i in 0..n
        invariant
            n == part@.len(),
            m == chars@.len(),
            at + n <= m,
            tail == chars@.skip(at as int),
            forall|j: int| 0 <= j < i ==> tail[j] == #[trigger] part@[j],
    {
        if chars[at + i] != part[i] {
            assert(tail.take(n as int)[i as int] != part@[i as int]);
            return false;
        }
    }
    assert(tail.take(n as int) =~= part@);
    true
}

/// `s` with every `from` replaced by `to`.
pub fn replace(s: &str, from: &str, to: &str) -> (out: String)
    ensures
        out@ == replaced(s@, from@, to@),
{
    let chars: Vec<char> = chars_of(s);
    let part: Vec<char> = chars_of(from);
    let k: usize = part.len();
    if k == 0 {
        return s.to_owned();
    }
    let n: usize = chars.len();
    let mut out: String = String::new();
    let mut i: usize = 0;
    assert(chars@.skip(0) =~= chars@);
    assert(out@ + replaced(chars@.skip(0), from@, to@) =~= replaced(s@, from@, to@));
    while i < n
        invariant
            n == chars@.len(),
            chars@ == s@,
            part@ == from@,
            k == part@.len(),
            k > 0,
            i <= n,
            out@ + replaced(chars@.skip(i as int), from@, to@) == replaced(s@, from@, to@),
        decreases n - i,
    {
        let ghost was = out@;
        if stands_at(&chars, i, &part) {
            out.append(to);
            proof {
                assert(chars@.skip(i as int).skip(k as int) =~= chars@.skip(i + k));
                assert(out@ + replaced(chars@.skip(i + k), from@, to@) =~= was + (to@ + replaced(
                    chars@.skip(i + k),
                    from@,
                    to@,
                )));
            }
            i = i + k;
        } else {
            out.push(chars[i]);
            proof {
                assert(chars@.skip(i as int).skip(1) =~= chars@.skip(i + 1));
                assert(out@ + replaced(chars@.skip(i + 1), from@, to@) =~= was + (seq![
                    chars@[i as int],
                ] + replaced(chars@.skip(i + 1), from@, to@)));
            }
            i = i + 1;
        }
    }
    assert(chars@.skip(n as int) =~= Seq::<char>::empty());
    assert(out@ =~= out@ + replaced(chars@.skip(n as int), from@, to@));
    out
}

/// Trimming cuts white space from both ends and nothing else, and leaves none there.
pub proof fn trimmed_is_the_middle(s: Seq<char>)
    ensures
        exists|a: int, b: int|
            0 <= a <= b <= s.len() && trimmed(s) == #[trigger] s.subrange(a, b) && (forall|i: int|
                0 <= i < a ==> is_space(#[trigger] s[i])) && (forall|i: int|
                b <= i < s.len() ==> is_space(#[trigger] s[i])),
        trimmed(s).len() > 0 ==> !is_space(trimmed(s)[0]) && !is_space(trimmed(s).last()),
{
    front_is_cut(s);
    let a = s.len() - trim_front(s).len();
    let t = trim_front(s);
    back_is_cut(t);
    let b = a + trim_back(t).len();
    assert(trimmed(s) =~= s.subrange(a, b));
    assert forall|i: int| b <= i < s.len() implies is_space(#[trigger] s[i]) by {
        assert(t[i - a] == s[i]);
    }
    if trimmed(s).len() > 0 {
        assert(trimmed(s)[0] == t[0]);
    }
}

proof fn front_is_cut(s: Seq<char>)
    ensures
        trim_front(s).len() <= s.len(),
        trim_front(s) == s.skip(s.len() - trim_front(s).len()),
        forall|i: int| 0 <= i < s.len() - trim_front(s).len() ==> is_space(#[trigger] s[i]),
        trim_front(s).len() > 0 ==> !is_space(trim_front(s)[0]),
    decreases s.len(),
{
    if s.len() > 0 && is_space(s[0]) {
        let t = s.skip(1);
        front_is_cut(t);
        let k = s.len() - trim_front(s).len();
        assert(trim_front(s) =~= s.skip(k));
        assert forall|i: int| 0 <= i < k implies is_space(#[trigger] s[i]) by {
            if i > 0 {
                assert(t[i - 1] == s[i]);
            }
        }
    } else {
        assert(s.skip(0) =~= s);
    }
}

proof fn back_is_cut(s: Seq<char>)
    ensures
        trim_back(s).len() <= s.len(),
        trim_back(s) == s.take(trim_back(s).len() as int),
        forall|i: int| trim_back(s).len() <= i < s.len() ==> is_space(#[trigger] s[i]),
        trim_back(s).len() > 0 ==> !is_space(trim_back(s).last()),
    decreases s.len(),
{
    if s.len() > 0 && is_space(s.last()) {
        let t = s.drop_last();
        back_is_cut(t);
        assert(trim_back(s) =~= s.take(trim_back(s).len() as int));
        assert forall|i: int| trim_back(s).len() <= i < s.len() implies is_space(#[trigger] s[i]) by {
            if i < t.len() {
                assert(t[i] == s[i]);
            }
        }
    } else {
        assert(s.take(s.len() as int) =~= s);
    }
}

/// A text without white space at its ends is not changed by trimming.
pub proof fn trimmed_stays(s: Seq<char>)
    requires
        s.len() > 0 ==> !is_space(s[0]) && !is_space(s.last()),
    ensures
        trimmed(s) == s,
{
}

/// Blanks, tabs and line ends are white space; letters, digits and the marks of the
/// grammars are not.
pub proof fn white_space(c: char)
    ensures
        c == ' ' || c == '\t' || c == '\n' || c == '\r' ==> is_space(c),
        'a' <= c <= 'z' || 'A' <= c <= 'Z' || '0' <= c <= '9' ==> !is_space(c),
        c == '[' || c == ']' || c == '{' || c == '}' || c == ':' || c == '=' || c == '.' || c == ','
            || c == '@' || c == '-' || c == '_' ==> !is_space(c),
{
}

/// The pieces of a text, with the separator between them, are the text; none of them
/// has the separator in it.
pub proof fn pieces_join_back(s: Seq<char>, c: char)
    ensures
        pieces(s, c).len() > 0,
        joined(pieces(s, c), seq![c]) == s,
        forall|i: int, j: int|
            0 <= i < pieces(s, c).len() && 0 <= j < pieces(s, c)[i].len() ==> #[trigger] pieces(
                s,
                c,
            )[i][j] != c,
    decreases s.len(),
{
    let p = position(s, c);
    position_is_first(s, c);
    if p < s.len() {
        let rest = s.skip(p + 1);
        let tail = pieces(rest, c);
        pieces_join_back(rest, c);
        joined_front(s.take(p), tail, seq![c]);
        assert(seq![s.take(p)] + tail == pieces(s, c));
        assert(s.take(p) + seq![c] + rest =~= s);
        assert forall|i: int, j: int|
            0 <= i < pieces(s, c).len() && 0 <= j < pieces(s, c)[i].len() implies #[trigger] pieces(
            s,
            c,
        )[i][j] != c by {
            if i > 0 {
                assert(pieces(s, c)[i] == tail[i - 1]);
                assert(tail[i - 1][j] != c);
            } else {
                assert(pieces(s, c)[0] == s.take(p));
            }
        }
    } else {
        assert(pieces(s, c) =~= seq![s]);
    }
}

/// Joining puts the first part and the separator in front of the others.
pub proof fn joined_front(first: Seq<char>, rest: Seq<Seq<char>>, sep: Seq<char>)
    requires
        rest.len() > 0,
    ensures
        joined(seq![first] + rest, sep) == first + sep + joined(rest, sep),
    decreases rest.len(),
{
    let all = seq![first] + rest;
    assert(all.drop_last() =~= seq![first] + rest.drop_last());
    assert(all.last() == rest.last());
    if rest.len() == 1 {
        assert(all.drop_last() =~= seq![first]);
        assert(joined(all.drop_last(), sep) == first);
    } else {
        joined_front(first, rest.drop_last(), sep);
        assert(first + sep + joined(rest.drop_last(), sep) + sep + rest.last() =~= first + sep + (
        joined(rest.drop_last(), sep) + sep + rest.last()));
    }
}

/// Reading a signed number's decimal text gives the number back.
pub proof fn signed_decimal_reads_back(n: int)
    requires
        i64::MIN <= n <= i64::MAX,
    ensures
        parsed_signed(signed_decimal(n)) == Some(n),
{
    let m = (if n < 0 {
        -n
    } else {
        n
    }) as nat;
    decimal_reads_back(m);
    let d = decimal(m);
    assert(is_digit(d[0]));
    if n < 0 {
        assert((seq!['-'] + d).skip(1) =~= d);
    }
}

/// Where `c` first stands is its position.
pub proof fn position_at(s: Seq<char>, c: char, k: int)
    requires
        0 <= k < s.len(),
        s[k] == c,
        forall|i: int| 0 <= i < k ==> s[i] != c,
    ensures
        position(s, c) == k,
{
    position_is_first(s, c);
}

} // verus!
