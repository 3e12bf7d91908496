//! Decimal numbers and pieces of text.

use vstd::prelude::*;
use vstd::string::{StrSliceExecFns, StringExecFns};

verus! {

/// The character of a decimal digit.
pub open spec fn digit(d: nat) -> char {
    if d == 0 {
        '0'
    } else if d == 1 {
        '1'
    } else if d == 2 {
        '2'
    } else if d == 3 {
        '3'
    } else if d == 4 {
        '4'
    } else if d == 5 {
        '5'
    } else if d == 6 {
        '6'
    } else if d == 7 {
        '7'
    } else if d == 8 {
        '8'
    } else {
        '9'
    }
}

/// A number in decimal notation.
pub open spec fn decimal(n: nat) -> Seq<char>
    decreases n,
{
    if n < 10 {
        seq![digit(n)]
    } else {
        decimal(n / 10).push(digit(n % 10))
    }
}

/// Appends a number in decimal notation.
pub fn push_decimal(text: &mut String, n: u64)
    ensures
        final(text)@ == old(text)@ + decimal(n as nat),
    decreases n,
{
    if n >= 10 {
        push_decimal(text, n / 10);
    }
    let d: u64 = n % 10;
    let ghost before = text@;
    let piece: &str = match d {
        0 => "0",
        1 => "1",
        2 => "2",
        3 => "3",
        4 => "4",
        5 => "5",
        6 => "6",
        7 => "7",
        8 => "8",
        _ => "9",
    };
    proof {
        reveal_strlit("0");
        reveal_strlit("1");
        reveal_strlit("2");
        reveal_strlit("3");
        reveal_strlit("4");
        reveal_strlit("5");
        reveal_strlit("6");
        reveal_strlit("7");
        reveal_strlit("8");
        reveal_strlit("9");
        assert(piece@ =~= seq![digit(d as nat)]);
    }
    text.append(piece);
    assert(text@ =~= old(text)@ + decimal(n as nat));
}

/// Why a text is not a number.
#[derive(Debug, Clone, Copy, PartialEq, Eq, Structural)]
pub enum NumberError {
    Empty,
    InvalidDigit,
    TooLarge,
}

impl NumberError {
    /// The words for it.
    pub open spec fn text(self) -> Seq<char> {
        match self {
            NumberError::Empty => "cannot parse integer from empty string"@,
            NumberError::InvalidDigit => "invalid digit found in string"@,
            NumberError::TooLarge => "number too large to fit in target type"@,
        }
    }

    pub fn message(self) -> (r: String)
        ensures
            r@ == self.text(),
    {
        match self {
            NumberError::Empty => String::from_str("cannot parse integer from empty string"),
            NumberError::InvalidDigit => String::from_str("invalid digit found in string"),
            NumberError::TooLarge => String::from_str("number too large to fit in target type"),
        }
    }
}

/// The value of a row of digits, or the first thing that is wrong with it: a
/// character that is no digit, or a value beyond `max`.
pub open spec fn digits_value(s: Seq<char>, max: nat) -> Result<nat, NumberError>
    decreases s.len(),
{
    if s.len() == 0 {
        Ok(0)
    } else {
        match digits_value(s.drop_last(), max) {
            Err(e) => Err(e),
            Ok(n) => if !('0' <= s.last() && s.last() <= '9') {
                Err(NumberError::InvalidDigit)
            } else {
                let next = 10 * n + (s.last() as nat - '0' as nat) as nat;
                if next > max {
                    Err(NumberError::TooLarge)
                } else {
                    Ok(next)
                }
            },
        }
    }
}

/// The number that a text stands for: digits, with a plus sign before them or
/// none.
pub open spec fn number_value(s: Seq<char>, max: nat) -> Result<nat, NumberError> {
    if s.len() == 0 {
        Err(NumberError::Empty)
    } else if s[0] == '+' && s.len() > 1 {
        digits_value(s.skip(1), max)
    } else {
        digits_value(s, max)
    }
}

proof fn lemma_digits_fail(s: Seq<char>, max: nat, n: int)
    requires
        0 <= n <= s.len(),
        digits_value(s.take(n), max) is Err,
    ensures
        digits_value(s, max) == digits_value(s.take(n), max),
    decreases s.len() - n,
{
    if n == s.len() {
        assert(s.take(n) =~= s);
    } else {
        assert(s.take(n + 1).drop_last() =~= s.take(n));
        lemma_digits_fail(s, max, n + 1);
    }
}

/// The characters of a text.
pub fn chars_of(s: &str) -> (r: Vec<char>)
    ensures
        r@ == s@,
{
    broadcast use vstd::string::axiom_spec_iter;

    let mut r: Vec<char> = Vec::new();
    let chars = s.chars();
    let ghost all: Seq<char> = vstd::std_specs::iter::IteratorSpec::remaining(&chars);
    for c in it: chars
        invariant
            it.seq() == all,
            r@ == all.take(it.index() as int),
    {
        r.push(c);
        assert(r@ =~= all.take((it.index() + 1) as int));
    }
    assert(r@ =~= all);
    r
}

/// The number that a text stands for.
pub fn parse_number(text: &str, max: u64) -> (r: Result<u64, NumberError>)
    ensures
        match number_value(text@, max as nat) {
            Err(e) => r == Err::<u64, NumberError>(e),
            Ok(n) => r matches Ok(value) && value == n,
        },
{
    let chars = chars_of(text);
    if chars.len() == 0 {
        return Err(NumberError::Empty);
    }
    let start: usize = if chars[0] == '+' && chars.len() > 1 {
        1
    } else {
        0
    };
    let ghost digits = text@.skip(start as int);
    assert(text@.skip(0) =~= text@);
    let mut value: u64 = 0;
    let mut i: usize = start;
    assert(digits.take(0) =~= Seq::empty());
    while i < chars.len()
        invariant
            start <= i <= chars@.len(),
            chars@ == text@,
            start <= 1,
            digits == text@.skip(start as int),
            number_value(text@, max as nat) == digits_value(digits, max as nat),
            digits_value(digits.take(i - start), max as nat) == Ok::<nat, NumberError>(
                value as nat,
            ),
            value <= max,
        decreases chars@.len() - i,
    {
        let c: char = chars[i];
        proof {
            assert(digits.take(i - start + 1).drop_last() =~= digits.take(i - start));
            assert(digits.take(i - start + 1).last() == c);
        }
        if !('0' <= c && c <= '9') {
            proof {
                lemma_digits_fail(digits, max as nat, i - start + 1);
            }
            return Err(NumberError::InvalidDigit);
        }
        let d: u64 = c as u64 - '0' as u64;
        if d > max || value > max / 10 || 10 * value > max - d {
            proof {
                lemma_digits_fail(digits, max as nat, i - start + 1);
            }
            return Err(NumberError::TooLarge);
        }
        value = 10 * value + d;
        i = i + 1;
    }
    assert(digits.take(i - start) =~= digits);
    Ok(value)
}

/// The Unicode property White_Space.
pub open spec fn white_space(c: char) -> bool {
    let n = c as u32;
    9 <= n <= 13 || n == 0x20 || n == 0x85 || n == 0xa0 || n == 0x1680 || 0x2000 <= n <= 0x200a || n
        == 0x2028 || n == 0x2029 || n == 0x202f || n == 0x205f || n == 0x3000
}

/// What stands between the numbers of a vector: commas, brackets and white
/// space.
pub open spec fn separator(c: char) -> bool {
    c == ',' || c == '[' || c == ']' || white_space(c)
}

fn is_separator(c: char) -> (r: bool)
    ensures
        r == separator(c),
{
    let n: u32 = c as u32;
    c == ',' || c == '[' || c == ']' || (9 <= n && n <= 13) || n == 0x20 || n == 0x85 || n == 0xa0
        || n == 0x1680 || (0x2000 <= n && n <= 0x200a) || n == 0x2028 || n == 0x2029 || n == 0x202f
        || n == 0x205f || n == 0x3000
}

/// The length of the run of characters at the start that are no separators.
pub open spec fn word_length(s: Seq<char>) -> nat
    decreases s.len(),
{
    if s.len() == 0 || separator(s[0]) {
        0
    } else {
        1 + word_length(s.skip(1))
    }
}

/// The runs of characters between separators.
pub open spec fn words(s: Seq<char>) -> Seq<Seq<char>>
    decreases s.len(),
{
    if s.len() == 0 {
        Seq::empty()
    } else if separator(s[0]) {
        words(s.skip(1))
    } else {
        proof {
            lemma_word_length(s);
        }
        seq![s.take(word_length(s) as int)] + words(s.skip(word_length(s) as int))
    }
}

pub proof fn lemma_word_length(s: Seq<char>)
    ensures
        word_length(s) <= s.len(),
    decreases s.len(),
{
    if s.len() > 0 && !separator(s[0]) {
        lemma_word_length(s.skip(1));
    }
}

/// The views of texts.
pub open spec fn view_texts(texts: Seq<String>) -> Seq<Seq<char>> {
    texts.map_values(|t: String| t@)
}

/// The runs of characters between commas, brackets and white space.
pub fn split_words(text: &str) -> (r: Vec<String>)
    ensures
        view_texts(r@) == words(text@),
{
    let chars = chars_of(text);
    let ghost s = text@;
    let mut out: Vec<String> = Vec::new();
    let mut i: usize = 0;
    assert(s.skip(0) =~= s);
    assert(view_texts(out@) + words(s) =~= words(s));
    while i < chars.len()
        invariant
            i <= chars@.len(),
            chars@ == s,
            s == text@,
            view_texts(out@) + words(s.skip(i as int)) == words(s),
        decreases chars@.len() - i,
    {
        let ghost rest = s.skip(i as int);
        proof {
            lemma_word_length(rest);
            assert(rest[0] == s[i as int]);
        }
        if is_separator(chars[i]) {
            assert(rest.skip(1) =~= s.skip(i + 1));
            i = i + 1;
        } else {
            let start: usize = i;
            while i < chars.len() && !is_separator(chars[i])
                invariant
                    start <= i <= chars@.len(),
                    chars@ == s,
                    rest == s.skip(start as int),
                    word_length(rest) == (i - start) + word_length(s.skip(i as int)),
                decreases chars@.len() - i,
            {
                assert(s.skip(i as int).skip(1) =~= s.skip(i + 1));
                i = i + 1;
            }
            let word = String::from_str(text.substring_char(start, i));
            let ghost before = view_texts(out@);
            out.push(word);
            proof {
                assert(word_length(s.skip(i as int)) == 0);
                assert(rest.take(word_length(rest) as int) =~= s.subrange(start as int, i as int));
                assert(rest.skip(word_length(rest) as int) =~= s.skip(i as int));
                assert(rest[0] == s[start as int]);
                assert(view_texts(out@) + words(s.skip(i as int)) =~= before + words(rest));
            }
        }
    }
    assert(s.skip(i as int) =~= Seq::empty());
    assert(view_texts(out@) + words(s.skip(i as int)) =~= view_texts(out@));
    out
}

/// How many characters stand before the first `c`: all of them where there is
/// none.
pub open spec fn find(s: Seq<char>, c: char) -> nat
    decreases s.len(),
{
    if s.len() == 0 || s[0] == c {
        0
    } else {
        1 + find(s.skip(1), c)
    }
}

/// A text split at its first `c`.
pub open spec fn split_at_first(s: Seq<char>, c: char) -> Option<(Seq<char>, Seq<char>)> {
    let k = find(s, c) as int;
    if k < s.len() {
        Some((s.take(k), s.skip(k + 1)))
    } else {
        None
    }
}

/// Splits a text at its first `c`.
pub fn split_once(text: &str, c: char) -> (r: Option<(String, String)>)
    ensures
        match split_at_first(text@, c) {
            Some((a, b)) => r matches Some((x, y)) && x@ == a && y@ == b,
            None => r is None,
        },
{
    let chars = chars_of(text);
    let ghost s = text@;
    let mut i: usize = 0;
    assert(s.skip(0) =~= s);
    while i < chars.len() && chars[i] != c
        invariant
            i <= chars@.len(),
            chars@ == s,
            find(s, c) == i + find(s.skip(i as int), c),
        decreases chars@.len() - i,
    {
        assert(s.skip(i as int).skip(1) =~= s.skip(i + 1));
        i = i + 1;
    }
    if i == chars.len() {
        return None;
    }
    proof {
        assert(s.skip(i as int)[0] == c);
        assert(s.subrange(0, i as int) =~= s.take(i as int));
        assert(s.subrange(i + 1, s.len() as int) =~= s.skip(i + 1));
    }
    let a = String::from_str(text.substring_char(0, i));
    let b = String::from_str(text.substring_char(i + 1, chars.len()));
    Some((a, b))
}

/// The rest of a text that starts with `prefix`.
pub open spec fn without_prefix(s: Seq<char>, prefix: Seq<char>) -> Option<Seq<char>> {
    if prefix.len() <= s.len() && s.take(prefix.len() as int) == prefix {
        Some(s.skip(prefix.len() as int))
    } else {
        None
    }
}

/// The rest of a text that starts with `prefix`.
pub fn strip_prefix(text: &str, prefix: &str) -> (r: Option<String>)
    ensures
        match without_prefix(text@, prefix@) {
            Some(rest) => r matches Some(x) && x@ == rest,
            None => r is None,
        },
{
    let n: usize = prefix.unicode_len();
    let len: usize = text.unicode_len();
    if n > len {
        return None;
    }
    let mut i: usize = 0;
    while i < n
        invariant
            i <= n <= len,
            n == prefix@.len(),
            len == text@.len(),
            forall|k: int| 0 <= k < i ==> text@[k] == prefix@[k],
        decreases n - i,
    {
        if text.get_char(i) != prefix.get_char(i) {
            assert(text@.take(n as int)[i as int] != prefix@[i as int]);
            return None;
        }
        i = i + 1;
    }
    proof {
        assert(text@.take(n as int) =~= prefix@);
        assert(text@.subrange(n as int, len as int) =~= text@.skip(n as int));
    }
    Some(String::from_str(text.substring_char(n, len)))
}

/// Whether two texts are the same.
pub fn same(a: &str, b: &str) -> (r: bool)
    ensures
        r == (a@ == b@),
{
    let x = chars_of(a);
    let y = chars_of(b);
    if x.len() != y.len() {
        return false;
    }
    let mut i: usize = 0;
    while i < x.len()
        invariant
            i <= x@.len(),
            x@ == a@,
            y@ == b@,
            x@.len() == y@.len(),
            forall|k: int| 0 <= k < i ==> x@[k] == y@[k],
        decreases x@.len() - i,
    {
        if x[i] != y[i] {
            return false;
        }
        i = i + 1;
    }
    assert(x@ =~= y@);
    true
}

proof fn lemma_find(s: Seq<char>, c: char)
    ensures
        find(s, c) <= s.len(),
        find(s, c) < s.len() ==> s[find(s, c) as int] == c,
        forall|i: int| 0 <= i < find(s, c) ==> #[trigger] s[i] != c,
    decreases s.len(),
{
    if s.len() > 0 && s[0] != c {
        let rest = s.skip(1);
        lemma_find(rest, c);
        assert forall|i: int| 0 <= i < find(s, c) implies #[trigger] s[i] != c by {
            if i > 0 {
                assert(s[i] == rest[i - 1]);
            }
        }
    }
}

/// A text splits into the two pieces that it is made of, with the character
/// between them and not in the first; and a text that splits in no way lacks the
/// character.
pub proof fn lemma_split(s: Seq<char>, c: char, a: Seq<char>, b: Seq<char>)
    ensures
        split_at_first(s, c) == Some((a, b)) <==> s == a + seq![c] + b && !a.contains(c),
        split_at_first(s, c) is None <==> !s.contains(c),
{
    lemma_find(s, c);
    let k = find(s, c) as int;
    if k < s.len() {
        assert(s.contains(s[k]));
        assert(s =~= s.take(k) + seq![c] + s.skip(k + 1));
        assert(!s.take(k).contains(c));
    }
    if s == a + seq![c] + b && !a.contains(c) {
        assert(s[a.len() as int] == c);
        if k < a.len() {
            assert(a[k] == s[k]);
            assert(a.contains(a[k]));
        }
        assert(k == a.len());
        assert(s.take(k) =~= a);
        assert(s.skip(k + 1) =~= b);
    }
    if split_at_first(s, c) is None && s.contains(c) {
        let i = choose|i: int| 0 <= i < s.len() && s[i] == c;
        assert(i < find(s, c));
    }
}

/// Taking away a prefix undoes putting it before a text.
pub proof fn lemma_without_prefix(s: Seq<char>, prefix: Seq<char>, rest: Seq<char>)
    ensures
        without_prefix(s, prefix) == Some(rest) <==> s == prefix + rest,
{
    let n = prefix.len() as int;
    if s == prefix + rest {
        assert(s.take(n) =~= prefix);
        assert(s.skip(n) =~= rest);
    }
    if without_prefix(s, prefix) == Some(rest) {
        assert(s =~= s.take(n) + s.skip(n));
    }
}

proof fn lemma_decimal_digits(n: nat, max: nat)
    ensures
        decimal(n).len() > 0,
        '0' <= decimal(n)[0] && decimal(n)[0] <= '9',
        digits_value(decimal(n), max) == if n <= max {
            Ok::<nat, NumberError>(n)
        } else {
            Err(NumberError::TooLarge)
        },
    decreases n,
{
    let text = decimal(n);
    if n < 10 {
        assert(text.drop_last() =~= Seq::empty());
        assert(digits_value(Seq::<char>::empty(), max) == Ok::<nat, NumberError>(0));
    } else {
        lemma_decimal_digits(n / 10, max);
        assert(text.drop_last() =~= decimal(n / 10));
        assert(text[0] == decimal(n / 10)[0]);
    }
}

/// A number in decimal notation is read back as that number, and refused only
/// where it is too large.
pub proof fn lemma_number_read_back(n: nat, max: nat)
    ensures
        number_value(decimal(n), max) == if n <= max {
            Ok::<nat, NumberError>(n)
        } else {
            Err(NumberError::TooLarge)
        },
{
    lemma_decimal_digits(n, max);
}

/// A digit is read as its value; one more digit behind a number, zeros before it or
/// not, gives ten times the number and the digit, or is too large; and a plus sign
/// before it changes nothing.
pub proof fn lemma_number_digits(s: Seq<char>, d: nat, max: nat)
    requires
        d < 10,
    ensures
        d <= max ==> number_value(seq![digit(d)], max) == Ok::<nat, NumberError>(d),
        number_value(s, max) matches Ok(n) ==> {
            &&& number_value(s.push(digit(d)), max) == if 10 * n + d <= max {
                Ok::<nat, NumberError>(10 * n + d)
            } else {
                Err(NumberError::TooLarge)
            }
            &&& s[0] != '+' ==> number_value(seq!['+'] + s, max) == number_value(s, max)
        },
        number_value(Seq::empty(), max) == Err::<nat, NumberError>(NumberError::Empty),
{
    let one = seq![digit(d)];
    assert(one.drop_last() =~= Seq::empty());
    assert(digits_value(Seq::<char>::empty(), max) == Ok::<nat, NumberError>(0));
    if number_value(s, max) is Ok {
        lemma_number_is_digits(s, max);
        let t = s.push(digit(d));
        assert(t.drop_last() =~= s);
        if s[0] == '+' && s.len() > 1 {
            assert(t.skip(1).drop_last() =~= s.skip(1));
            assert(t.skip(1).last() == digit(d));
        } else if s[0] == '+' {
            assert(s.drop_last() =~= Seq::empty());
            assert(digits_value(s, max) is Err);
        }
        let p = seq!['+'] + s;
        assert(p.skip(1) =~= s);
    }
}

/// Only digits, with a plus sign before them or none, are read as a number.
pub proof fn lemma_number_is_digits(s: Seq<char>, max: nat)
    requires
        number_value(s, max) is Ok,
    ensures
        number_value(s, max)->Ok_0 <= max,
        s.len() > 0,
        forall|i: int|
            0 <= i < s.len() ==> ('0' <= #[trigger] s[i] && s[i] <= '9') || (i == 0 && s[i] == '+'),
{
    if s[0] == '+' && s.len() > 1 {
        lemma_all_digits(s.skip(1), max);
        assert forall|i: int| 0 <= i < s.len() implies ('0' <= #[trigger] s[i] && s[i] <= '9') || (i
            == 0 && s[i] == '+') by {
            if i > 0 {
                assert(s[i] == s.skip(1)[i - 1]);
            }
        }
    } else {
        lemma_all_digits(s, max);
    }
}

proof fn lemma_all_digits(s: Seq<char>, max: nat)
    requires
        digits_value(s, max) is Ok,
    ensures
        digits_value(s, max)->Ok_0 <= max,
        forall|i: int| 0 <= i < s.len() ==> '0' <= #[trigger] s[i] && s[i] <= '9',
    decreases s.len(),
{
    if s.len() > 0 {
        lemma_all_digits(s.drop_last(), max);
        assert forall|i: int| 0 <= i < s.len() implies '0' <= #[trigger] s[i] && s[i] <= '9' by {
            if i < s.len() - 1 {
                assert(s[i] == s.drop_last()[i]);
            }
        }
    }
}

/// The words of two texts with a separator between them are the words of the one
/// and the words of the other; and a text without separators is one word.
pub proof fn lemma_words(a: Seq<char>, c: char, b: Seq<char>)
    requires
        separator(c),
    ensures
        words(a + seq![c] + b) == words(a) + words(b),
        a.len() > 0 && (forall|i: int| 0 <= i < a.len() ==> !separator(#[trigger] a[i])) ==> words(
            a,
        ) == seq![a],
        words(Seq::<char>::empty()) == Seq::<Seq<char>>::empty(),
    decreases a.len(),
{
    let s = a + seq![c] + b;
    if a.len() == 0 {
        assert(s.skip(1) =~= b);
        assert(words(a) + words(b) =~= words(b));
        assert(s[0] == c);
    } else if separator(a[0]) {
        lemma_words(a.skip(1), c, b);
        assert(s[0] == a[0]);
        assert(s.skip(1) =~= a.skip(1) + seq![c] + b);
    } else {
        let n = word_length(a) as int;
        lemma_word_run(a, c, b);
        lemma_words(a.skip(n), c, b);
        assert(s[0] == a[0]);
        assert(s.skip(n) =~= a.skip(n) + seq![c] + b);
        assert(s.take(n) =~= a.take(n));
        assert(words(a) == seq![a.take(n)] + words(a.skip(n)));
        assert(words(s) == seq![s.take(n)] + words(s.skip(n)));
        assert(words(s) =~= words(a) + words(b));
        if forall|i: int| 0 <= i < a.len() ==> !separator(#[trigger] a[i]) {
            assert(n == a.len());
            assert(a.take(n) =~= a);
            assert(a.skip(n) =~= Seq::empty());
            assert(words(a) =~= seq![a]);
        }
    }
}

proof fn lemma_word_run(a: Seq<char>, c: char, b: Seq<char>)
    requires
        separator(c),
    ensures
        word_length(a + seq![c] + b) == word_length(a),
        word_length(a) <= a.len(),
        word_length(a) < a.len() ==> separator(a[word_length(a) as int]),
        a.len() > 0 && !separator(a[0]) ==> word_length(a) > 0,
    decreases a.len(),
{
    let s = a + seq![c] + b;
    if a.len() == 0 {
        assert(s[0] == c);
    } else if !separator(a[0]) {
        lemma_word_run(a.skip(1), c, b);
        assert(s[0] == a[0]);
        assert(s.skip(1) =~= a.skip(1) + seq![c] + b);
    } else {
        assert(s[0] == a[0]);
    }
}

} // verus!
