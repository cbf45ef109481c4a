//! Text on the level of characters: decimal numbers, lines and separators.

use vstd::prelude::*;
use vstd::string::*;

verus! {

/// `String::push` of the standard library appends the given `char` to the end
/// of the string and leaves what was there before it as it was.
pub assume_specification[ String::push ](s: &mut String, c: char)
    ensures
        final(s)@ == old(s)@.push(c),
;

/// The character of one decimal digit.
pub open spec fn digit_char(d: int) -> char {
    if d == 0 {
        '0'
    } else if d == 1 {
        '1'
    } else if d == 2 {
        '2'
    } else if d == 3 {
        '3'
    } else if d == 4 {
        '4'
    } else if d == 5 {
        '5'
    } else if d == 6 {
        '6'
    } else if d == 7 {
        '7'
    } else if d == 8 {
        '8'
    } else {
        '9'
    }
}

/// The value of a decimal digit, where the character is one.
pub open spec fn digit_value(c: char) -> Option<int> {
    if '0' <= c && c <= '9' {
        Some(c as int - '0' as int)
    } else {
        None
    }
}

/// The shortest decimal notation of `n`.
pub open spec fn decimal(n: nat) -> Seq<char>
    decreases n,
{
    if n < 10 {
        seq![digit_char(n as int)]
    } else {
        decimal(n / 10).push(digit_char((n % 10) as int))
    }
}

/// Every digit character stands for its own digit.
pub proof fn lemma_digit_round_trip(d: int)
    requires
        0 <= d < 10,
    ensures
        digit_value(digit_char(d)) == Some(d),
        '0' <= digit_char(d) <= '9',
{
}

/// A decimal notation is not empty and holds nothing but digits.
pub proof fn lemma_decimal_digits(n: nat)
    ensures
        decimal(n).len() > 0,
        forall|i: int| 0 <= i < decimal(n).len() ==> '0' <= #[trigger] decimal(n)[i] <= '9',
    decreases n,
{
    if n >= 10 {
        lemma_decimal_digits(n / 10);
    }
}

/// The character of one decimal digit.
fn digit(d: u64) -> (c: char)
    requires
        d < 10,
    ensures
        c == digit_char(d as int),
{
    match d {
        0 => '0',
        1 => '1',
        2 => '2',
        3 => '3',
        4 => '4',
        5 => '5',
        6 => '6',
        7 => '7',
        8 => '8',
        _ => '9',
    }
}

/// Append the decimal notation of `n`.
pub fn push_decimal(out: &mut String, n: u64)
    ensures
        final(out)@ == old(out)@ + decimal(n as nat),
    decreases n,
{
    if n >= 10 {
        push_decimal(out, n / 10);
    }
    out.push(digit(n % 10));
}

/// The characters of a string.
pub fn chars_of(s: &str) -> (chars: Vec<char>)
    ensures
        chars@ == s@,
{
    let mut chars: Vec<char> = Vec::new();
    for c in it: s.chars()
        invariant
            chars@ == it.seq().take(it.index()),
            it.seq() == s@,
    {
        chars.push(c);
    }
    chars
}

/// The string of some characters.
pub fn string_of(chars: &[char]) -> (s: String)
    ensures
        s@ == chars@,
{
    let mut out = String::new();
    for i in 0..chars.len()
        invariant
            out@ == chars@.take(i as int),
    {
        out.push(chars[i]);
    }
    assert(chars@.take(chars@.len() as int) == chars@);
    out
}

/// Whether two strings hold the same characters.
pub fn same_text(a: &str, b: &str) -> (same: bool)
    ensures
        same == (a@ == b@),
{
    let left = chars_of(a);
    let right = chars_of(b);
    if left.len() != right.len() {
        return false;
    }
    for i in 0..left.len()
        invariant
            left@ == a@,
            right@ == b@,
            left@.len() == right@.len(),
            left@.take(i as int) == right@.take(i as int),
    {
        if left[i] != right[i] {
            return false;
        }
        assert(left@.take(i + 1) == right@.take(i + 1));
    }
    assert(left@.take(left@.len() as int) == left@);
    assert(right@.take(right@.len() as int) == right@);
    true
}

/// What follows `prefix` in `s`, where `s` starts with it.
pub open spec fn after_prefix(s: Seq<char>, prefix: Seq<char>) -> Option<Seq<char>> {
    if prefix.is_prefix_of(s) {
        Some(s.skip(prefix.len() as int))
    } else {
        None
    }
}

/// What comes before `suffix` in `s`, where `s` ends with it.
pub open spec fn before_suffix(s: Seq<char>, suffix: Seq<char>) -> Option<Seq<char>> {
    if suffix.is_suffix_of(s) {
        Some(s.take(s.len() - suffix.len()))
    } else {
        None
    }
}

/// Whether `s` holds `part` at index `from`.
fn holds_at(s: &[char], part: &[char], from: usize) -> (found: bool)
    requires
        from + part@.len() <= s@.len(),
    ensures
        found == (s@.subrange(from as int, from + part@.len()) == part@),
{
    let end: usize = s.len();
    for i in 0..part.len()
        invariant
            end == s@.len(),
            from + part@.len() <= s@.len(),
            s@.subrange(from as int, from + i) == part@.take(i as int),
    {
        if s[from + i] != part[i] {
            assert(s@.subrange(from as int, from + part@.len())[i as int] != part@[i as int]);
            return false;
        }
        assert(s@.subrange(from as int, from + i + 1) == part@.take(i + 1));
    }
    assert(part@.take(part@.len() as int) == part@);
    true
}

/// Cut `prefix` off the front of `s`.
pub fn strip_prefix(s: &str, prefix: &str) -> (rest: Option<String>)
    ensures
        match rest {
            Some(rest) => after_prefix(s@, prefix@) == Some(rest@),
            None => after_prefix(s@, prefix@) is None,
        },
{
    let s = chars_of(s);
    let prefix = chars_of(prefix);
    if prefix.len() <= s.len() && holds_at(&s, &prefix, 0) {
        let rest = vstd::slice::slice_subrange(&s, prefix.len(), s.len());
        assert(rest@ == s@.skip(prefix@.len() as int));
        Some(string_of(rest))
    } else {
        assert(prefix@.len() <= s@.len() ==> s@.subrange(0, prefix@.len() as int) != prefix@);
        None
    }
}

/// Cut `suffix` off the back of `s`.
pub fn strip_suffix(s: &str, suffix: &str) -> (rest: Option<String>)
    ensures
        match rest {
            Some(rest) => before_suffix(s@, suffix@) == Some(rest@),
            None => before_suffix(s@, suffix@) is None,
        },
{
    let s = chars_of(s);
    let suffix = chars_of(suffix);
    if suffix.len() <= s.len() && holds_at(&s, &suffix, s.len() - suffix.len()) {
        let cut: usize = s.len() - suffix.len();
        let rest = vstd::slice::slice_subrange(&s, 0, cut);
        assert(s@.subrange(cut as int, s@.len() as int) == suffix@);
        assert(rest@ == s@.take(cut as int));
        Some(string_of(rest))
    } else {
        proof {
            if suffix@.is_suffix_of(s@) {
                assert(s@.subrange(s@.len() - suffix@.len(), s@.len() as int) == suffix@);
            }
        }
        None
    }
}

/// The number that a row of decimal digits writes, none for any other text.
pub open spec fn digits_value(s: Seq<char>) -> Option<int>
    decreases s.len(),
{
    if s.len() == 0 {
        Some(0)
    } else {
        match (digits_value(s.drop_last()), digit_value(s.last())) {
            (Some(n), Some(d)) => Some(10 * n + d),
            _ => None,
        }
    }
}

/// The number up to `max` that `s` writes: at least one decimal digit, with or
/// without a plus sign in front.
pub open spec fn parsed(s: Seq<char>, max: int) -> Option<int> {
    let digits = if s.len() > 0 && s[0] == '+' {
        s.skip(1)
    } else {
        s
    };
    match digits_value(digits) {
        Some(n) if digits.len() > 0 && n <= max => Some(n),
        _ => None,
    }
}

/// More digits never make a number smaller, nor digits of what is none.
proof fn lemma_more_digits(s: Seq<char>, count: int)
    requires
        0 <= count <= s.len(),
    ensures
        digits_value(s.take(count)) is None ==> digits_value(s) is None,
        digits_value(s) is Some ==> digits_value(s.take(count))->0 <= digits_value(s)->0,
        digits_value(s) matches Some(n) ==> n >= 0,
    decreases s.len(),
{
    if count == s.len() {
        assert(s.take(count) =~= s);
        if s.len() > 0 {
            let rest = s.drop_last();
            lemma_more_digits(rest, rest.len() as int);
        }
    } else {
        let rest = s.drop_last();
        assert(rest.take(count) =~= s.take(count));
        lemma_more_digits(rest, count);
    }
}

/// Parse a number up to `max` as `str::parse` does for an unsigned integer.
fn parse_up_to(s: &str, max: u64) -> (n: Option<u64>)
    ensures
        n matches Some(n) ==> parsed(s@, max as int) == Some(n as int),
        n is None ==> parsed(s@, max as int) is None,
{
    let chars = chars_of(s);
    let mut i: usize = 0;
    if chars.len() > 0 && chars[0] == '+' {
        i = 1;
    }
    let ghost skipped = i as int;
    let ghost digits = if s@.len() > 0 && s@[0] == '+' {
        s@.skip(1)
    } else {
        s@
    };
    if i == chars.len() {
        return None;
    }
    let mut n: u64 = 0;
    assert(digits.take(0) =~= Seq::<char>::empty());
    while i < chars.len()
        invariant
            chars@ == s@,
            digits == s@.skip(skipped),
            0 <= skipped <= 1,
            skipped <= i <= chars@.len(),
            n <= max,
            digits_value(digits.take(i - skipped)) == Some(n as int),
            parsed(s@, max as int) == match digits_value(digits) {
                Some(n) if digits.len() > 0 && n <= max => Some(n),
                _ => None,
            },
        decreases chars@.len() - i,
    {
        let c: char = chars[i];
        proof {
            assert(digits.take(i - skipped + 1).drop_last() =~= digits.take(i - skipped));
            assert(digits.take(i - skipped + 1).last() == c);
            lemma_more_digits(digits, i - skipped + 1);
        }
        if c < '0' || c > '9' {
            return None;
        }
        let d: u64 = (c as u64) - ('0' as u64);
        let next: u128 = (n as u128) * 10 + (d as u128);
        if next > max as u128 {
            return None;
        }
        n = next as u64;
        i += 1;
    }
    assert(digits.take(digits.len() as int) =~= digits);
    Some(n)
}

/// Parse a number as `str::parse::<u64>` does.
pub fn parse_u64(s: &str) -> (n: Option<u64>)
    ensures
        n matches Some(n) ==> parsed(s@, u64::MAX as int) == Some(n as int),
        n is None ==> parsed(s@, u64::MAX as int) is None,
{
    parse_up_to(s, u64::MAX)
}

/// Parse a number as `str::parse::<usize>` does.
pub fn parse_usize(s: &str) -> (n: Option<usize>)
    ensures
        n matches Some(n) ==> parsed(s@, usize::MAX as int) == Some(n as int),
        n is None ==> parsed(s@, usize::MAX as int) is None,
{
    match parse_up_to(s, usize::MAX as u64) {
        Some(n) => Some(n as usize),
        None => None,
    }
}

/// Where `c` first stands in `s`, or its length where it does not.
pub open spec fn position(s: Seq<char>, c: char) -> int
    decreases s.len(),
{
    if s.len() == 0 || s[0] == c {
        0
    } else {
        1 + position(s.skip(1), c)
    }
}

/// `position` is where the first one stands.
pub proof fn lemma_position(s: Seq<char>, c: char, at: int)
    requires
        0 <= at <= s.len(),
        forall|i: int| 0 <= i < at ==> s[i] != c,
        at < s.len() ==> s[at] == c,
    ensures
        position(s, c) == at,
    decreases s.len(),
{
    if s.len() > 0 && s[0] != c {
        let rest = s.skip(1);
        assert(forall|i: int| 0 <= i < rest.len() ==> rest[i] == s[i + 1]);
        lemma_position(rest, c, at - 1);
    }
}

/// Where `c` stands first from `from` on, or the length where it does not.
fn find_from(chars: &[char], from: usize, c: char) -> (at: usize)
    requires
        from <= chars@.len(),
    ensures
        from <= at <= chars@.len(),
        at - from == position(chars@.skip(from as int), c),
{
    let mut at: usize = from;
    while at < chars.len() && chars[at] != c
        invariant
            from <= at <= chars@.len(),
            forall|i: int| from <= i < at ==> chars@[i] != c,
        decreases chars@.len() - at,
    {
        at += 1;
    }
    proof {
        lemma_position(chars@.skip(from as int), c, at - from);
    }
    at
}

/// What stands before the first `c`, all of it where there is none.
pub open spec fn before_char(s: Seq<char>, c: char) -> Seq<char> {
    s.take(position(s, c))
}

/// What stands before the first `c`, all of it where there is none.
pub fn up_to(s: &str, c: char) -> (head: String)
    ensures
        head@ == before_char(s@, c),
{
    let chars = chars_of(s);
    let at: usize = find_from(chars.as_slice(), 0, c);
    assert(s@.skip(0) =~= s@);
    assert(chars@.subrange(0, at as int) =~= before_char(s@, c));
    string_of(vstd::slice::slice_subrange(chars.as_slice(), 0, at))
}

/// What stands before and after the first `c`.
pub open spec fn split_at_char(s: Seq<char>, c: char) -> Option<(Seq<char>, Seq<char>)> {
    let at = position(s, c);
    if at < s.len() {
        Some((s.take(at), s.skip(at + 1)))
    } else {
        None
    }
}

/// What stands before and after the first `c`, as `str::split_once` has it.
pub fn split_once(s: &str, c: char) -> (parts: Option<(String, String)>)
    ensures
        match parts {
            Some((head, tail)) => split_at_char(s@, c) == Some((head@, tail@)),
            None => split_at_char(s@, c) is None,
        },
{
    let chars = chars_of(s);
    let at: usize = find_from(chars.as_slice(), 0, c);
    assert(s@.skip(0) =~= s@);
    if at == chars.len() {
        return None;
    }
    let head = string_of(vstd::slice::slice_subrange(chars.as_slice(), 0, at));
    let tail = string_of(vstd::slice::slice_subrange(chars.as_slice(), at + 1, chars.len()));
    assert(head@ =~= s@.take(at as int));
    assert(tail@ =~= s@.skip(at + 1));
    Some((head, tail))
}

/// A line without the carriage return that ends it.
pub open spec fn without_return(line: Seq<char>) -> Seq<char> {
    if line.len() > 0 && line.last() == '\r' {
        line.drop_last()
    } else {
        line
    }
}

/// The lines of a text, as `str::lines` has them: each ends in a line feed, or
/// a carriage return and a line feed, which do not belong to it; the last one
/// may end with the text.
pub open spec fn lines_of(s: Seq<char>) -> Seq<Seq<char>>
    decreases s.len(),
{
    let at = position(s, '\n');
    if s.len() == 0 {
        Seq::empty()
    } else if at < 0 || at >= s.len() {
        seq![s]
    } else {
        seq![without_return(s.take(at))] + lines_of(s.skip(at + 1))
    }
}

/// The lines of a text.
pub fn lines(s: &str) -> (lines: Vec<String>)
    ensures
        lines@.len() == lines_of(s@).len(),
        forall|i: int| 0 <= i < lines@.len() ==> (#[trigger] lines@[i])@ == lines_of(s@)[i],
{
    let chars = chars_of(s);
    let mut out: Vec<String> = Vec::new();
    let mut from: usize = 0;
    assert(s@.skip(0) =~= s@);
    while from < chars.len()
        invariant
            chars@ == s@,
            from <= chars@.len(),
            out@.len() + lines_of(s@.skip(from as int)).len() == lines_of(s@).len(),
            forall|i: int| 0 <= i < out@.len() ==> (#[trigger] out@[i])@ == lines_of(s@)[i],
            forall|i: int|
                0 <= i < lines_of(s@.skip(from as int)).len() ==> lines_of(s@)[out@.len() + i]
                    == #[trigger] lines_of(s@.skip(from as int))[i],
        decreases chars@.len() - from,
    {
        let ghost rest = s@.skip(from as int);
        let at: usize = find_from(chars.as_slice(), from, '\n');
        let mut end: usize = at;
        if at < chars.len() && at > from && chars[at - 1] == '\r' {
            end = at - 1;
        }
        let line = string_of(vstd::slice::slice_subrange(chars.as_slice(), from, end));
        let ghost next = if at < chars.len() {
            at + 1
        } else {
            at as int
        };
        proof {
            let wanted = if at < chars@.len() {
                without_return(rest.take(at - from))
            } else {
                rest
            };
            assert(line@ =~= wanted);
            assert(s@.skip(next) =~= rest.skip(next - from));
            assert(lines_of(rest)[0] == wanted);
            assert(lines_of(s@)[out@.len() + 0int] == lines_of(rest)[0]);
            assert(lines_of(rest) =~= seq![wanted] + lines_of(s@.skip(next)));
            assert forall|i: int| 0 <= i < lines_of(s@.skip(next)).len() implies lines_of(
                s@,
            )[out@.len() + 1 + i] == #[trigger] lines_of(s@.skip(next))[i] by {
                assert(lines_of(rest)[i + 1] == lines_of(s@.skip(next))[i]);
                assert(lines_of(s@)[out@.len() + (i + 1)] == lines_of(rest)[i + 1]);
            }
        }
        out.push(line);
        from = if at < chars.len() {
            at + 1
        } else {
            at
        };
    }
    assert(s@.skip(from as int) =~= Seq::<char>::empty());
    out
}

/// A text without the `c`s that it begins with.
pub open spec fn trimmed_start(s: Seq<char>, c: char) -> Seq<char>
    decreases s.len(),
{
    if s.len() > 0 && s[0] == c {
        trimmed_start(s.skip(1), c)
    } else {
        s
    }
}

/// A text without the `c`s that it begins with.
pub fn trim_start(s: &str, c: char) -> (rest: String)
    ensures
        rest@ == trimmed_start(s@, c),
{
    let chars = chars_of(s);
    let mut from: usize = 0;
    assert(s@.skip(0) =~= s@);
    while from < chars.len() && chars[from] == c
        invariant
            chars@ == s@,
            from <= chars@.len(),
            trimmed_start(s@.skip(from as int), c) == trimmed_start(s@, c),
        decreases chars@.len() - from,
    {
        assert(s@.skip(from as int).skip(1) =~= s@.skip(from + 1));
        from += 1;
    }
    let rest = string_of(vstd::slice::slice_subrange(chars.as_slice(), from, chars.len()));
    assert(rest@ =~= s@.skip(from as int));
    rest
}

/// What was written in decimal is parsed back.
pub proof fn law_decimal_is_parsed_back(n: nat, max: int)
    requires
        n <= max,
    ensures
        parsed(decimal(n), max) == Some(n as int),
{
    lemma_decimal_value(n);
    lemma_decimal_digits(n);
}

proof fn lemma_decimal_value(n: nat)
    ensures
        digits_value(decimal(n)) == Some(n as int),
    decreases n,
{
    lemma_digit_round_trip((n % 10) as int);
    if n >= 10 {
        lemma_decimal_value(n / 10);
        assert(decimal(n).drop_last() =~= decimal(n / 10));
    } else {
        reveal_with_fuel(digits_value, 2);
        assert(decimal(n).drop_last() =~= Seq::<char>::empty());
    }
}

/// The digits are the ten characters from zero up, in their order, and a number
/// is written without a zero in front: one more digit makes it tenfold and that
/// digit.
pub proof fn law_a_digit_more_is_ten_times_as_much(n: nat, d: nat)
    requires
        d < 10,
    ensures
        decimal(d) == seq![digit_char(d as int)],
        digit_char(d as int) as int == '0' as int + d,
        n > 0 ==> decimal((10 * n + d) as nat) == decimal(n).push(digit_char(d as int)),
        n > 0 ==> decimal(n)[0] != '0',
    decreases n,
{
    if n > 0 {
        assert((10 * n + d) as nat / 10 == n);
        assert((10 * n + d) as nat % 10 == d);
        if n >= 10 {
            law_a_digit_more_is_ten_times_as_much(n / 10, n % 10);
            lemma_decimal_digits(n / 10);
            assert(decimal(n)[0] == decimal(n / 10)[0]);
        }
    }
}

/// What is read as a number is a row of digits, with a plus sign in front of it
/// or not, and no more than the greatest number allowed.
pub proof fn law_only_digits_are_a_number(s: Seq<char>, n: nat, max: int)
    ensures
        parsed(Seq::empty(), max) is None,
        s.len() > 0 && s[0] != '+' ==> parsed(seq!['+'] + s, max) == parsed(s, max),
        parsed(seq!['+'], max) is None,
        n > max ==> parsed(decimal(n), max) is None,
        parsed(s, max) matches Some(value) ==> 0 <= value <= max,
        forall|i: int|
            parsed(s, max) is Some && 0 < i < s.len() ==> '0' <= #[trigger] s[i] <= '9',
{
    assert((seq!['+'] + s).skip(1) =~= s);
    assert(seq!['+'].skip(1) =~= Seq::<char>::empty());
    lemma_decimal_value(n);
    lemma_decimal_digits(n);
    let digits = if s.len() > 0 && s[0] == '+' {
        s.skip(1)
    } else {
        s
    };
    lemma_digits_only(digits);
    assert forall|i: int| parsed(s, max) is Some && 0 < i < s.len() implies '0' <= #[trigger] s[i]
        <= '9' by {
        if s[0] == '+' {
            assert(digits[i - 1] == s[i]);
        }
    }
}

proof fn lemma_digits_only(s: Seq<char>)
    ensures
        digits_value(s) is Some ==> digits_value(s)->0 >= 0,
        forall|i: int| digits_value(s) is Some && 0 <= i < s.len() ==> '0' <= #[trigger] s[i] <= '9',
    decreases s.len(),
{
    if s.len() > 0 {
        let rest = s.drop_last();
        lemma_digits_only(rest);
        assert forall|i: int| digits_value(s) is Some && 0 <= i < s.len() implies '0'
            <= #[trigger] s[i] <= '9' by {
            if i < rest.len() {
                assert(rest[i] == s[i]);
            }
        }
    }
}

/// What comes after a prefix is the text without it, and what comes before a
/// suffix likewise: each is there exactly when the text is the two together.
pub proof fn law_a_prefix_and_the_rest_make_the_text(part: Seq<char>, rest: Seq<char>, s: Seq<char>)
    ensures
        after_prefix(part + rest, part) == Some(rest),
        before_suffix(rest + part, part) == Some(rest),
        after_prefix(s, part) matches Some(tail) ==> part + tail == s,
        before_suffix(s, part) matches Some(head) ==> head + part == s,
{
    assert((part + rest).subrange(0, part.len() as int) =~= part);
    assert((part + rest).skip(part.len() as int) =~= rest);
    let whole = rest + part;
    assert(whole.subrange(whole.len() - part.len(), whole.len() as int) =~= part);
    assert(whole.take(whole.len() - part.len()) =~= rest);
    if part.is_prefix_of(s) {
        assert(part + s.skip(part.len() as int) =~= s);
    }
    if part.is_suffix_of(s) {
        assert(s.take(s.len() - part.len()) + part =~= s);
    }
}

/// A text is split at the first of the characters asked for: none stands before
/// it, and the parts with it in between are the text.
pub proof fn law_a_text_is_split_at_the_first(s: Seq<char>, c: char)
    ensures
        0 <= position(s, c) <= s.len(),
        forall|i: int| 0 <= i < position(s, c) ==> #[trigger] s[i] != c,
        position(s, c) < s.len() ==> s[position(s, c)] == c,
        split_at_char(s, c) is Some <==> s.contains(c),
        split_at_char(s, c) matches Some((head, tail)) ==> {
            &&& head + seq![c] + tail == s
            &&& !head.contains(c)
            &&& before_char(s, c) == head
        },
        !s.contains(c) ==> before_char(s, c) == s,
    decreases s.len(),
{
    lemma_first(s, c);
    let at = position(s, c);
    if s.contains(c) {
        let i = choose|i: int| 0 <= i < s.len() && s[i] == c;
        assert(s[i] == c);
        assert(s.take(at) + seq![c] + s.skip(at + 1) =~= s);
    } else {
        if at < s.len() {
            assert(s.contains(s[at]));
        }
        assert(s.take(at) =~= s);
    }
}

proof fn lemma_first(s: Seq<char>, c: char)
    ensures
        0 <= position(s, c) <= s.len(),
        forall|i: int| 0 <= i < position(s, c) ==> #[trigger] s[i] != c,
        position(s, c) < s.len() ==> s[position(s, c)] == c,
    decreases s.len(),
{
    if s.len() > 0 && s[0] != c {
        let rest = s.skip(1);
        lemma_first(rest, c);
        assert forall|i: int| 0 <= i < position(s, c) implies #[trigger] s[i] != c by {
            if i > 0 {
                assert(rest[i - 1] == s[i]);
            }
        }
        if position(s, c) < s.len() {
            assert(rest[position(rest, c)] == s[position(s, c)]);
        }
    }
}

/// The lines of two texts, the first of which ends a line, are the lines of the
/// one and then those of the other.
#[verifier::rlimit(60)]
pub proof fn law_lines_of_texts_join(a: Seq<char>, b: Seq<char>)
    requires
        a.len() > 0 ==> a.last() == '\n',
    ensures
        lines_of(a + b) == lines_of(a) + lines_of(b),
    decreases a.len(),
{
    if a.len() == 0 {
        assert(a + b =~= b);
        assert(lines_of(a) + lines_of(b) =~= lines_of(b));
    } else {
        lemma_first(a, '\n');
        let at = position(a, '\n');
        if at == a.len() {
            assert(a[a.len() - 1] != '\n');
        }
        assert forall|i: int| 0 <= i < at implies (a + b)[i] != '\n' by {
            assert(a[i] != '\n');
        }
        lemma_position(a + b, '\n', at);
        let rest = a.skip(at + 1);
        assert((a + b).take(at) =~= a.take(at));
        assert((a + b).skip(at + 1) =~= rest + b);
        if rest.len() > 0 {
            assert(rest.last() == a.last());
        }
        law_lines_of_texts_join(rest, b);
        assert(lines_of(a + b) =~= lines_of(a) + lines_of(b));
    }
}

/// A line ends in a line feed, with a carriage return before it or not; neither
/// belongs to it. The last line may end with the text, and then all of it does.
#[verifier::rlimit(60)]
pub proof fn law_a_line_ends_before_its_line_feed(line: Seq<char>, rest: Seq<char>)
    requires
        !line.contains('\n'),
    ensures
        line.len() == 0 || line.last() != '\r' ==> lines_of(line + seq!['\n'] + rest) == seq![line]
            + lines_of(rest),
        lines_of(line + seq!['\r', '\n'] + rest) == seq![line] + lines_of(rest),
        line.len() > 0 ==> lines_of(line) == seq![line],
        lines_of(Seq::empty()) == Seq::<Seq<char>>::empty(),
{
    assert forall|i: int| 0 <= i < line.len() implies line[i] != '\n' by {
        assert(line.contains(line[i]));
    }
    let plain = line + seq!['\n'] + rest;
    lemma_position(plain, '\n', line.len() as int);
    assert(plain.take(line.len() as int) =~= line);
    assert(plain.skip(line.len() + 1int) =~= rest);
    let returned = line + seq!['\r', '\n'] + rest;
    assert forall|i: int| 0 <= i < line.len() + 1 implies returned[i] != '\n' by {
        if i < line.len() {
            assert(returned[i] == line[i]);
        }
    }
    lemma_position(returned, '\n', line.len() + 1int);
    assert(returned.take(line.len() + 1int) =~= line.push('\r'));
    assert(line.push('\r').drop_last() =~= line);
    assert(returned.skip(line.len() + 2int) =~= rest);
    lemma_position(line, '\n', line.len() as int);
}

/// What is trimmed from the front is that character and nothing else, and all of
/// it.
pub proof fn law_trimming_takes_all_of_one_character(s: Seq<char>, c: char)
    ensures
        trimmed_start(s, c).is_suffix_of(s),
        trimmed_start(s, c).len() > 0 ==> trimmed_start(s, c)[0] != c,
        forall|i: int| 0 <= i < s.len() - trimmed_start(s, c).len() ==> #[trigger] s[i] == c,
    decreases s.len(),
{
    if s.len() > 0 && s[0] == c {
        let rest = s.skip(1);
        law_trimming_takes_all_of_one_character(rest, c);
        let out = trimmed_start(s, c);
        assert(s.subrange(s.len() - out.len(), s.len() as int) =~= rest.subrange(
            rest.len() - out.len(),
            rest.len() as int,
        ));
        assert forall|i: int| 0 <= i < s.len() - out.len() implies #[trigger] s[i] == c by {
            if i > 0 {
                assert(rest[i - 1] == s[i]);
            }
        }
    } else {
        assert(s.subrange(0, s.len() as int) =~= s);
    }
}

} // verus!
