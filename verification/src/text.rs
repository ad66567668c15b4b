//! Strings as sequences of characters.
use vstd::prelude::*;

verus! {

/// `String::push`: appends one character.
#[verifier::external_body]
pub(crate) fn push_char(text: &mut String, ch: char)
    ensures
        final(text)@ == old(text)@.push(ch),
{
    text.push(ch)
}

/// Characters with the Unicode property White_Space.
pub open spec fn is_space(c: char) -> bool {
    let n = c as u32;
    ||| 0x09 <= n <= 0x0d
    ||| n == 0x20
    ||| n == 0x85
    ||| n == 0xa0
    ||| n == 0x1680
    ||| 0x2000 <= n <= 0x200a
    ||| n == 0x2028
    ||| n == 0x2029
    ||| n == 0x202f
    ||| n == 0x205f
    ||| n == 0x3000
}

pub fn whitespace(c: char) -> (space: bool)
    ensures
        space == is_space(c),
{
    let n: u32 = c as u32;
    (0x09 <= n && n <= 0x0d) || n == 0x20 || n == 0x85 || n == 0xa0 || n == 0x1680 || (0x2000 <= n
        && n <= 0x200a) || n == 0x2028 || n == 0x2029 || n == 0x202f || n == 0x205f || n == 0x3000
}

/// The lower-case letter for an ASCII upper-case letter, any other character
/// as it is.
pub open spec fn lower_char(c: char) -> char {
    if 'A' <= c <= 'Z' {
        ((c as u8) + 32) as u8 as char
    } else {
        c
    }
}

pub fn to_lower_char(c: char) -> (lower: char)
    ensures
        lower == lower_char(c),
{
    if 'A' <= c && c <= 'Z' {
        ((c as u8) + 32) as char
    } else {
        c
    }
}

pub open spec fn is_digit(c: char) -> bool {
    '0' <= c <= '9'
}

pub fn digit(c: char) -> (digit: bool)
    ensures
        digit == is_digit(c),
{
    '0' <= c && c <= '9'
}

/// The characters of a string.
pub fn chars_of(text: &str) -> (chars: Vec<char>)
    ensures
        chars@ == text@,
{
    let mut chars: Vec<char> = Vec::new();
    for c in iter: text.chars()
        invariant
            iter.seq() == text@,
            chars@ == text@.take(iter.index() as int),
    {
        chars.push(c);
        assert(chars@ =~= text@.take(iter.index() + 1));
    }
    assert(text@.take(text@.len() as int) =~= text@);
    chars
}

/// The string made of the characters `from..to`.
pub fn string_of(chars: &Vec<char>, from: usize, to: usize) -> (text: String)
    requires
        from <= to <= chars@.len(),
    ensures
        text@ == chars@.subrange(from as int, to as int),
{
    let mut text = String::new();
    let mut i: usize = from;
    while i < to
        invariant
            from <= i <= to <= chars@.len(),
            text@ == chars@.subrange(from as int, i as int),
        decreases to - i,
    {
        push_char(&mut text, chars[i]);
        i = i + 1;
        assert(text@ =~= chars@.subrange(from as int, i as int));
    }
    text
}

/// Whether two strings are the same.
pub fn same(a: &str, b: &str) -> (same: bool)
    ensures
        same == (a@ == b@),
{
    let x = chars_of(a);
    let y = chars_of(b);
    if x.len() != y.len() {
        return false;
    }
    let mut i: usize = 0;
    while i < x.len()
        invariant
            x@ == a@,
            y@ == b@,
            x@.len() == y@.len(),
            i <= x@.len(),
            forall|j: int| 0 <= j < i ==> x@[j] == y@[j],
        decreases x@.len() - i,
    {
        if x[i] != y[i] {
            return false;
        }
        i = i + 1;
    }
    assert(x@ =~= y@);
    true
}

/// Without leading white space.
pub open spec fn trim_start(s: Seq<char>) -> Seq<char>
    decreases s.len(),
{
    if s.len() > 0 && is_space(s[0]) {
        trim_start(s.drop_first())
    } else {
        s
    }
}

/// Without trailing white space.
pub open spec fn trim_end(s: Seq<char>) -> Seq<char>
    decreases s.len(),
{
    if s.len() > 0 && is_space(s.last()) {
        trim_end(s.drop_last())
    } else {
        s
    }
}

/// Without white space at either end.
pub open spec fn trimmed(s: Seq<char>) -> Seq<char> {
    trim_end(trim_start(s))
}

/// Without white space at either end.
pub fn trim(text: &str) -> (result: String)
    ensures
        result@ == trimmed(text@),
{
    let chars = chars_of(text);
    let mut from: usize = 0;
    assert(chars@.skip(0) =~= chars@);
    while from < chars.len() && whitespace(chars[from])
        invariant
            chars@ == text@,
            from <= chars@.len(),
            trim_start(chars@) == trim_start(chars@.skip(from as int)),
        decreases chars@.len() - from,
    {
        assert(chars@.skip(from as int).drop_first() =~= chars@.skip(from + 1));
        from = from + 1;
    }
    let mut to: usize = chars.len();
    assert(chars@.subrange(from as int, to as int) =~= chars@.skip(from as int));
    while to > from && whitespace(chars[to - 1])
        invariant
            chars@ == text@,
            from <= to <= chars@.len(),
            trim_end(trim_start(chars@)) == trim_end(chars@.subrange(from as int, to as int)),
        decreases to,
    {
        let ghost part = chars@.subrange(from as int, to as int);
        assert(part.last() == chars@[to - 1]);
        assert(part.drop_last() =~= chars@.subrange(from as int, to - 1));
        to = to - 1;
    }
    assert(to > from ==> chars@.subrange(from as int, to as int).last() == chars@[to - 1]);
    string_of(&chars, from, to)
}

/// Nothing is left to trim from a trimmed string.
pub proof fn law_trim_is_idempotent(s: Seq<char>)
    ensures
        trimmed(trimmed(s)) == trimmed(s),
{
    lemma_trim_start_done(s);
    lemma_trim_end_keeps_start(trim_start(s));
    lemma_trim_end_done(trim_start(s));
}

proof fn lemma_trim_start_done(s: Seq<char>)
    ensures
        trim_start(s).len() > 0 ==> !is_space(trim_start(s)[0]),
    decreases s.len(),
{
    if s.len() > 0 && is_space(s[0]) {
        lemma_trim_start_done(s.drop_first());
    }
}

proof fn lemma_trim_end_done(s: Seq<char>)
    ensures
        trim_end(trim_end(s)) == trim_end(s),
    decreases s.len(),
{
    if s.len() > 0 && is_space(s.last()) {
        lemma_trim_end_done(s.drop_last());
    }
}

proof fn lemma_trim_end_keeps_start(s: Seq<char>)
    requires
        s.len() > 0 ==> !is_space(s[0]),
    ensures
        trim_start(trim_end(s)) == trim_end(s),
    decreases s.len(),
{
    if s.len() > 0 && is_space(s.last()) {
        if s.len() == 1 {
            assert(s[0] == s.last());
        }
        lemma_trim_end_keeps_start(s.drop_last());
    }
}

/// With ASCII letters in lower case.
pub open spec fn lowered(s: Seq<char>) -> Seq<char> {
    s.map_values(|c: char| lower_char(c))
}

/// With ASCII letters in lower case.
pub fn to_ascii_lowercase(text: &str) -> (result: String)
    ensures
        result@ == lowered(text@),
{
    let chars = chars_of(text);
    let mut result = String::new();
    let mut i: usize = 0;
    while i < chars.len()
        invariant
            chars@ == text@,
            i <= chars@.len(),
            result@ == lowered(text@.take(i as int)),
        decreases chars@.len() - i,
    {
        push_char(&mut result, to_lower_char(chars[i]));
        i = i + 1;
        assert(result@ =~= lowered(text@.take(i as int)));
    }
    assert(text@.take(i as int) =~= text@);
    result
}

/// Trimmed and in lower case.
pub open spec fn folded(s: Seq<char>) -> Seq<char> {
    lowered(trimmed(s))
}

/// Trimmed and in lower case.
pub fn fold(text: &str) -> (result: String)
    ensures
        result@ == folded(text@),
{
    let core = trim(text);
    to_ascii_lowercase(core.as_str())
}

/// Where `c` occurs first, or the length.
pub open spec fn find(s: Seq<char>, c: char) -> int
    decreases s.len(),
{
    if s.len() == 0 || s[0] == c {
        0
    } else {
        1 + find(s.drop_first(), c)
    }
}

pub proof fn lemma_find(s: Seq<char>, c: char)
    ensures
        0 <= find(s, c) <= s.len(),
        forall|i: int| 0 <= i < find(s, c) ==> s[i] != c,
        find(s, c) < s.len() ==> s[find(s, c)] == c,
    decreases s.len(),
{
    if s.len() > 0 && s[0] != c {
        let rest = s.drop_first();
        lemma_find(rest, c);
        assert forall|i: int| 0 <= i < find(s, c) implies s[i] != c by {
            if i > 0 {
                assert(rest[i - 1] == s[i]);
            }
        }
    }
}

/// The parts between the occurrences of `c`.
pub open spec fn split(s: Seq<char>, c: char) -> Seq<Seq<char>>
    decreases s.len(),
    via split_decreases
{
    let i = find(s, c);
    if 0 <= i < s.len() {
        seq![s.take(i)] + split(s.skip(i + 1), c)
    } else {
        seq![s]
    }
}

#[via_fn]
proof fn split_decreases(s: Seq<char>, c: char) {
    lemma_find(s, c);
}

/// The first part ends at the first occurrence of `c`.
pub proof fn lemma_split_at(s: Seq<char>, c: char, i: int)
    requires
        0 <= i < s.len(),
        s[i] == c,
        forall|j: int| 0 <= j < i ==> s[j] != c,
    ensures
        split(s, c) == seq![s.take(i)] + split(s.skip(i + 1), c),
{
    lemma_find(s, c);
    assert(find(s, c) == i);
}

/// A text without `c` is one part.
pub proof fn lemma_split_whole(s: Seq<char>, c: char)
    requires
        !s.contains(c),
    ensures
        split(s, c) == seq![s],
{
    lemma_find(s, c);
    if find(s, c) < s.len() {
        assert(s.contains(s[find(s, c)]));
    }
}

/// The contents of some strings.
pub open spec fn texts(strings: Seq<String>) -> Seq<Seq<char>> {
    strings.map_values(|s: String| s@)
}

/// The parts between the occurrences of `c`.
pub fn split_on(text: &str, c: char) -> (parts: Vec<String>)
    ensures
        texts(parts@) == split(text@, c),
        parts@.len() > 0,
{
    let chars = chars_of(text);
    let mut parts: Vec<String> = Vec::new();
    let mut from: usize = 0;
    let mut i: usize = 0;
    let ghost whole = split(text@, c);
    assert(chars@.skip(0) =~= chars@);
    assert(texts(parts@) + whole =~= whole);
    while i < chars.len()
        invariant
            chars@ == text@,
            from <= i <= chars@.len(),
            whole == split(text@, c),
            texts(parts@) + split(chars@.skip(from as int), c) == whole,
            forall|j: int| from <= j < i ==> chars@[j] != c,
        decreases chars@.len() - i,
    {
        if chars[i] == c {
            let part = string_of(&chars, from, i);
            proof {
                let rest = chars@.skip(from as int);
                lemma_find(rest, c);
                let at = find(rest, c);
                assert(rest[i - from] == c);
                if at > i - from {
                    assert(rest[i - from] != c);
                }
                if at < i - from {
                    assert(rest[at] == chars@[from + at]);
                }
                assert(rest.take(at) =~= part@);
                assert(rest.skip(at + 1) =~= chars@.skip(i + 1));
                assert(texts(parts@.push(part)) =~= texts(parts@) + seq![part@]);
                assert(texts(parts@) + (seq![part@] + split(chars@.skip(i + 1), c)) =~= (texts(
                    parts@,
                ) + seq![part@]) + split(chars@.skip(i + 1), c));
            }
            parts.push(part);
            from = i + 1;
        }
        i = i + 1;
    }
    let part = string_of(&chars, from, i);
    proof {
        let rest = chars@.skip(from as int);
        lemma_find(rest, c);
        let at = find(rest, c);
        if at < rest.len() {
            assert(rest[at] == chars@[from + at]);
        }
        assert(rest =~= part@);
        assert(texts(parts@.push(part)) =~= texts(parts@) + seq![part@]);
    }
    parts.push(part);
    parts
}

/// The strings one after the other, with `between` between them.
pub open spec fn joined(parts: Seq<Seq<char>>, between: Seq<char>) -> Seq<char>
    decreases parts.len(),
{
    if parts.len() == 0 {
        Seq::empty()
    } else if parts.len() == 1 {
        parts[0]
    } else {
        joined(parts.drop_last(), between) + between + parts.last()
    }
}

/// The strings one after the other, with `between` between them.
pub fn join(parts: &Vec<String>, between: &str) -> (result: String)
    ensures
        result@ == joined(texts(parts@), between@),
{
    let mut result = String::new();
    let mut i: usize = 0;
    assert(texts(parts@).take(0) =~= Seq::<Seq<char>>::empty());
    while i < parts.len()
        invariant
            i <= parts@.len(),
            result@ == joined(texts(parts@).take(i as int), between@),
        decreases parts@.len() - i,
    {
        proof {
            let next = texts(parts@).take(i + 1);
            assert(next.drop_last() =~= texts(parts@).take(i as int));
            assert(next.last() == parts@[i as int]@);
        }
        if i > 0 {
            result.append(between);
        }
        let ghost before = result@;
        result.append(parts[i].as_str());
        proof {
            if i == 0 {
                assert(result@ =~= parts@[0]@);
            }
        }
        i = i + 1;
    }
    assert(texts(parts@).take(i as int) =~= texts(parts@));
    result
}

/// `s` begins with `prefix`.
pub open spec fn begins(s: Seq<char>, prefix: Seq<char>) -> bool {
    prefix.len() <= s.len() && s.take(prefix.len() as int) == prefix
}

/// Whether `text` begins with `prefix`.
pub fn starts_with(text: &str, prefix: &str) -> (starts: bool)
    ensures
        starts == begins(text@, prefix@),
{
    let x = chars_of(text);
    let y = chars_of(prefix);
    if y.len() > x.len() {
        return false;
    }
    let mut i: usize = 0;
    while i < y.len()
        invariant
            x@ == text@,
            y@ == prefix@,
            y@.len() <= x@.len(),
            i <= y@.len(),
            forall|j: int| 0 <= j < i ==> x@[j] == y@[j],
        decreases y@.len() - i,
    {
        if x[i] != y[i] {
            assert(text@.take(prefix@.len() as int)[i as int] == x@[i as int]);
            return false;
        }
        i = i + 1;
    }
    assert(text@.take(prefix@.len() as int) =~= prefix@);
    true
}

/// What follows `prefix` in `text`, if it begins with it.
pub fn strip_prefix(text: &str, prefix: &str) -> (rest: Option<String>)
    ensures
        match rest {
            Some(rest) => begins(text@, prefix@) && rest@ == text@.skip(prefix@.len() as int),
            None => !begins(text@, prefix@),
        },
{
    if !starts_with(text, prefix) {
        return None;
    }
    let chars = chars_of(text);
    let skip: usize = chars_of(prefix).len();
    let rest = string_of(&chars, skip, chars.len());
    assert(rest@ =~= text@.skip(prefix@.len() as int));
    Some(rest)
}

/// With every `c` replaced by `with`.
pub open spec fn replaced(s: Seq<char>, c: char, with: Seq<char>) -> Seq<char>
    decreases s.len(),
{
    if s.len() == 0 {
        Seq::empty()
    } else {
        replaced(s.drop_last(), c, with) + (if s.last() == c {
            with
        } else {
            seq![s.last()]
        })
    }
}

/// With every `c` replaced by `with`.
pub fn replace(text: &str, c: char, with: &str) -> (result: String)
    ensures
        result@ == replaced(text@, c, with@),
{
    let chars = chars_of(text);
    let mut result = String::new();
    let mut i: usize = 0;
    assert(text@.take(0) =~= Seq::<char>::empty());
    while i < chars.len()
        invariant
            chars@ == text@,
            i <= chars@.len(),
            result@ == replaced(text@.take(i as int), c, with@),
        decreases chars@.len() - i,
    {
        assert(text@.take(i + 1).drop_last() =~= text@.take(i as int));
        if chars[i] == c {
            result.append(with);
        } else {
            let ghost before = result@;
            push_char(&mut result, chars[i]);
            assert(before.push(chars@[i as int]) =~= before + seq![chars@[i as int]]);
        }
        i = i + 1;
    }
    assert(text@.take(i as int) =~= text@);
    result
}

/// The digit for a number below ten.
pub open spec fn digit_char(n: nat) -> char {
    (n + 48) as u8 as char
}

/// A number in decimal digits.
pub open spec fn decimal(n: nat) -> Seq<char>
    decreases n,
{
    if n < 10 {
        seq![digit_char(n)]
    } else {
        decimal(n / 10).push(digit_char(n % 10))
    }
}

/// A number in decimal digits.
pub fn decimal_text(n: u128) -> (text: String)
    ensures
        text@ == decimal(n as nat),
{
    let mut digits: Vec<char> = Vec::new();
    let mut rest: u128 = n;
    let ghost mut tail: Seq<char> = Seq::empty();
    assert(decimal(n as nat) + tail =~= decimal(n as nat));
    loop
        invariant_except_break
            decimal(n as nat) == decimal(rest as nat) + tail,
            digits@.len() == tail.len(),
            forall|i: int| 0 <= i < tail.len() ==> tail[i] == digits@[tail.len() - 1 - i],
        ensures
            digits@.len() > 0,
            decimal(n as nat).len() == digits@.len(),
            forall|i: int|
                0 <= i < digits@.len() ==> decimal(n as nat)[i] == digits@[digits@.len() - 1 - i],
        decreases rest,
    {
        let last: u8 = (rest % 10) as u8;
        digits.push((last + 48) as char);
        let ghost c = digit_char((rest % 10) as nat);
        if rest < 10 {
            assert(decimal(rest as nat) + tail =~= seq![c] + tail);
            break;
        }
        proof {
            assert(decimal(rest as nat) + tail =~= decimal((rest / 10) as nat) + (seq![c] + tail));
            tail = seq![c] + tail;
        }
        rest = rest / 10;
    }
    let mut text = String::new();
    let mut i: usize = digits.len();
    while i > 0
        invariant
            i <= digits@.len(),
            decimal(n as nat).len() == digits@.len(),
            forall|j: int|
                0 <= j < digits@.len() ==> decimal(n as nat)[j] == digits@[digits@.len() - 1 - j],
            text@ == decimal(n as nat).take(digits@.len() - i),
        decreases i,
    {
        i = i - 1;
        push_char(&mut text, digits[i]);
        assert(text@ =~= decimal(n as nat).take(digits@.len() - i));
    }
    assert(decimal(n as nat).take(digits@.len() as int) =~= decimal(n as nat));
    text
}

/// The number that a run of digits stands for.
pub open spec fn digits_value(s: Seq<char>) -> nat
    decreases s.len(),
{
    if s.len() == 0 {
        0
    } else {
        digits_value(s.drop_last()) * 10 + (s.last() as u32 - 48) as nat
    }
}

pub open spec fn all_digits(s: Seq<char>) -> bool {
    forall|i: int| 0 <= i < s.len() ==> is_digit(#[trigger] s[i])
}

/// The digits of an unsigned number, which one plus sign may precede.
pub open spec fn unsigned_digits(s: Seq<char>) -> Seq<char> {
    if s.len() > 0 && s[0] == '+' {
        s.drop_first()
    } else {
        s
    }
}

/// What an unsigned number up to `max` in decimal notation stands for.
pub open spec fn unsigned(s: Seq<char>, max: nat) -> Option<nat> {
    let digits = unsigned_digits(s);
    if digits.len() > 0 && all_digits(digits) && digits_value(digits) <= max {
        Some(digits_value(digits))
    } else {
        None
    }
}

/// Reads an unsigned number up to `max` in decimal notation.
pub fn parse_unsigned(text: &str, max: u128) -> (value: Option<u128>)
    requires
        max <= 0xffff_ffff_ffff_ffff,
    ensures
        match value {
            Some(value) => unsigned(text@, max as nat) == Some(value as nat) && value <= max,
            None => unsigned(text@, max as nat) is None,
        },
{
    let chars = chars_of(text);
    let mut i: usize = 0;
    if chars.len() > 0 && chars[0] == '+' {
        i = 1;
    }
    let from: usize = i;
    let ghost digits = unsigned_digits(text@);
    assert(chars@.skip(from as int) =~= digits);
    if i == chars.len() {
        return None;
    }
    let mut value: u128 = 0;
    assert(digits.take(0) =~= Seq::<char>::empty());
    while i < chars.len()
        invariant
            max <= 0xffff_ffff_ffff_ffff,
            chars@ == text@,
            from <= i <= chars@.len(),
            digits == chars@.skip(from as int),
            digits == unsigned_digits(text@),
            value == digits_value(digits.take(i - from)),
            value <= max,
            forall|j: int| 0 <= j < i - from ==> is_digit(#[trigger] digits[j]),
        decreases chars@.len() - i,
    {
        let c: char = chars[i];
        assert(digits[i - from] == c);
        if !digit(c) {
            return None;
        }
        let next: u128 = value * 10 + (c as u32 - 48) as u128;
        proof {
            let part = digits.take(i - from + 1);
            assert(part.drop_last() =~= digits.take(i - from));
            assert(part.last() == c);
            lemma_digits_value_grows(digits, i - from + 1);
        }
        if next > max {
            return None;
        }
        value = next;
        i = i + 1;
    }
    assert(digits.take(i - from) =~= digits);
    Some(value)
}

/// A longer run of digits stands for no smaller number.
proof fn lemma_digits_value_grows(s: Seq<char>, n: int)
    requires
        0 <= n <= s.len(),
    ensures
        digits_value(s.take(n)) <= digits_value(s),
    decreases s.len() - n,
{
    if n < s.len() {
        lemma_digits_value_grows(s, n + 1);
        assert(s.take(n + 1).drop_last() =~= s.take(n));
    } else {
        assert(s.take(n) =~= s);
    }
}

/// Reading back the decimal notation of a number gives the number.
pub proof fn law_decimal_round_trip(n: nat, max: nat)
    requires
        n <= max,
    ensures
        unsigned(decimal(n), max) == Some(n),
{
    lemma_decimal(n);
    assert(unsigned_digits(decimal(n)) == decimal(n)) by {
        assert(is_digit(decimal(n)[0]));
    }
}

pub proof fn lemma_decimal(n: nat)
    ensures
        decimal(n).len() > 0,
        all_digits(decimal(n)),
        digits_value(decimal(n)) == n,
    decreases n,
{
    if n < 10 {
        assert(decimal(n).drop_last() =~= Seq::<char>::empty());
        assert(digits_value(decimal(n).drop_last()) == 0);
    } else {
        lemma_decimal(n / 10);
        assert(decimal(n).drop_last() =~= decimal(n / 10));
    }
}

/// White space is what Unicode lists as such: the control characters from tab
/// to carriage return, the space, and the separators beyond ASCII.
pub proof fn law_white_space(n: u32)
    requires
        n < 0xd800 || 0xe000 <= n < 0x11_0000,
    ensures
        is_space(n as char) <==> seq![
            0x09u32, 0x0a, 0x0b, 0x0c, 0x0d, 0x20, 0x85, 0xa0, 0x1680, 0x2000, 0x2001, 0x2002,
            0x2003, 0x2004, 0x2005, 0x2006, 0x2007, 0x2008, 0x2009, 0x200a, 0x2028, 0x2029, 0x202f,
            0x205f, 0x3000,
        ].contains(n),
{
    let list = seq![
        0x09u32, 0x0a, 0x0b, 0x0c, 0x0d, 0x20, 0x85, 0xa0, 0x1680, 0x2000, 0x2001, 0x2002,
        0x2003, 0x2004, 0x2005, 0x2006, 0x2007, 0x2008, 0x2009, 0x200a, 0x2028, 0x2029, 0x202f,
        0x205f, 0x3000,
    ];
    assert((n as char) as u32 == n);
    if 0x09 <= n <= 0x0d {
        assert(list[n - 0x09] == n);
    }
    if 0x2000 <= n <= 0x200a {
        assert(list[n - 0x2000 + 9] == n);
    }
    assert(list[5] == 0x20 && list[6] == 0x85 && list[7] == 0xa0 && list[8] == 0x1680);
    assert(list[20] == 0x2028 && list[21] == 0x2029 && list[22] == 0x202f && list[23] == 0x205f
        && list[24] == 0x3000);
}

/// What trimming leaves is a stretch of the text: only white space is before
/// and behind it, and it neither begins nor ends with white space.
pub proof fn law_trimmed_is_the_middle(s: Seq<char>)
    ensures
        exists|from: int, to: int|
            #![trigger s.subrange(from, to)]
            {
                &&& 0 <= from <= to <= s.len()
                &&& trimmed(s) == s.subrange(from, to)
                &&& forall|i: int|
                    0 <= i < s.len() && !(from <= i < to) ==> is_space(#[trigger] s[i])
                &&& from < to ==> !is_space(s[from]) && !is_space(s[to - 1])
            },
{
    let from = lemma_trim_start_cut(s);
    let rest = s.skip(from);
    let len = lemma_trim_end_cut(rest);
    let to = from + len;
    assert(trimmed(s) =~= s.subrange(from, to));
    assert forall|i: int| 0 <= i < s.len() && !(from <= i < to) implies is_space(
        #[trigger] s[i],
    ) by {
        if i >= to {
            assert(rest[i - from] == s[i]);
        }
    }
    if from < to {
        assert(rest[0] == s[from]);
        assert(rest[len - 1] == s[to - 1]);
    }
}

proof fn lemma_trim_start_cut(s: Seq<char>) -> (from: int)
    ensures
        0 <= from <= s.len(),
        trim_start(s) == s.skip(from),
        forall|i: int| 0 <= i < from ==> is_space(#[trigger] s[i]),
        from < s.len() ==> !is_space(s[from]),
    decreases s.len(),
{
    if s.len() > 0 && is_space(s[0]) {
        let rest = s.drop_first();
        let at = lemma_trim_start_cut(rest);
        assert(rest.skip(at) =~= s.skip(at + 1));
        assert forall|i: int| 0 <= i < at + 1 implies is_space(#[trigger] s[i]) by {
            if i > 0 {
                assert(rest[i - 1] == s[i]);
            }
        }
        at + 1
    } else {
        assert(s.skip(0) =~= s);
        0
    }
}

proof fn lemma_trim_end_cut(s: Seq<char>) -> (to: int)
    ensures
        0 <= to <= s.len(),
        trim_end(s) == s.take(to),
        forall|i: int| to <= i < s.len() ==> is_space(#[trigger] s[i]),
        to > 0 ==> !is_space(s[to - 1]),
    decreases s.len(),
{
    if s.len() > 0 && is_space(s.last()) {
        let rest = s.drop_last();
        let to = lemma_trim_end_cut(rest);
        assert(rest.take(to) =~= s.take(to));
        assert forall|i: int| to <= i < s.len() implies is_space(#[trigger] s[i]) by {
            if i < rest.len() {
                assert(rest[i] == s[i]);
            }
        }
        to
    } else {
        assert(s.take(s.len() as int) =~= s);
        s.len() as int
    }
}

/// Lower case differs from the text in the letters from A to Z alone, and those
/// become the letters at the same place of the alphabet.
pub proof fn law_lowered_letter_by_letter(s: Seq<char>, i: int)
    requires
        0 <= i < s.len(),
    ensures
        lowered(s).len() == s.len(),
        'A' <= s[i] <= 'Z' ==> {
            &&& 'a' <= lowered(s)[i] <= 'z'
            &&& lowered(s)[i] as int - 'a' as int == s[i] as int - 'A' as int
        },
        !('A' <= s[i] <= 'Z') ==> lowered(s)[i] == s[i],
{
}

/// No part holds the character that parts are cut at, and the parts joined with
/// it are the text.
pub proof fn law_split_parts_join_to_the_text(s: Seq<char>, c: char)
    ensures
        split(s, c).len() > 0,
        forall|i: int| 0 <= i < split(s, c).len() ==> !(#[trigger] split(s, c)[i]).contains(c),
        joined(split(s, c), seq![c]) == s,
    decreases s.len(),
{
    lemma_find(s, c);
    let at = find(s, c);
    let parts = split(s, c);
    if at < s.len() {
        let rest = s.skip(at + 1);
        law_split_parts_join_to_the_text(rest, c);
        let later = split(rest, c);
        lemma_joined_front(s.take(at), later, seq![c]);
        assert(s.take(at) + seq![c] + rest =~= s);
        assert forall|i: int| 0 <= i < parts.len() implies !(#[trigger] parts[i]).contains(c) by {
            if i == 0 {
                if parts[0].contains(c) {
                    let j = choose|j: int| 0 <= j < parts[0].len() && parts[0][j] == c;
                    assert(s[j] == c);
                }
            } else {
                assert(parts[i] == later[i - 1]);
            }
        }
    } else {
        assert(parts =~= seq![s]);
        assert forall|i: int| 0 <= i < parts.len() implies !(#[trigger] parts[i]).contains(c) by {
            if parts[i].contains(c) {
                let j = choose|j: int| 0 <= j < s.len() && s[j] == c;
                assert(s[j] != c);
            }
        }
    }
}

proof fn lemma_joined_front(first: Seq<char>, rest: Seq<Seq<char>>, between: Seq<char>)
    requires
        rest.len() > 0,
    ensures
        joined(seq![first] + rest, between) == first + between + joined(rest, between),
    decreases rest.len(),
{
    let all = seq![first] + rest;
    assert(all.last() == rest.last());
    assert(all.drop_last() =~= seq![first] + rest.drop_last());
    if rest.len() == 1 {
        assert(rest.drop_last() =~= Seq::<Seq<char>>::empty());
        assert(all.drop_last() =~= seq![first]);
        assert(joined(seq![first], between) == first);
    } else {
        lemma_joined_front(first, rest.drop_last(), between);
        assert(first + between + joined(rest, between) =~= first + between + joined(
            rest.drop_last(),
            between,
        ) + between + rest.last());
    }
}

/// Joining and cutting are inverse: parts that do not hold the character come
/// back as they were, in their order.
pub proof fn law_joined_parts_split_again(parts: Seq<Seq<char>>, c: char)
    requires
        parts.len() > 0,
        forall|i: int| 0 <= i < parts.len() ==> !(#[trigger] parts[i]).contains(c),
    ensures
        split(joined(parts, seq![c]), c) == parts,
    decreases parts.len(),
{
    let first = parts[0];
    let rest = parts.drop_first();
    let text = joined(parts, seq![c]);
    if parts.len() == 1 {
        lemma_split_whole(text, c);
        assert(parts =~= seq![first]);
    } else {
        assert forall|i: int| 0 <= i < rest.len() implies !(#[trigger] rest[i]).contains(c) by {
            assert(rest[i] == parts[i + 1]);
        }
        law_joined_parts_split_again(rest, c);
        assert(seq![first] + rest =~= parts);
        lemma_joined_front(first, rest, seq![c]);
        let at = first.len() as int;
        assert(text[at] == c);
        assert forall|j: int| 0 <= j < at implies text[j] != c by {
            assert(text[j] == first[j]);
        }
        lemma_split_at(text, c, at);
        assert(text.take(at) =~= first);
        assert(text.skip(at + 1) =~= joined(rest, seq![c]));
    }
}

/// A text begins with another exactly when it is that one and more.
pub proof fn law_begins_means_more_may_follow(prefix: Seq<char>, rest: Seq<char>, s: Seq<char>)
    ensures
        begins(prefix + rest, prefix),
        begins(s, prefix) ==> s == prefix + s.skip(prefix.len() as int),
{
    assert((prefix + rest).take(prefix.len() as int) =~= prefix);
    if begins(s, prefix) {
        assert(s =~= s.take(prefix.len() as int) + s.skip(prefix.len() as int));
    }
}

/// Replacing works character by character: on the parts of a text each on its
/// own, on a single character by what it stands for.
pub proof fn law_replaced_piece_by_piece(a: Seq<char>, b: Seq<char>, c: char, with: Seq<char>, d: char)
    ensures
        replaced(a + b, c, with) == replaced(a, c, with) + replaced(b, c, with),
        replaced(seq![c], c, with) == with,
        d != c ==> replaced(seq![d], c, with) == seq![d],
        replaced(Seq::empty(), c, with) == Seq::<char>::empty(),
    decreases b.len(),
{
    reveal_with_fuel(replaced, 2);
    assert(seq![c].drop_last() =~= Seq::<char>::empty());
    assert(seq![d].drop_last() =~= Seq::<char>::empty());
    assert(replaced(seq![c], c, with) =~= with);
    if d != c {
        assert(replaced(seq![d], c, with) =~= seq![d]);
    }
    if b.len() == 0 {
        assert(a + b =~= a);
        assert(replaced(a, c, with) + replaced(b, c, with) =~= replaced(a, c, with));
    } else {
        law_replaced_piece_by_piece(a, b.drop_last(), c, with, d);
        assert((a + b).drop_last() =~= a + b.drop_last());
        assert((a + b).last() == b.last());
        let end = if b.last() == c {
            with
        } else {
            seq![b.last()]
        };
        assert(replaced(a, c, with) + replaced(b.drop_last(), c, with) + end =~= replaced(
            a,
            c,
            with,
        ) + (replaced(b.drop_last(), c, with) + end));
    }
}

/// The decimal notation of a number is made of the digits from 0 to 9, and
/// begins with 0 only for zero itself.
pub proof fn law_decimal_has_no_leading_zero(n: nat)
    ensures
        decimal(n).len() > 0,
        forall|i: int| 0 <= i < decimal(n).len() ==> '0' <= #[trigger] decimal(n)[i] <= '9',
        n > 0 ==> decimal(n)[0] != '0',
        n == 0 ==> decimal(n) == seq!['0'],
    decreases n,
{
    lemma_decimal(n);
    if n >= 10 {
        law_decimal_has_no_leading_zero(n / 10);
    }
    assert forall|i: int| 0 <= i < decimal(n).len() implies '0' <= #[trigger] decimal(n)[i]
        <= '9' by {
        assert(is_digit(decimal(n)[i]));
    }
}

/// What digits stand for: one digit for itself, and one more digit behind others
/// for ten times those and itself.
pub proof fn law_digits_are_positional(s: Seq<char>, c: char)
    requires
        '0' <= c <= '9',
    ensures
        digits_value(seq![c]) == c as int - '0' as int,
        digits_value(s.push(c)) == 10 * digits_value(s) + (c as int - '0' as int),
{
    assert(seq![c].drop_last() =~= Seq::<char>::empty());
    assert(digits_value(seq![c].drop_last()) == 0);
    assert(s.push(c).drop_last() =~= s);
}

/// A number is read exactly from one or more digits, with or without one plus
/// sign before them, that do not stand for more than the limit.
pub proof fn law_unsigned_reads_digits_alone(s: Seq<char>, max: nat)
    ensures
        (unsigned(s, max) is Some) <==> exists|signs: int|
            #![trigger s.skip(signs)]
            {
                &&& 0 <= signs <= 1
                &&& signs < s.len()
                &&& signs == 1 ==> s[0] == '+'
                &&& forall|i: int| signs <= i < s.len() ==> '0' <= #[trigger] s[i] <= '9'
                &&& digits_value(s.skip(signs)) <= max
            },
        unsigned(s, max) matches Some(n) ==> n <= max,
{
    assert(s.skip(0) =~= s);
    if s.len() > 0 {
        assert(s.skip(1) =~= s.drop_first());
    }
    let digits = unsigned_digits(s);
    if unsigned(s, max) is Some {
        let signs: int = if s[0] == '+' {
            1
        } else {
            0
        };
        assert(digits == s.skip(signs));
        assert forall|i: int| signs <= i < s.len() implies '0' <= #[trigger] s[i] <= '9' by {
            assert(is_digit(digits[i - signs]));
        }
    }
    if exists|signs: int|
        #![trigger s.skip(signs)]
        {
            &&& 0 <= signs <= 1
            &&& signs < s.len()
            &&& signs == 1 ==> s[0] == '+'
            &&& forall|i: int| signs <= i < s.len() ==> '0' <= #[trigger] s[i] <= '9'
            &&& digits_value(s.skip(signs)) <= max
        } {
        let signs = choose|signs: int|
            #![trigger s.skip(signs)]
            {
                &&& 0 <= signs <= 1
                &&& signs < s.len()
                &&& signs == 1 ==> s[0] == '+'
                &&& forall|i: int| signs <= i < s.len() ==> '0' <= #[trigger] s[i] <= '9'
                &&& digits_value(s.skip(signs)) <= max
            };
        if signs == 0 {
            assert(s[0] != '+');
        }
        assert(digits =~= s.skip(signs));
        assert forall|i: int| 0 <= i < digits.len() implies is_digit(#[trigger] digits[i]) by {
            assert(digits[i] == s[i + signs]);
        }
    }
}

/// A text without capital letters and without white space at its ends is its own
/// trimmed and folded form.
pub proof fn lemma_plain_text(s: Seq<char>)
    requires
        s.len() > 0,
        forall|i: int| 0 <= i < s.len() ==> !('A' <= #[trigger] s[i] <= 'Z'),
        !is_space(s[0]),
        !is_space(s.last()),
    ensures
        folded(s) == s,
        trimmed(s) == s,
{
    assert(folded(s) =~= s);
}

} // verus!
