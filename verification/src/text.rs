//! Text as a sequence of characters: comparing, searching, trimming, numbers.

use vstd::prelude::*;
use vstd::utf8::*;

verus! {

/// Appends one character (`String::push`).
pub assume_specification[ String::push ](s: &mut String, c: char)
    ensures
        final(s)@ == old(s)@.push(c),
;

/// `String::from_utf8`: the text that bytes encode, where they are UTF-8.
#[verifier::external_body]
pub(crate) fn text_from(bytes: Vec<u8>) -> (text: Option<String>)
    ensures
        match text {
            Some(t) => valid_utf8(bytes@) && t@ == decode_utf8(bytes@),
            None => !valid_utf8(bytes@),
        },
{
    String::from_utf8(bytes).ok()
}

/// The characters with Unicode's `White_Space` property.
pub open spec fn white(c: char) -> bool {
    ||| '\t' <= c <= '\r'
    ||| c == ' '
    ||| c == '\u{85}'
    ||| c == '\u{a0}'
    ||| c == '\u{1680}'
    ||| '\u{2000}' <= c <= '\u{200a}'
    ||| c == '\u{2028}'
    ||| c == '\u{2029}'
    ||| c == '\u{202f}'
    ||| c == '\u{205f}'
    ||| c == '\u{3000}'
}

/// Whether a character is white space.
pub fn is_whitespace(c: char) -> (yes: bool)
    ensures
        yes == white(c),
{
    ('\t' <= c && c <= '\r') || c == ' ' || c == '\u{85}' || c == '\u{a0}' || c == '\u{1680}' || (
    '\u{2000}' <= c && c <= '\u{200a}') || c == '\u{2028}' || c == '\u{2029}' || c == '\u{202f}'
        || c == '\u{205f}' || c == '\u{3000}'
}

/// The characters of a text, one by one.
pub fn chars_of(s: &str) -> (out: Vec<char>)
    ensures
        out@ == s@,
{
    let mut out: Vec<char> = Vec::new();
    for c in it: s.chars()
        invariant
            it.seq() == s@,
            out@ == s@.take(it.index() as int),
    {
        out.push(c);
        assert(s@.take(it.index() as int).push(c) =~= s@.take(it.index() + 1));
    }
    assert(s@.take(s@.len() as int) =~= s@);
    out
}

/// The text made of the characters `chars[from..to]`.
pub fn text_of(chars: &[char], from: usize, to: usize) -> (out: String)
    requires
        from <= to <= chars@.len(),
    ensures
        out@ == chars@.subrange(from as int, to as int),
{
    let mut out = String::new();
    let mut i = from;
    while i < to
        invariant
            from <= i <= to <= chars@.len(),
            out@ == chars@.subrange(from as int, i as int),
        decreases to - i,
    {
        out.push(chars[i]);
        assert(chars@.subrange(from as int, i as int).push(chars@[i as int])
            =~= chars@.subrange(from as int, i + 1));
        i += 1;
    }
    out
}

/// An owned copy of a text.
pub fn copy_of(s: &str) -> (out: String)
    ensures
        out@ == s@,
{
    s.to_owned()
}

/// Whether two texts hold the same characters.
pub fn same_text(a: &str, b: &str) -> (same: bool)
    ensures
        same == (a@ == b@),
{
    broadcast use encode_utf8_decode_utf8;

    let x = a.as_bytes();
    let y = b.as_bytes();
    assert(decode_utf8(encode_utf8(a@)) == a@);
    assert(decode_utf8(encode_utf8(b@)) == b@);
    if x.len() != y.len() {
        return false;
    }
    let mut i: usize = 0;
    while i < x.len()
        invariant
            x@.len() == y@.len(),
            i <= x@.len(),
            x@ == encode_utf8(a@),
            y@ == encode_utf8(b@),
            forall|j: int| 0 <= j < i ==> x@[j] == y@[j],
        decreases x@.len() - i,
    {
        if x[i] != y[i] {
            return false;
        }
        i += 1;
    }
    assert(x@ =~= y@);
    true
}

/// The characters of each text of a list.
pub open spec fn texts(list: Seq<String>) -> Seq<Seq<char>> {
    list.map_values(|s: String| s@)
}

/// The characters of a text that may be missing.
pub open spec fn text_option(s: Option<String>) -> Option<Seq<char>> {
    match s {
        Some(t) => Some(t@),
        None => None,
    }
}

/// The characters of a text that may be missing.
pub open spec fn str_option(s: Option<&str>) -> Option<Seq<char>> {
    match s {
        Some(t) => Some(t@),
        None => None,
    }
}

/// What follows `prefix` in `s`, if `s` starts with it.
pub open spec fn after_prefix(s: Seq<char>, prefix: Seq<char>) -> Option<Seq<char>> {
    if prefix.is_prefix_of(s) {
        Some(s.skip(prefix.len() as int))
    } else {
        None
    }
}

/// Whether `s` starts with `prefix`.
pub fn starts_with(s: &str, prefix: &str) -> (yes: bool)
    ensures
        yes == prefix@.is_prefix_of(s@),
{
    let x = chars_of(s);
    let y = chars_of(prefix);
    if y.len() > x.len() {
        return false;
    }
    let mut i: usize = 0;
    while i < y.len()
        invariant
            x@ == s@,
            y@ == prefix@,
            i <= y@.len() <= x@.len(),
            forall|j: int| 0 <= j < i ==> x@[j] == y@[j],
        decreases y@.len() - i,
    {
        if x[i] != y[i] {
            assert(s@.subrange(0, y@.len() as int)[i as int] != prefix@[i as int]);
            return false;
        }
        i += 1;
    }
    assert(prefix@ =~= s@.subrange(0, prefix@.len() as int));
    true
}

/// What follows `prefix` in `s`, or nothing where `s` does not start with it.
pub fn strip_prefix(s: &str, prefix: &str) -> (rest: Option<String>)
    ensures
        text_option(rest) == after_prefix(s@, prefix@),
{
    if starts_with(s, prefix) {
        let x = chars_of(s);
        let n = chars_of(prefix).len();
        Some(text_of(x.as_slice(), n, x.len()))
    } else {
        None
    }
}

/// A copy of a list of texts.
pub fn copy_list(list: &[String]) -> (out: Vec<String>)
    ensures
        out@ == list@,
{
    let mut out: Vec<String> = Vec::new();
    let mut i: usize = 0;
    while i < list.len()
        invariant
            i <= list@.len(),
            out@ == list@.take(i as int),
        decreases list@.len() - i,
    {
        out.push(list[i].clone());
        assert(list@.take(i as int).push(list@[i as int]) =~= list@.take(i + 1));
        i += 1;
    }
    assert(list@.take(list@.len() as int) =~= list@);
    out
}

/// Whether a text is in a list.
pub fn among(list: &[String], text: &str) -> (yes: bool)
    ensures
        yes == texts(list@).contains(text@),
{
    let ghost all = texts(list@);
    let mut i: usize = 0;
    while i < list.len()
        invariant
            i <= list@.len(),
            all == texts(list@),
            forall|j: int| 0 <= j < i ==> all[j] != text@,
        decreases list@.len() - i,
    {
        if same_text(list[i].as_str(), text) {
            assert(all[i as int] == text@);
            return true;
        }
        i += 1;
    }
    false
}

/// `s` without the white space at its start.
pub open spec fn trimmed_start(s: Seq<char>) -> Seq<char>
    decreases s.len(),
{
    if s.len() > 0 && white(s[0]) {
        trimmed_start(s.skip(1))
    } else {
        s
    }
}

/// `s` without the white space at its end.
pub open spec fn trimmed_end(s: Seq<char>) -> Seq<char>
    decreases s.len(),
{
    if s.len() > 0 && white(s.last()) {
        trimmed_end(s.drop_last())
    } else {
        s
    }
}

/// `s` without the white space around it.
pub open spec fn trimmed(s: Seq<char>) -> Seq<char> {
    trimmed_end(trimmed_start(s))
}

/// The text without the white space around it.
pub fn trim(s: &str) -> (out: String)
    ensures
        out@ == trimmed(s@),
{
    let x = chars_of(s);
    let mut from: usize = 0;
    assert(s@.skip(0) =~= s@);
    while from < x.len() && is_whitespace(x[from])
        invariant
            from <= x@.len(),
            x@ == s@,
            trimmed_start(s@) == trimmed_start(s@.skip(from as int)),
        decreases x@.len() - from,
    {
        assert(s@.skip(from as int).skip(1) =~= s@.skip(from + 1));
        from += 1;
    }
    let ghost kept = s@.skip(from as int);
    assert(trimmed_start(s@) == kept);
    let mut to: usize = x.len();
    assert(kept.take(to - from) =~= kept);
    while to > from && is_whitespace(x[to - 1])
        invariant
            from <= to <= x@.len(),
            x@ == s@,
            kept == s@.skip(from as int),
            trimmed_end(kept) == trimmed_end(kept.take(to - from)),
        decreases to,
    {
        assert(kept.take(to - from).last() == s@[to - 1]);
        assert(kept.take(to - from).drop_last() =~= kept.take(to - 1 - from));
        to -= 1;
    }
    assert(to > from ==> kept.take(to - from).last() == s@[to - 1]);
    assert(kept.take(to - from) =~= s@.subrange(from as int, to as int));
    text_of(x.as_slice(), from, to)
}

/// Whether a character is a decimal digit.
pub open spec fn digit(c: char) -> bool {
    '0' <= c <= '9'
}

/// The number that decimal digits stand for.
pub open spec fn number(digits: Seq<char>) -> nat
    decreases digits.len(),
{
    if digits.len() == 0 {
        0
    } else {
        number(digits.drop_last()) * 10 + (digits.last() as nat - '0' as nat) as nat
    }
}

/// `s` without a plus sign before it.
pub open spec fn without_plus(s: Seq<char>) -> Seq<char> {
    if s.len() > 0 && s[0] == '+' {
        s.skip(1)
    } else {
        s
    }
}

/// The number that a text stands for: decimal digits, with or without a plus
/// sign before them.
pub open spec fn parsed_number(s: Seq<char>) -> Option<nat> {
    let digits = without_plus(s);
    if digits.len() > 0 && forall|i: int| 0 <= i < digits.len() ==> digit(#[trigger] digits[i]) {
        Some(number(digits))
    } else {
        None
    }
}

/// Reads a number, where the text is one that fits.
pub fn parse_usize(s: &str) -> (parsed: Option<usize>)
    ensures
        match parsed {
            Some(n) => parsed_number(s@) == Some(n as nat),
            None => match parsed_number(s@) {
                Some(n) => n > usize::MAX,
                None => true,
            },
        },
{
    let x = chars_of(s);
    let start: usize = if x.len() > 0 && x[0] == '+' {
        1
    } else {
        0
    };
    let ghost digits = s@.skip(start as int);
    assert(digits =~= without_plus(s@));
    if start == x.len() {
        return None;
    }
    let mut total: usize = 0;
    let mut fits = true;
    let mut i: usize = start;
    while i < x.len()
        invariant
            start <= i <= x@.len(),
            x@ == s@,
            digits == s@.skip(start as int),
            digits == without_plus(s@),
            fits ==> total == number(digits.take(i - start)),
            !fits ==> number(digits.take(i - start)) > usize::MAX,
            forall|j: int| 0 <= j < i - start ==> digit(#[trigger] digits[j]),
        decreases x@.len() - i,
    {
        let c = x[i];
        assert(digits[i - start] == c);
        if c < '0' || '9' < c {
            return None;
        }
        let d = (c as u32 - '0' as u32) as usize;
        assert(digits.take(i + 1 - start).drop_last() =~= digits.take(i - start));
        assert(digits.take(i + 1 - start).last() == c);
        if fits {
            match total.checked_mul(10) {
                Some(tens) => match tens.checked_add(d) {
                    Some(sum) => {
                        total = sum;
                    },
                    None => {
                        fits = false;
                    },
                },
                None => {
                    fits = false;
                },
            }
        }
        i += 1;
    }
    assert(digits.take(i - start) =~= digits);
    if fits {
        Some(total)
    } else {
        None
    }
}

/// The decimal digit for a number below ten.
pub open spec fn digit_of(n: nat) -> char {
    ('0' as nat + n) as char
}

/// The decimal digits of a number.
pub open spec fn digits_of(n: nat) -> Seq<char>
    decreases n,
{
    if n < 10 {
        seq![digit_of(n)]
    } else {
        digits_of(n / 10).push(digit_of(n % 10))
    }
}

/// The decimal digits of a number.
pub fn print_usize(n: usize) -> (out: String)
    ensures
        out@ == digits_of(n as nat),
    decreases n,
{
    if n < 10 {
        let mut out = String::new();
        out.push((48u8 + n as u8) as char);
        assert(out@ =~= seq![digit_of(n as nat)]);
        out
    } else {
        let mut out = print_usize(n / 10);
        out.push((48u8 + (n % 10) as u8) as char);
        out
    }
}

/// Printing a number and reading it back gives the number.
pub proof fn law_numbers_come_back(n: nat)
    ensures
        parsed_number(digits_of(n)) == Some(n),
        digits_of(n).len() > 0,
        forall|i: int| 0 <= i < digits_of(n).len() ==> digit(#[trigger] digits_of(n)[i]),
    decreases n,
{
    digits_give_the_number(n);
    assert(digit(digits_of(n)[0]));
}

proof fn digits_give_the_number(n: nat)
    ensures
        number(digits_of(n)) == n,
        digits_of(n).len() > 0,
        forall|i: int| 0 <= i < digits_of(n).len() ==> digit(#[trigger] digits_of(n)[i]),
    decreases n,
{
    if n < 10 {
        assert(digits_of(n).drop_last() =~= Seq::<char>::empty());
        assert(number(Seq::<char>::empty()) == 0);
        assert(digits_of(n).last() == digit_of(n));
    } else {
        digits_give_the_number(n / 10);
        assert(digits_of(n).drop_last() =~= digits_of(n / 10));
        assert(digits_of(n).last() == digit_of(n % 10));
    }
}

/// The encoding of a text is the encodings of its parts.
pub proof fn encoding_of_parts(a: Seq<char>, b: Seq<char>)
    ensures
        encode_utf8(a + b) == encode_utf8(a) + encode_utf8(b),
    decreases a.len(),
{
    if a.len() == 0 {
        assert(a + b =~= b);
        assert(encode_utf8(a) =~= Seq::<u8>::empty());
    } else {
        encoding_of_parts(a.drop_first(), b);
        assert((a + b).drop_first() =~= a.drop_first() + b);
        assert((a + b)[0] == a[0]);
    }
}

/// A byte of ASCII stands for its own character and in no other one.
pub proof fn other_characters_lack_byte(c: char, b: u8)
    requires
        b < 0x80,
        c != b as char,
    ensures
        forall|i: int| 0 <= i < encode_utf8(seq![c]).len() ==> encode_utf8(seq![c])[i] != b,
{
    let n = c as u32;
    let bytes = encode_utf8(seq![c]);
    reveal_with_fuel(encode_utf8, 2);
    assert(seq![c].drop_first() =~= Seq::<char>::empty());
    assert(bytes =~= encode_scalar(n));
    assert(n != b as u32) by {
        if n == b as u32 {
            char_u32_cast(c, n);
        }
    }
    if has_width_1_encoding(n) {
        assert((n & 0x7F) as u8 != b) by (bit_vector)
            requires
                n != b as u32,
                n <= 0x7f,
        ;
    }
    assert(0xC0 | ((n >> 6) & 0x1F) as u8 != b) by (bit_vector)
        requires
            b < 0x80,
    ;
    assert(0xE0 | ((n >> 12) & 0x0F) as u8 != b) by (bit_vector)
        requires
            b < 0x80,
    ;
    assert(0xF0 | ((n >> 18) & 0x7) as u8 != b) by (bit_vector)
        requires
            b < 0x80,
    ;
    assert(0x80 | (n & 0x3F) as u8 != b) by (bit_vector)
        requires
            b < 0x80,
    ;
    assert(0x80 | ((n >> 6) & 0x3F) as u8 != b) by (bit_vector)
        requires
            b < 0x80,
    ;
    assert(0x80 | ((n >> 12) & 0x3F) as u8 != b) by (bit_vector)
        requires
            b < 0x80,
    ;
}

/// Whether `part` stands anywhere in `s`.
pub open spec fn holds(s: Seq<char>, part: Seq<char>) -> bool {
    exists|i: int| 0 <= i <= s.len() - part.len() && part.is_prefix_of(#[trigger] s.skip(i))
}

/// Whether `part` stands anywhere in `s`.
pub fn contains(s: &str, part: &str) -> (yes: bool)
    ensures
        yes == holds(s@, part@),
{
    let x = chars_of(s);
    let y = chars_of(part);
    if y.len() > x.len() {
        return false;
    }
    let last = x.len() - y.len();
    let mut i: usize = 0;
    loop
        invariant
            x@ == s@,
            y@ == part@,
            i <= last == x@.len() - y@.len(),
            forall|j: int| 0 <= j < i ==> !part@.is_prefix_of(#[trigger] s@.skip(j)),
        decreases last - i,
    {
        if stands_at(&x, &y, i) {
            return true;
        }
        if i == last {
            return false;
        }
        i += 1;
    }
}

/// Whether `y` stands in `x` at `i`.
fn stands_at(x: &Vec<char>, y: &Vec<char>, i: usize) -> (yes: bool)
    requires
        i <= x@.len() - y@.len(),
    ensures
        yes == y@.is_prefix_of(x@.skip(i as int)),
{
    let n = x.len();
    let mut k: usize = 0;
    while k < y.len()
        invariant
            n == x@.len(),
            k <= y@.len(),
            i <= n - y@.len(),
            forall|j: int| 0 <= j < k ==> x@[i + j] == y@[j],
        decreases y@.len() - k,
    {
        if x[i + k] != y[k] {
            assert(x@.skip(i as int).subrange(0, y@.len() as int)[k as int] != y@[k as int]);
            return false;
        }
        k += 1;
    }
    assert(y@ =~= x@.skip(i as int).subrange(0, y@.len() as int));
    true
}

/// How many characters stand before the first newline.
pub open spec fn line_len(s: Seq<char>) -> nat
    decreases s.len(),
{
    if s.len() == 0 || s[0] == '\n' {
        0
    } else {
        1 + line_len(s.skip(1))
    }
}

pub proof fn line_len_bound(s: Seq<char>)
    ensures
        line_len(s) <= s.len(),
    decreases s.len(),
{
    if s.len() > 0 && s[0] != '\n' {
        line_len_bound(s.skip(1));
    }
}

/// `s` without a carriage return at its end.
pub open spec fn without_return(s: Seq<char>) -> Seq<char> {
    if s.len() > 0 && s.last() == '\r' {
        s.drop_last()
    } else {
        s
    }
}

/// The lines of a text. A line ends with a newline, or a carriage return and a
/// newline, which are no part of it; behind the last of them stands no line.
pub open spec fn lines(s: Seq<char>) -> Seq<Seq<char>>
    decreases s.len(),
{
    proof {
        line_len_bound(s);
    }
    let n = line_len(s) as int;
    if s.len() == 0 {
        Seq::empty()
    } else if n >= s.len() {
        seq![s]
    } else {
        seq![without_return(s.take(n))] + lines(s.skip(n + 1))
    }
}

/// The lines of a text.
pub fn lines_of(s: &str) -> (out: Vec<String>)
    ensures
        texts(out@) == lines(s@),
{
    let x = chars_of(s);
    let mut out: Vec<String> = Vec::new();
    let mut from: usize = 0;
    assert(x@.skip(0) =~= x@);
    assert(texts(out@) + lines(x@) =~= lines(s@));
    while from < x.len()
        invariant
            from <= x@.len(),
            x@ == s@,
            texts(out@) + lines(x@.skip(from as int)) == lines(s@),
        decreases x@.len() - from,
    {
        let ghost rest = x@.skip(from as int);
        let ghost before = texts(out@);
        let mut to = from;
        assert(rest.skip(0) =~= rest);
        while to < x.len() && x[to] != '\n'
            invariant
                from <= to <= x@.len(),
                rest == x@.skip(from as int),
                line_len(rest) == to - from + line_len(rest.skip(to - from)),
            decreases x@.len() - to,
        {
            assert(rest.skip(to - from)[0] == x@[to as int]);
            assert(rest.skip(to - from).skip(1) =~= rest.skip(to + 1 - from));
            to += 1;
        }
        assert(to < x@.len() ==> rest.skip(to - from)[0] == x@[to as int]);
        assert(line_len(rest) == to - from);
        if to == x.len() {
            let line = text_of(x.as_slice(), from, to);
            assert(line@ =~= rest);
            out.push(line);
            assert(texts(out@) =~= before.push(rest));
            assert(x@.skip(to as int) =~= Seq::<char>::empty());
            assert(before + seq![rest] =~= texts(out@) + Seq::<Seq<char>>::empty());
            from = to;
        } else {
            let end = if to > from && x[to - 1] == '\r' {
                to - 1
            } else {
                to
            };
            let line = text_of(x.as_slice(), from, end);
            assert(rest.take(to - from) =~= x@.subrange(from as int, to as int));
            assert(to > from ==> rest.take(to - from).last() == x@[to - 1]);
            assert(line@ =~= without_return(rest.take(to - from)));
            let ghost first = line@;
            out.push(line);
            assert(texts(out@) =~= before.push(first));
            assert(rest.skip(to - from + 1) =~= x@.skip(to + 1));
            assert(before + (seq![first] + lines(x@.skip(to + 1))) =~= texts(out@) + lines(
                x@.skip(to + 1),
            ));
            from = to + 1;
        }
    }
    assert(x@.skip(from as int) =~= Seq::<char>::empty());
    assert(texts(out@) + lines(x@.skip(from as int)) =~= texts(out@));
    out
}

/// A prefix comes off exactly where the text starts with it, and what is left is
/// what stood behind it.
pub proof fn law_prefixes_come_off(prefix: Seq<char>, rest: Seq<char>, s: Seq<char>)
    ensures
        after_prefix(prefix + rest, prefix) == Some(rest),
        match after_prefix(s, prefix) {
            Some(left) => s == prefix + left,
            None => s != prefix + rest,
        },
{
    let whole = prefix + rest;
    assert(whole.subrange(0, prefix.len() as int) =~= prefix);
    assert(whole.skip(prefix.len() as int) =~= rest);
    if let Some(left) = after_prefix(s, prefix) {
        assert(s =~= s.subrange(0, prefix.len() as int) + s.skip(prefix.len() as int));
    }
}

proof fn white_start_goes(before: Seq<char>, rest: Seq<char>)
    requires
        forall|i: int| 0 <= i < before.len() ==> white(#[trigger] before[i]),
        rest.len() > 0 ==> !white(rest[0]),
    ensures
        trimmed_start(before + rest) == rest,
    decreases before.len(),
{
    let all = before + rest;
    if before.len() == 0 {
        assert(all =~= rest);
    } else {
        let fewer = before.skip(1);
        assert(white(before[0]));
        assert forall|i: int| 0 <= i < fewer.len() implies white(#[trigger] fewer[i]) by {
            assert(before[i + 1] == fewer[i]);
        }
        assert(all.skip(1) =~= fewer + rest);
        white_start_goes(fewer, rest);
    }
}

proof fn white_end_goes(rest: Seq<char>, after: Seq<char>)
    requires
        forall|i: int| 0 <= i < after.len() ==> white(#[trigger] after[i]),
        rest.len() > 0 ==> !white(rest.last()),
    ensures
        trimmed_end(rest + after) == rest,
    decreases after.len(),
{
    let all = rest + after;
    if after.len() == 0 {
        assert(all =~= rest);
    } else {
        let fewer = after.drop_last();
        assert(white(after[after.len() - 1]));
        assert forall|i: int| 0 <= i < fewer.len() implies white(#[trigger] fewer[i]) by {
            assert(after[i] == fewer[i]);
        }
        assert(all.drop_last() =~= rest + fewer);
        white_end_goes(rest, fewer);
    }
}

/// Trimming takes the white space around a text and nothing else. Spaces, tabs
/// and line ends are white space; what is printed in ASCII is not.
pub proof fn law_trimming_takes_the_white_space_around(
    before: Seq<char>,
    core: Seq<char>,
    after: Seq<char>,
    c: char,
)
    requires
        forall|i: int| 0 <= i < before.len() ==> white(#[trigger] before[i]),
        forall|i: int| 0 <= i < after.len() ==> white(#[trigger] after[i]),
        core.len() > 0,
        !white(core[0]),
        !white(core.last()),
    ensures
        trimmed(before + core + after) == core,
        trimmed(before) == Seq::<char>::empty(),
        white(' ') && white('\t') && white('\n') && white('\r'),
        '!' <= c <= '~' ==> !white(c),
{
    let rest = core + after;
    assert(before + core + after =~= before + rest);
    white_start_goes(before, rest);
    white_end_goes(core, after);
    let none = Seq::<char>::empty();
    assert(before + none =~= before);
    white_start_goes(before, none);
}

/// A number is read by its decimal digits, with or without a plus sign before
/// them, and printed without zeros before it. Any other text is no number.
pub proof fn law_numbers_are_decimal(digits: Seq<char>, d: char, s: Seq<char>, n: nat)
    requires
        digits.len() > 0,
        forall|i: int| 0 <= i < digits.len() ==> '0' <= #[trigger] digits[i] <= '9',
        '0' <= d <= '9',
    ensures
        parsed_number(seq![d]) == Some((d as nat - '0' as nat) as nat),
        parsed_number(digits) is Some,
        parsed_number(digits.push(d)) == Some(
            10 * parsed_number(digits)->Some_0 + (d as nat - '0' as nat) as nat,
        ),
        parsed_number(seq!['+'] + digits) == parsed_number(digits),
        parsed_number(s) is Some ==> {
            ||| s.len() > 0 && forall|i: int| 0 <= i < s.len() ==> '0' <= #[trigger] s[i] <= '9'
            ||| s.len() > 1 && s[0] == '+' && forall|i: int|
                1 <= i < s.len() ==> '0' <= #[trigger] s[i] <= '9'
        },
        n >= 10 ==> digits_of(n)[0] != '0',
{
    let one = seq![d];
    assert(one.drop_last() =~= Seq::<char>::empty());
    assert(number(Seq::<char>::empty()) == 0);
    assert(without_plus(one) == one);
    let longer = digits.push(d);
    assert('0' <= digits[0] <= '9');
    assert(longer[0] == digits[0]);
    assert(without_plus(digits) == digits && without_plus(longer) == longer);
    assert(longer.drop_last() =~= digits);
    assert forall|i: int| 0 <= i < digits.len() implies digit(#[trigger] digits[i]) by {
        assert('0' <= digits[i] <= '9');
    }
    assert forall|i: int| 0 <= i < longer.len() implies digit(#[trigger] longer[i]) by {
        if i < digits.len() {
            assert(longer[i] == digits[i]);
        }
    }
    assert((seq!['+'] + digits).skip(1) =~= digits);
    if parsed_number(s) is Some {
        let own = without_plus(s);
        if s[0] == '+' {
            assert forall|i: int| 1 <= i < s.len() implies '0' <= #[trigger] s[i] <= '9' by {
                assert(digit(own[i - 1]));
            }
        } else {
            assert forall|i: int| 0 <= i < s.len() implies '0' <= #[trigger] s[i] <= '9' by {
                assert(digit(own[i]));
            }
        }
    }
    if n >= 10 {
        no_leading_zero(n);
    }
}

proof fn no_leading_zero(n: nat)
    requires
        n > 0,
    ensures
        digits_of(n).len() > 0,
        digits_of(n)[0] != '0',
    decreases n,
{
    if n >= 10 {
        no_leading_zero(n / 10);
        assert(digits_of(n)[0] == digits_of(n / 10)[0]);
    }
}

proof fn line_len_is(line: Seq<char>, rest: Seq<char>)
    requires
        forall|i: int| 0 <= i < line.len() ==> #[trigger] line[i] != '\n',
    ensures
        line_len(line) == line.len(),
        line_len(line + seq!['\n'] + rest) == line.len(),
    decreases line.len(),
{
    let all = line + seq!['\n'] + rest;
    if line.len() == 0 {
        assert(all[0] == '\n');
    } else {
        let fewer = line.skip(1);
        assert(line[0] != '\n');
        assert(all[0] == line[0]);
        assert forall|i: int| 0 <= i < fewer.len() implies #[trigger] fewer[i] != '\n' by {
            assert(line[i + 1] == fewer[i]);
        }
        assert(all.skip(1) =~= fewer + seq!['\n'] + rest);
        line_len_is(fewer, rest);
    }
}

/// A newline ends a line, and so does a carriage return with a newline; neither
/// is part of the line. What stands behind the last newline is a line too, unless
/// it is empty.
pub proof fn law_newlines_end_lines(line: Seq<char>, rest: Seq<char>)
    requires
        forall|i: int| 0 <= i < line.len() ==> #[trigger] line[i] != '\n',
        line.len() > 0 ==> line.last() != '\r',
    ensures
        lines(line + seq!['\n'] + rest) == seq![line] + lines(rest),
        lines(line + seq!['\r', '\n'] + rest) == seq![line] + lines(rest),
        line.len() > 0 ==> lines(line) == seq![line],
        lines(Seq::empty()).len() == 0,
{
    let all = line + seq!['\n'] + rest;
    line_len_is(line, rest);
    assert(all.take(line.len() as int) =~= line);
    assert(all.skip(line.len() as int + 1) =~= rest);
    let longer = line.push('\r');
    assert forall|i: int| 0 <= i < longer.len() implies #[trigger] longer[i] != '\n' by {
        if i < line.len() {
            assert(longer[i] == line[i]);
        }
    }
    line_len_is(longer, rest);
    let other = longer + seq!['\n'] + rest;
    assert(line + seq!['\r', '\n'] + rest =~= other);
    assert(other.take(longer.len() as int) =~= longer);
    assert(other.skip(longer.len() as int + 1) =~= rest);
    assert(longer.drop_last() =~= line);
}

/// A text holds another exactly where that stands between two parts of it.
pub proof fn law_parts_stand_between_others(s: Seq<char>, part: Seq<char>)
    ensures
        holds(s, part) <==> exists|before: Seq<char>, after: Seq<char>|
            s == #[trigger] (before + part + after),
{
    if holds(s, part) {
        let i = choose|i: int|
            0 <= i <= s.len() - part.len() && part.is_prefix_of(#[trigger] s.skip(i));
        let before = s.take(i);
        let after = s.skip(i + part.len() as int);
        assert(part =~= s.skip(i).subrange(0, part.len() as int));
        assert(s =~= before + part + after) by {
            assert forall|k: int| 0 <= k < part.len() implies s[i + k] == part[k] by {
                assert(s.skip(i).subrange(0, part.len() as int)[k] == s[i + k]);
            }
        }
    }
    assert forall|before: Seq<char>, after: Seq<char>|
        s == #[trigger] (before + part + after) implies holds(s, part) by {
        let i = before.len() as int;
        assert(part =~= s.skip(i).subrange(0, part.len() as int));
        assert(part.is_prefix_of(s.skip(i)));
    }
}

/// A list of texts is seen text by text, and a text that may be missing is seen
/// where it is there, even where it is empty.
pub proof fn law_lists_are_seen_text_by_text(list: Seq<String>, i: int, s: String, t: &str)
    requires
        0 <= i < list.len(),
    ensures
        texts(list).len() == list.len(),
        texts(list)[i] == list[i]@,
        text_option(Some(s)) == Some(s@),
        text_option(None) is None,
        str_option(Some(t)) == Some(t@),
        str_option(None) is None,
{
}

} // verus!
