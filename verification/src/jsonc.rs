//! JSON with comments: what is left when comments and trailing commas go.

use vstd::prelude::*;

use crate::text::{chars_of, is_whitespace};

verus! {

/// How many characters of `s`, the text behind an opening quote, belong to the
/// string literal, its closing quote with them. A backslash takes the next
/// character along. An unclosed literal runs to the end.
pub open spec fn literal_tail(s: Seq<char>) -> nat
    decreases s.len(),
{
    if s.len() == 0 {
        0
    } else if s[0] == '\\' && s.len() > 1 {
        2 + literal_tail(s.skip(2))
    } else if s[0] == '"' {
        1
    } else {
        1 + literal_tail(s.skip(1))
    }
}

/// How many characters of `s`, the text behind `//`, stand on the same line.
pub open spec fn line_tail(s: Seq<char>) -> nat
    decreases s.len(),
{
    if s.len() == 0 || s[0] == '\n' {
        0
    } else {
        1 + line_tail(s.skip(1))
    }
}

/// How many characters of `s`, the text behind `/*`, belong to the comment, its
/// `*/` with them. A comment that is never closed stops before the last
/// character of the text.
pub open spec fn block_tail(s: Seq<char>) -> nat
    decreases s.len(),
{
    if s.len() < 2 {
        0
    } else if s[0] == '*' && s[1] == '/' {
        2
    } else {
        1 + block_tail(s.skip(1))
    }
}

pub proof fn literal_tail_bound(s: Seq<char>)
    ensures
        literal_tail(s) <= s.len(),
    decreases s.len(),
{
    if s.len() == 0 {
    } else if s[0] == '\\' && s.len() > 1 {
        literal_tail_bound(s.skip(2));
    } else if s[0] == '"' {
    } else {
        literal_tail_bound(s.skip(1));
    }
}

pub proof fn line_tail_bound(s: Seq<char>)
    ensures
        line_tail(s) <= s.len(),
    decreases s.len(),
{
    if s.len() == 0 || s[0] == '\n' {
    } else {
        line_tail_bound(s.skip(1));
    }
}

pub proof fn block_tail_bound(s: Seq<char>)
    ensures
        block_tail(s) <= s.len(),
    decreases s.len(),
{
    if s.len() < 2 {
    } else if s[0] == '*' && s[1] == '/' {
    } else {
        block_tail_bound(s.skip(1));
    }
}

/// `s` without its comments. String literals stay as they are.
pub open spec fn without_comments(s: Seq<char>) -> Seq<char>
    decreases s.len(),
{
    proof {
        if s.len() > 0 {
            literal_tail_bound(s.skip(1));
        }
        if s.len() > 1 {
            line_tail_bound(s.skip(2));
            block_tail_bound(s.skip(2));
        }
    }
    if s.len() == 0 {
        s
    } else if s[0] == '"' {
        let n = 1 + literal_tail(s.skip(1)) as int;
        s.take(n) + without_comments(s.skip(n))
    } else if s[0] == '/' && s.len() > 1 && s[1] == '/' {
        without_comments(s.skip(2 + line_tail(s.skip(2)) as int))
    } else if s[0] == '/' && s.len() > 1 && s[1] == '*' {
        without_comments(s.skip(2 + block_tail(s.skip(2)) as int))
    } else {
        seq![s[0]] + without_comments(s.skip(1))
    }
}

/// Whether the first character of `s` that is not white space is `}` or `]`.
pub open spec fn closes_next(s: Seq<char>) -> bool
    decreases s.len(),
{
    if s.len() == 0 {
        false
    } else if crate::text::white(s[0]) {
        closes_next(s.skip(1))
    } else {
        s[0] == '}' || s[0] == ']'
    }
}

/// `s` without the commas that stand before a closing bracket. String literals
/// stay as they are.
pub open spec fn without_trailing_commas(s: Seq<char>) -> Seq<char>
    decreases s.len(),
{
    proof {
        if s.len() > 0 {
            literal_tail_bound(s.skip(1));
        }
    }
    if s.len() == 0 {
        s
    } else if s[0] == '"' {
        let n = 1 + literal_tail(s.skip(1)) as int;
        s.take(n) + without_trailing_commas(s.skip(n))
    } else if s[0] == ',' && closes_next(s.skip(1)) {
        without_trailing_commas(s.skip(1))
    } else {
        seq![s[0]] + without_trailing_commas(s.skip(1))
    }
}

/// Finds the end of the string literal whose opening quote stands before `start`.
fn literal_end(chars: &Vec<char>, start: usize) -> (end: usize)
    requires
        start <= chars@.len(),
    ensures
        start <= end <= chars@.len(),
        end == start + literal_tail(chars@.skip(start as int)),
{
    let len = chars.len();
    let mut i = start;
    while i < len
        invariant_except_break
            start + literal_tail(chars@.skip(start as int)) == i + literal_tail(
                chars@.skip(i as int),
            ),
        invariant
            start <= i <= len,
            len == chars@.len(),
        ensures
            i == start + literal_tail(chars@.skip(start as int)),
        decreases len - i,
    {
        let ghost rest = chars@.skip(i as int);
        assert(i + 1 < len ==> rest.skip(2) =~= chars@.skip(i + 2));
        assert(rest.skip(1) =~= chars@.skip(i + 1));
        if chars[i] == '\\' && i + 1 < len {
            i += 2;
        } else if chars[i] == '"' {
            i += 1;
            break ;
        } else {
            i += 1;
        }
    }
    i
}

/// Copies `chars[from..to]` to the end of `out`.
fn copy_range(out: &mut String, chars: &Vec<char>, from: usize, to: usize)
    requires
        from <= to <= chars@.len(),
    ensures
        final(out)@ == old(out)@ + chars@.subrange(from as int, to as int),
{
    let mut i = from;
    while i < to
        invariant
            from <= i <= to <= chars@.len(),
            out@ == old(out)@ + chars@.subrange(from as int, i as int),
        decreases to - i,
    {
        out.push(chars[i]);
        assert(chars@.subrange(from as int, i as int).push(chars@[i as int])
            =~= chars@.subrange(from as int, i + 1));
        i += 1;
    }
}

/// Strips comments and trailing commas, which JSON does not know.
///
/// Handles `//` line comments and `/* */` block comments. Does not strip inside
/// strings.
pub fn strip_jsonc_comments(input: &str) -> (out: String)
    ensures
        out@ == without_trailing_commas(without_comments(input@)),
{
    let chars: Vec<char> = chars_of(input);
    let len = chars.len();
    let mut result = String::new();
    let mut i: usize = 0;
    assert(chars@.skip(0) =~= chars@);
    while i < len
        invariant
            i <= len,
            len == chars@.len(),
            chars@ == input@,
            result@ + without_comments(chars@.skip(i as int)) == without_comments(input@),
        decreases len - i,
    {
        let ghost rest = chars@.skip(i as int);
        let ghost before = result@;
        assert(rest.skip(1) =~= chars@.skip(i + 1));
        assert(i + 1 < len ==> rest.skip(2) =~= chars@.skip(i + 2));
        if chars[i] == '"' {
            let end = literal_end(&chars, i + 1);
            copy_range(&mut result, &chars, i, end);
            assert(rest.take(end - i) =~= chars@.subrange(i as int, end as int));
            assert(rest.skip(end - i) =~= chars@.skip(end as int));
            assert(before + (rest.take(end - i) + without_comments(rest.skip(end - i))) =~= before
                + rest.take(end - i) + without_comments(rest.skip(end - i)));
            i = end;
        } else if chars[i] == '/' && i + 1 < len && chars[i + 1] == '/' {
            let start = i + 2;
            let mut j = start;
            while j < len && chars[j] != '\n'
                invariant
                    start <= j <= len,
                    len == chars@.len(),
                    start + line_tail(chars@.skip(start as int)) == j + line_tail(
                        chars@.skip(j as int),
                    ),
                decreases len - j,
            {
                assert(chars@.skip(j as int).skip(1) =~= chars@.skip(j + 1));
                j += 1;
            }
            assert(rest.skip(j - i) =~= chars@.skip(j as int));
            i = j;
        } else if chars[i] == '/' && i + 1 < len && chars[i + 1] == '*' {
            let start = i + 2;
            let mut j = start;
            while len - j > 1 && !(chars[j] == '*' && chars[j + 1] == '/')
                invariant
                    start <= j <= len,
                    len == chars@.len(),
                    start + block_tail(chars@.skip(start as int)) == j + block_tail(
                        chars@.skip(j as int),
                    ),
                decreases len - j,
            {
                assert(chars@.skip(j as int).skip(1) =~= chars@.skip(j + 1));
                j += 1;
            }
            if len - j > 1 {
                j += 2;
            }
            assert(rest.skip(j - i) =~= chars@.skip(j as int));
            i = j;
        } else {
            result.push(chars[i]);
            assert(before + (seq![rest[0]] + without_comments(rest.skip(1))) =~= before.push(
                rest[0],
            ) + without_comments(rest.skip(1)));
            i += 1;
        }
    }
    assert(result@ + without_comments(chars@.skip(i as int)) =~= result@);
    strip_trailing_commas(result.as_str())
}

/// Removes the commas before `}` and `]`.
pub fn strip_trailing_commas(input: &str) -> (out: String)
    ensures
        out@ == without_trailing_commas(input@),
{
    let chars: Vec<char> = chars_of(input);
    let len = chars.len();
    let mut result = String::new();
    let mut i: usize = 0;
    assert(chars@.skip(0) =~= chars@);
    while i < len
        invariant
            i <= len,
            len == chars@.len(),
            chars@ == input@,
            result@ + without_trailing_commas(chars@.skip(i as int)) == without_trailing_commas(
                input@,
            ),
        decreases len - i,
    {
        let ghost rest = chars@.skip(i as int);
        let ghost before = result@;
        assert(rest.skip(1) =~= chars@.skip(i + 1));
        if chars[i] == '"' {
            let end = literal_end(&chars, i + 1);
            copy_range(&mut result, &chars, i, end);
            assert(rest.take(end - i) =~= chars@.subrange(i as int, end as int));
            assert(rest.skip(end - i) =~= chars@.skip(end as int));
            assert(before + (rest.take(end - i) + without_trailing_commas(rest.skip(end - i)))
                =~= before + rest.take(end - i) + without_trailing_commas(rest.skip(end - i)));
            i = end;
        } else if chars[i] == ',' && closing_follows(&chars, i + 1) {
            i += 1;
        } else {
            result.push(chars[i]);
            assert(before + (seq![rest[0]] + without_trailing_commas(rest.skip(1)))
                =~= before.push(rest[0]) + without_trailing_commas(rest.skip(1)));
            i += 1;
        }
    }
    assert(result@ + without_trailing_commas(chars@.skip(i as int)) =~= result@);
    result
}

/// Whether a closing bracket comes next, white space aside.
fn closing_follows(chars: &Vec<char>, start: usize) -> (yes: bool)
    requires
        start <= chars@.len(),
    ensures
        yes == closes_next(chars@.skip(start as int)),
{
    let len = chars.len();
    let mut j = start;
    while j < len && is_whitespace(chars[j])
        invariant
            start <= j <= len,
            len == chars@.len(),
            closes_next(chars@.skip(start as int)) == closes_next(chars@.skip(j as int)),
        decreases len - j,
    {
        assert(chars@.skip(j as int).skip(1) =~= chars@.skip(j + 1));
        j += 1;
    }
    j < len && (chars[j] == '}' || chars[j] == ']')
}

/// Whether `s` is the inside of one string literal up to its closing quote, and
/// nothing more.
pub open spec fn literal_body(s: Seq<char>) -> bool
    decreases s.len(),
{
    if s.len() == 0 {
        false
    } else if s[0] == '\\' && s.len() > 1 {
        literal_body(s.skip(2))
    } else if s[0] == '"' {
        s.len() == 1
    } else {
        literal_body(s.skip(1))
    }
}

proof fn literal_body_ends(body: Seq<char>, rest: Seq<char>)
    requires
        literal_body(body),
    ensures
        literal_tail(body + rest) == body.len(),
    decreases body.len(),
{
    let all = body + rest;
    if body[0] == '\\' && body.len() > 1 {
        assert(all.skip(2) =~= body.skip(2) + rest);
        literal_body_ends(body.skip(2), rest);
    } else if body[0] == '"' {
    } else {
        assert(body[0] != '\\' || body.len() > 1) by {
            if body[0] == '\\' && body.len() == 1 {
                assert(!literal_body(body.skip(1)));
            }
        }
        assert(all.skip(1) =~= body.skip(1) + rest);
        literal_body_ends(body.skip(1), rest);
    }
}

/// Nothing inside a string literal is taken for a comment or a trailing comma:
/// the literal stays and the text behind it is stripped on its own.
pub proof fn law_literals_are_kept(body: Seq<char>, rest: Seq<char>)
    requires
        literal_body(body),
    ensures
        without_comments(seq!['"'] + body + rest) == seq!['"'] + body + without_comments(rest),
        without_trailing_commas(seq!['"'] + body + rest) == seq!['"'] + body
            + without_trailing_commas(rest),
{
    let all = seq!['"'] + body + rest;
    let n = 1 + body.len() as int;
    assert(all.skip(1) =~= body + rest);
    literal_body_ends(body, rest);
    assert(all.take(n) =~= seq!['"'] + body);
    assert(all.skip(n) =~= rest);
}

/// Whether `s` is free of what plain JSON does not know: outside string literals
/// it opens no comment and has no comma before a closing bracket.
pub open spec fn plain_json(s: Seq<char>) -> bool
    decreases s.len(),
{
    proof {
        if s.len() > 0 {
            literal_tail_bound(s.skip(1));
        }
    }
    if s.len() == 0 {
        true
    } else if s[0] == '"' {
        plain_json(s.skip(1 + literal_tail(s.skip(1)) as int))
    } else {
        &&& !(s[0] == '/' && s.len() > 1 && (s[1] == '/' || s[1] == '*'))
        &&& !(s[0] == ',' && closes_next(s.skip(1)))
        &&& plain_json(s.skip(1))
    }
}

/// Stripping is safe on plain JSON: it changes nothing there.
pub proof fn law_plain_json_is_unchanged(s: Seq<char>)
    requires
        plain_json(s),
    ensures
        without_comments(s) == s,
        without_trailing_commas(s) == s,
        without_trailing_commas(without_comments(s)) == s,
    decreases s.len(),
{
    if s.len() == 0 {
    } else if s[0] == '"' {
        literal_tail_bound(s.skip(1));
        let n = 1 + literal_tail(s.skip(1)) as int;
        law_plain_json_is_unchanged(s.skip(n));
        assert(s.take(n) + s.skip(n) =~= s);
    } else {
        law_plain_json_is_unchanged(s.skip(1));
        assert(seq![s[0]] + s.skip(1) =~= s);
    }
}

proof fn line_tail_of(comment: Seq<char>, rest: Seq<char>)
    requires
        !comment.contains('\n'),
        rest.len() == 0 || rest[0] == '\n',
    ensures
        line_tail(comment + rest) == comment.len(),
    decreases comment.len(),
{
    if comment.len() > 0 {
        assert((comment + rest).skip(1) =~= comment.skip(1) + rest);
        assert(!comment.skip(1).contains('\n')) by {
            if comment.skip(1).contains('\n') {
                let i = choose|i: int| 0 <= i < comment.len() - 1 && comment.skip(1)[i] == '\n';
                assert(comment[i + 1] == '\n');
            }
        }
        assert(comment[0] != '\n');
        line_tail_of(comment.skip(1), rest);
    } else {
        assert(comment + rest =~= rest);
    }
}

/// A line comment goes, up to the end of its line; the line end stays.
pub proof fn law_line_comment_goes(comment: Seq<char>, rest: Seq<char>)
    requires
        !comment.contains('\n'),
        rest.len() == 0 || rest[0] == '\n',
    ensures
        without_comments(seq!['/', '/'] + comment + rest) == without_comments(rest),
{
    let all = seq!['/', '/'] + comment + rest;
    assert(all.skip(2) =~= comment + rest);
    line_tail_of(comment, rest);
    assert(all.skip(2 + comment.len() as int) =~= rest);
}

/// Whether `*/` stands nowhere in `comment`.
pub open spec fn no_block_end(comment: Seq<char>) -> bool {
    forall|i: int|
        0 <= i < comment.len() - 1 ==> !(#[trigger] comment[i] == '*' && comment[i + 1] == '/')
}

proof fn block_tail_of(comment: Seq<char>, rest: Seq<char>)
    requires
        no_block_end(comment),
    ensures
        block_tail(comment + seq!['*', '/'] + rest) == comment.len() + 2,
    decreases comment.len(),
{
    let all = comment + seq!['*', '/'] + rest;
    if comment.len() > 0 {
        assert(all.skip(1) =~= comment.skip(1) + seq!['*', '/'] + rest);
        assert(no_block_end(comment.skip(1))) by {
            assert forall|i: int| 0 <= i < comment.skip(1).len() - 1 implies !(
            #[trigger] comment.skip(1)[i] == '*' && comment.skip(1)[i + 1] == '/') by {
                assert(comment[i + 1] == comment.skip(1)[i]);
            }
        }
        assert(!(all[0] == '*' && all[1] == '/')) by {
            if comment.len() > 1 {
                assert(comment[0] == all[0] && comment[1] == all[1]);
            }
        }
        block_tail_of(comment.skip(1), rest);
    }
}

/// A block comment goes as a whole.
pub proof fn law_block_comment_goes(comment: Seq<char>, rest: Seq<char>)
    requires
        no_block_end(comment),
    ensures
        without_comments(seq!['/', '*'] + comment + seq!['*', '/'] + rest) == without_comments(
            rest,
        ),
{
    let all = seq!['/', '*'] + comment + seq!['*', '/'] + rest;
    assert(all.skip(2) =~= comment + seq!['*', '/'] + rest);
    block_tail_of(comment, rest);
    assert(all.skip(4 + comment.len() as int) =~= rest);
}

/// White space before a text stays, and does not hide what comes next.
pub proof fn space_is_kept(space: Seq<char>, rest: Seq<char>)
    requires
        forall|i: int| 0 <= i < space.len() ==> crate::text::white(#[trigger] space[i]),
    ensures
        without_trailing_commas(space + rest) == space + without_trailing_commas(rest),
        closes_next(space + rest) == closes_next(rest),
    decreases space.len(),
{
    let all = space + rest;
    if space.len() > 0 {
        assert(crate::text::white(space[0]));
        assert(all.skip(1) =~= space.skip(1) + rest);
        assert forall|i: int| 0 <= i < space.skip(1).len() implies crate::text::white(
            #[trigger] space.skip(1)[i],
        ) by {
            assert(space[i + 1] == space.skip(1)[i]);
        }
        space_is_kept(space.skip(1), rest);
        assert(seq![space[0]] + (space.skip(1) + without_trailing_commas(rest)) =~= space
            + without_trailing_commas(rest));
    } else {
        assert(all =~= rest);
        assert(space + without_trailing_commas(rest) =~= without_trailing_commas(rest));
    }
}

/// A comma before a closing bracket goes; the white space between them and the
/// bracket stay.
pub proof fn law_trailing_comma_goes(space: Seq<char>, bracket: char, rest: Seq<char>)
    requires
        forall|i: int| 0 <= i < space.len() ==> crate::text::white(#[trigger] space[i]),
        bracket == '}' || bracket == ']',
    ensures
        without_trailing_commas(seq![','] + space + seq![bracket] + rest) == space + seq![bracket]
            + without_trailing_commas(rest),
{
    let all = seq![','] + space + seq![bracket] + rest;
    let close = seq![bracket] + rest;
    assert(all.skip(1) =~= space + close);
    space_is_kept(space, close);
    assert(close.skip(1) =~= rest);
    assert(space + (seq![bracket] + without_trailing_commas(rest)) =~= space + seq![bracket]
        + without_trailing_commas(rest));
}

/// Every other character stays where it is, and what follows it is stripped on
/// its own: one that opens neither a literal nor a comment, and one that is no
/// comma.
pub proof fn law_other_characters_stay(c: char, rest: Seq<char>)
    requires
        c != '"',
    ensures
        c != '/' || rest.len() == 0 || (rest[0] != '/' && rest[0] != '*') ==> without_comments(
            seq![c] + rest,
        ) == seq![c] + without_comments(rest),
        c != ',' ==> without_trailing_commas(seq![c] + rest) == seq![c] + without_trailing_commas(
            rest,
        ),
        without_comments(Seq::empty()).len() == 0,
        without_trailing_commas(Seq::empty()).len() == 0,
{
    let all = seq![c] + rest;
    assert(all.skip(1) =~= rest);
    assert(rest.len() > 0 ==> all[1] == rest[0]);
}

proof fn closing_is_seen_through_space(space: Seq<char>, rest: Seq<char>)
    requires
        forall|i: int| 0 <= i < space.len() ==> crate::text::white(#[trigger] space[i]),
        rest.len() > 0 ==> !crate::text::white(rest[0]),
    ensures
        closes_next(space + rest) == (rest.len() > 0 && (rest[0] == '}' || rest[0] == ']')),
    decreases space.len(),
{
    let all = space + rest;
    if space.len() == 0 {
        assert(all =~= rest);
    } else {
        let fewer = space.skip(1);
        assert(crate::text::white(space[0]));
        assert forall|i: int| 0 <= i < fewer.len() implies crate::text::white(
            #[trigger] fewer[i],
        ) by {
            assert(space[i + 1] == fewer[i]);
        }
        assert(all.skip(1) =~= fewer + rest);
        closing_is_seen_through_space(fewer, rest);
    }
}

/// A comma before anything but a closing bracket stays, and so does one that
/// nothing but white space follows.
pub proof fn law_other_commas_stay(space: Seq<char>, rest: Seq<char>)
    requires
        forall|i: int| 0 <= i < space.len() ==> crate::text::white(#[trigger] space[i]),
        rest.len() > 0 ==> {
            &&& !crate::text::white(rest[0])
            &&& rest[0] != '}'
            &&& rest[0] != ']'
        },
    ensures
        without_trailing_commas(seq![','] + (space + rest)) == seq![','] + without_trailing_commas(
            space + rest,
        ),
{
    closing_is_seen_through_space(space, rest);
    assert((seq![','] + (space + rest)).skip(1) =~= space + rest);
}

proof fn open_literals_run_on(body: Seq<char>)
    requires
        !body.contains('"'),
    ensures
        literal_tail(body) == body.len(),
    decreases body.len(),
{
    if body.len() > 0 {
        assert(body.contains(body[0]));
        let rest = body.skip(1);
        assert(!rest.contains('"')) by {
            if rest.contains('"') {
                let k = choose|k: int| 0 <= k < rest.len() && rest[k] == '"';
                assert(body[k + 1] == '"');
            }
        }
        open_literals_run_on(rest);
        if body.len() > 1 {
            let later = body.skip(2);
            assert(!later.contains('"')) by {
                if later.contains('"') {
                    let k = choose|k: int| 0 <= k < later.len() && later[k] == '"';
                    assert(body[k + 2] == '"');
                }
            }
            open_literals_run_on(later);
        }
    }
}

/// A literal that is never closed runs to the end of the text and stays.
pub proof fn law_open_literals_stay(body: Seq<char>)
    requires
        !body.contains('"'),
    ensures
        without_comments(seq!['"'] + body) == seq!['"'] + body,
        without_trailing_commas(seq!['"'] + body) == seq!['"'] + body,
{
    let all = seq!['"'] + body;
    let n = 1 + body.len() as int;
    let none = Seq::<char>::empty();
    open_literals_run_on(body);
    assert(all.skip(1) =~= body);
    assert(all.take(n) =~= all);
    assert(all.skip(n) =~= none);
    assert(all + none =~= all);
    assert(without_comments(none) =~= none);
    assert(without_trailing_commas(none) =~= none);
}

proof fn open_comments_run_on(comment: Seq<char>)
    requires
        no_block_end(comment),
        comment.len() > 0,
    ensures
        block_tail(comment) == comment.len() - 1,
    decreases comment.len(),
{
    if comment.len() > 1 {
        let rest = comment.skip(1);
        assert(no_block_end(rest)) by {
            assert forall|i: int| 0 <= i < rest.len() - 1 implies !(#[trigger] rest[i] == '*'
                && rest[i + 1] == '/') by {
                assert(comment[i + 1] == rest[i]);
            }
        }
        assert(!(comment[0] == '*' && comment[1] == '/'));
        open_comments_run_on(rest);
    }
}

/// A block comment that is never closed goes, but for the last character of the
/// text.
pub proof fn law_open_comments_go_up_to_the_end(comment: Seq<char>)
    requires
        no_block_end(comment),
        comment.len() > 0,
    ensures
        without_comments(seq!['/', '*'] + comment) == seq![comment.last()],
{
    let all = seq!['/', '*'] + comment;
    let n = comment.len() as int;
    let last = seq![comment.last()];
    open_comments_run_on(comment);
    assert(all.skip(2) =~= comment);
    assert(all.skip(2 + (n - 1)) =~= last);
    let none = Seq::<char>::empty();
    assert(without_comments(none) =~= none);
    assert(last.skip(1) =~= none);
    assert(last.take(1) =~= last);
    assert(literal_tail(last.skip(1)) == 0);
    assert(last + none =~= last);
    assert(without_comments(last) =~= last);
}

} // verus!
