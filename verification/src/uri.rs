//! Document URIs: the paths they name, and the extension an editor's language
//! asks for.

use vstd::prelude::*;
use vstd::utf8::*;

use crate::path::{self, extension};
use crate::text::{self, copy_of, same_text, strip_prefix, text_from};

verus! {

/// The extension (without dot) of files in the language that editors call
/// `language_id`.
pub open spec fn extension_for(language_id: Seq<char>) -> Option<Seq<char>> {
    if language_id == "go"@ {
        Some("go"@)
    } else if language_id == "lua"@ {
        Some("lua"@)
    } else if language_id == "json"@ {
        Some("json"@)
    } else if language_id == "jsonc"@ {
        Some("jsonc"@)
    } else if language_id == "yaml"@ {
        Some("yaml"@)
    } else if language_id == "markdown"@ {
        Some("md"@)
    } else if language_id == "python"@ {
        Some("py"@)
    } else if language_id == "rust"@ {
        Some("rs"@)
    } else if language_id == "typescript"@ {
        Some("ts"@)
    } else if language_id == "typescriptreact"@ {
        Some("tsx"@)
    } else if language_id == "javascript"@ {
        Some("js"@)
    } else if language_id == "javascriptreact"@ {
        Some("jsx"@)
    } else if language_id == "sh"@ || language_id == "bash"@ || language_id == "zsh"@ {
        Some("sh"@)
    } else if language_id == "toml"@ {
        Some("toml"@)
    } else if language_id == "css"@ {
        Some("css"@)
    } else if language_id == "html"@ {
        Some("html"@)
    } else if language_id == "sql"@ {
        Some("sql"@)
    } else if language_id == "dockerfile"@ {
        Some("Dockerfile"@)
    } else if language_id == "graphql"@ {
        Some("graphql"@)
    } else {
        None
    }
}

/// Maps an LSP `languageId` to a file extension (without dot), so that dprint
/// can match files by extension even when the original file has no extension or
/// a different one.
pub fn language_ext(language_id: &str) -> (ext: Option<&'static str>)
    ensures
        text::str_option(ext) == extension_for(language_id@),
{
    if same_text(language_id, "go") {
        Some("go")
    } else if same_text(language_id, "lua") {
        Some("lua")
    } else if same_text(language_id, "json") {
        Some("json")
    } else if same_text(language_id, "jsonc") {
        Some("jsonc")
    } else if same_text(language_id, "yaml") {
        Some("yaml")
    } else if same_text(language_id, "markdown") {
        Some("md")
    } else if same_text(language_id, "python") {
        Some("py")
    } else if same_text(language_id, "rust") {
        Some("rs")
    } else if same_text(language_id, "typescript") {
        Some("ts")
    } else if same_text(language_id, "typescriptreact") {
        Some("tsx")
    } else if same_text(language_id, "javascript") {
        Some("js")
    } else if same_text(language_id, "javascriptreact") {
        Some("jsx")
    } else if same_text(language_id, "sh") || same_text(language_id, "bash") || same_text(
        language_id,
        "zsh",
    ) {
        Some("sh")
    } else if same_text(language_id, "toml") {
        Some("toml")
    } else if same_text(language_id, "css") {
        Some("css")
    } else if same_text(language_id, "html") {
        Some("html")
    } else if same_text(language_id, "sql") {
        Some("sql")
    } else if same_text(language_id, "dockerfile") {
        Some("Dockerfile")
    } else if same_text(language_id, "graphql") {
        Some("graphql")
    } else {
        None
    }
}

/// The value of a hexadecimal digit.
pub open spec fn hex_value(b: u8) -> Option<u8> {
    if 0x30 <= b <= 0x39 {
        Some((b - 0x30) as u8)
    } else if 0x41 <= b <= 0x46 {
        Some((b - 0x41 + 10) as u8)
    } else if 0x61 <= b <= 0x66 {
        Some((b - 0x61 + 10) as u8)
    } else {
        None
    }
}

/// The byte that two hexadecimal digits behind a percent sign stand for.
pub open spec fn escape_value(high: u8, low: u8) -> Option<u8> {
    match (hex_value(high), hex_value(low)) {
        (Some(h), Some(l)) => Some((h * 16 + l) as u8),
        _ => None,
    }
}

/// Bytes with each escape replaced by the byte that it stands for.
pub open spec fn decoded_bytes(bytes: Seq<u8>) -> Seq<u8>
    decreases bytes.len(),
{
    if bytes.len() == 0 {
        Seq::empty()
    } else if bytes[0] == 0x25 && bytes.len() > 2 && escape_value(bytes[1], bytes[2]) is Some {
        seq![escape_value(bytes[1], bytes[2])->0] + decoded_bytes(bytes.skip(3))
    } else {
        seq![bytes[0]] + decoded_bytes(bytes.skip(1))
    }
}

/// The text of bytes: what they encode, where they are UTF-8. Bytes that encode
/// no text become the characters with their numbers.
pub open spec fn text_of_bytes(bytes: Seq<u8>) -> Seq<char> {
    if valid_utf8(bytes) {
        decode_utf8(bytes)
    } else {
        bytes.map_values(|b: u8| b as char)
    }
}

/// Text with its percent escapes decoded.
pub open spec fn decoded(text: Seq<char>) -> Seq<char> {
    text_of_bytes(decoded_bytes(encode_utf8(text)))
}

/// The path that a URI names.
pub open spec fn path_of_uri(uri: Seq<char>) -> Seq<char> {
    match text::after_prefix(uri, "file://"@) {
        Some(rest) => decoded(rest),
        None => uri,
    }
}

/// The URI to send in place of `uri` when the editor says it is in
/// `language_id`, where another one is needed.
pub open spec fn rewritten(uri: Seq<char>, language_id: Seq<char>) -> Option<Seq<char>> {
    match extension_for(language_id) {
        Some(ext) => if path::extension_of(path_of_uri(uri)) == Some(ext) {
            None
        } else {
            Some(uri + seq!['.'] + ext)
        },
        None => None,
    }
}

fn hex_digit(b: u8) -> (v: Option<u8>)
    ensures
        v == hex_value(b),
        v matches Some(n) ==> n < 16,
{
    if 0x30 <= b && b <= 0x39 {
        Some(b - 0x30)
    } else if 0x41 <= b && b <= 0x46 {
        Some(b - 0x41 + 10)
    } else if 0x61 <= b && b <= 0x66 {
        Some(b - 0x61 + 10)
    } else {
        None
    }
}

fn escape_of(high: u8, low: u8) -> (v: Option<u8>)
    ensures
        v == escape_value(high, low),
{
    match (hex_digit(high), hex_digit(low)) {
        (Some(h), Some(l)) => Some(h * 16 + l),
        _ => None,
    }
}

/// The bytes of `input`, escapes replaced.
fn decode_bytes(input: &str) -> (out: Vec<u8>)
    ensures
        out@ == decoded_bytes(encode_utf8(input@)),
{
    let bytes = input.as_bytes();
    let mut out: Vec<u8> = Vec::new();
    let mut i: usize = 0;
    assert(bytes@.skip(0) =~= bytes@);
    assert(out@ + decoded_bytes(bytes@) =~= decoded_bytes(bytes@));
    while i < bytes.len()
        invariant
            i <= bytes@.len(),
            bytes@ == encode_utf8(input@),
            out@ + decoded_bytes(bytes@.skip(i as int)) == decoded_bytes(encode_utf8(input@)),
        decreases bytes@.len() - i,
    {
        let ghost rest = bytes@.skip(i as int);
        let ghost before = out@;
        assert(rest.skip(1) =~= bytes@.skip(i + 1));
        if bytes[i] == 0x25 && bytes.len() - i > 2 {
            assert(rest.skip(3) =~= bytes@.skip(i + 3));
            if let Some(byte) = escape_of(bytes[i + 1], bytes[i + 2]) {
                out.push(byte);
                assert(before + (seq![byte] + decoded_bytes(rest.skip(3))) =~= out@
                    + decoded_bytes(rest.skip(3)));
                i += 3;
                continue ;
            }
        }
        out.push(bytes[i]);
        assert(before + (seq![rest[0]] + decoded_bytes(rest.skip(1))) =~= out@ + decoded_bytes(
            rest.skip(1),
        ));
        i += 1;
    }
    assert(out@ + decoded_bytes(bytes@.skip(i as int)) =~= out@);
    out
}

/// Percent-decoding for file URIs: the escaped bytes are those of UTF-8 text.
pub fn percent_decode(input: &str) -> (out: String)
    ensures
        out@ == decoded(input@),
{
    let bytes = decode_bytes(input);
    let mut copy: Vec<u8> = Vec::new();
    let mut numbered = String::new();
    let ghost chars = bytes@.map_values(|b: u8| b as char);
    let mut i: usize = 0;
    assert(numbered@ =~= chars.take(0));
    while i < bytes.len()
        invariant
            i <= bytes@.len(),
            chars == bytes@.map_values(|b: u8| b as char),
            copy@ == bytes@.take(i as int),
            numbered@ == chars.take(i as int),
        decreases bytes@.len() - i,
    {
        copy.push(bytes[i]);
        numbered.push(bytes[i] as char);
        assert(copy@ =~= bytes@.take(i + 1));
        assert(numbered@ =~= chars.take(i + 1));
        i += 1;
    }
    assert(copy@ =~= bytes@);
    assert(numbered@ =~= chars);
    match text_from(copy) {
        Some(text) => text,
        None => numbered,
    }
}

/// Converts a `file://` URI to a filesystem path.
pub fn uri_to_path(uri: &str) -> (path: String)
    ensures
        path@ == path_of_uri(uri@),
{
    match strip_prefix(uri, "file://") {
        Some(rest) => percent_decode(rest.as_str()),
        None => copy_of(uri),
    }
}

/// Rewrites a file URI to have the extension of its language.
///
/// If the file already has the right extension, or the language is unknown, no
/// rewrite is needed. Otherwise `.{ext}` is appended, so that dprint can match
/// the file.
pub fn rewrite_uri(uri: &str, language_id: &str) -> (new_uri: Option<String>)
    ensures
        text::text_option(new_uri) == rewritten(uri@, language_id@),
{
    let ext = match language_ext(language_id) {
        Some(ext) => ext,
        None => {
            return None;
        },
    };
    let path = uri_to_path(uri);
    if let Some(file_ext) = extension(path.as_str()) {
        if same_text(file_ext.as_str(), ext) {
            return None;
        }
    }
    let mut out = copy_of(uri);
    out.push('.');
    assert(out@ =~= uri@ + seq!['.']);
    out.append(ext);
    Some(out)
}

/// An extension is not empty and holds neither dots nor separators.
proof fn extension_is_plain(language_id: Seq<char>)
    ensures
        extension_for(language_id) matches Some(ext) ==> {
            &&& ext.len() > 0
            &&& forall|i: int| 0 <= i < ext.len() ==> ext[i] != '.' && ext[i] != '/'
        },
{
    reveal_strlit("go");
    reveal_strlit("lua");
    reveal_strlit("json");
    reveal_strlit("jsonc");
    reveal_strlit("yaml");
    reveal_strlit("md");
    reveal_strlit("py");
    reveal_strlit("rs");
    reveal_strlit("ts");
    reveal_strlit("tsx");
    reveal_strlit("js");
    reveal_strlit("jsx");
    reveal_strlit("sh");
    reveal_strlit("toml");
    reveal_strlit("css");
    reveal_strlit("html");
    reveal_strlit("sql");
    reveal_strlit("Dockerfile");
    reveal_strlit("graphql");
}

/// A dot ends every escape, so that what stands behind it is decoded on its own.
proof fn decoded_splits_at_dot(before: Seq<u8>, after: Seq<u8>)
    requires
        after.len() > 0,
        after[0] == 0x2e,
    ensures
        decoded_bytes(before + after) == decoded_bytes(before) + decoded_bytes(after),
    decreases before.len(),
{
    let all = before + after;
    if before.len() == 0 {
        assert(all =~= after);
        assert(decoded_bytes(before) + decoded_bytes(after) =~= decoded_bytes(after));
    } else if before[0] == 0x25 && before.len() > 2 && escape_value(before[1], before[2]) is Some {
        assert(all.skip(3) =~= before.skip(3) + after);
        decoded_splits_at_dot(before.skip(3), after);
        let head = seq![escape_value(before[1], before[2])->0];
        assert(head + (decoded_bytes(before.skip(3)) + decoded_bytes(after)) =~= (head
            + decoded_bytes(before.skip(3))) + decoded_bytes(after));
    } else {
        assert(all.skip(1) =~= before.skip(1) + after);
        decoded_splits_at_dot(before.skip(1), after);
        let head = seq![before[0]];
        assert(head + (decoded_bytes(before.skip(1)) + decoded_bytes(after)) =~= (head
            + decoded_bytes(before.skip(1))) + decoded_bytes(after));
    }
}

/// Bytes without percent signs stay as they are.
proof fn plain_bytes_stay(bytes: Seq<u8>, rest: Seq<u8>)
    requires
        forall|i: int| 0 <= i < bytes.len() ==> bytes[i] != 0x25,
    ensures
        decoded_bytes(bytes + rest) == bytes + decoded_bytes(rest),
    decreases bytes.len(),
{
    let all = bytes + rest;
    if bytes.len() == 0 {
        assert(all =~= rest);
        assert(bytes + decoded_bytes(rest) =~= decoded_bytes(rest));
    } else {
        assert(all[0] == bytes[0]);
        assert(all.skip(1) =~= bytes.skip(1) + rest);
        assert forall|i: int| 0 <= i < bytes.skip(1).len() implies bytes.skip(1)[i] != 0x25 by {
            assert(bytes[i + 1] == bytes.skip(1)[i]);
        }
        plain_bytes_stay(bytes.skip(1), rest);
        assert(seq![bytes[0]] + (bytes.skip(1) + decoded_bytes(rest)) =~= bytes + decoded_bytes(
            rest,
        ));
    }
}

/// ASCII text without percent signs behind a dot is decoded on its own, whatever
/// stands before it.
proof fn plain_suffix_stays(before: Seq<char>, suffix: Seq<char>)
    requires
        suffix.len() > 0,
        suffix[0] == '.',
        forall|i: int|
            0 <= i < suffix.len() ==> suffix[i] != '%' && '\0' <= suffix[i] <= '\u{7f}',
    ensures
        decoded(before + suffix) == decoded(before) + suffix,
{
    broadcast use {encode_utf8_valid_utf8, encode_utf8_decode_utf8, decode_utf8_encode_utf8};

    text::encoding_of_parts(before, suffix);
    assert(is_ascii_chars(suffix));
    is_ascii_chars_encode_utf8(suffix);
    let tail = encode_utf8(suffix);
    assert(suffix[0] as u8 == tail[0]);
    decoded_splits_at_dot(encode_utf8(before), tail);
    assert forall|i: int| 0 <= i < tail.len() implies tail[i] != 0x25 by {
        assert(suffix[i] as u8 == tail[i]);
    }
    plain_bytes_stay(tail, Seq::empty());
    assert(tail + Seq::<u8>::empty() =~= tail);
    assert(tail + decoded_bytes(Seq::<u8>::empty()) =~= tail);
    let head = decoded_bytes(encode_utf8(before));
    let all = head + tail;
    assert(decoded_bytes(encode_utf8(before + suffix)) == all);
    if valid_utf8(head) {
        text::encoding_of_parts(decode_utf8(head), suffix);
        assert(encode_utf8(decode_utf8(head) + suffix) == all);
    } else {
        if valid_utf8(all) {
            assert(all[head.len() as int] == tail[0]);
            is_char_boundary_iff_not_is_continuation_byte(all, head.len() as int);
            valid_utf8_split(all, head.len() as int);
            assert(all.subrange(0, head.len() as int) =~= head);
        }
        let chars = all.map_values(|b: u8| b as char);
        assert(chars =~= head.map_values(|b: u8| b as char) + suffix) by {
            assert forall|i: int| 0 <= i < suffix.len() implies chars[head.len() + i]
                == suffix[i] by {
                assert(suffix[i] as u8 == tail[i]);
            }
        }
    }
}

proof fn suffix_becomes_extension(p: Seq<char>, ext: Seq<char>)
    requires
        p.len() > 0,
        p.last() != '/',
        ext.len() > 0,
        forall|i: int| 0 <= i < ext.len() ==> ext[i] != '.' && ext[i] != '/',
    ensures
        path::extension_of(p + seq!['.'] + ext) == Some(ext),
{
    let q = p + seq!['.'] + ext;
    assert(q.last() == ext.last());
    assert(path::trimmed(q) == q);
    let k = path::last_index(q, '/');
    path::last_index_bound(q, '/');
    assert(k < p.len() - 1) by {
        if k >= p.len() {
            if k == p.len() {
                assert(q[k] == '.');
            } else {
                assert(q[k] == ext[k - p.len() - 1]);
            }
        } else if k == p.len() - 1 {
            assert(q[k] == p.last());
        }
    }
    let name = q.skip(k + 1);
    let d = path::last_index(name, '.');
    path::last_index_bound(name, '.');
    let at = p.len() - k - 1;
    assert(name[at] == q[p.len() as int]);
    assert(d >= at);
    if d > at {
        assert(name[d] == q[d + k + 1]);
        assert(q[d + k + 1] == ext[d - at - 1]);
    }
    assert(name.skip(d + 1) =~= ext);
    assert(name.len() > 2);
}

/// A suffix that starts with a dot does not complete the scheme.
proof fn suffix_adds_no_scheme(uri: Seq<char>, suffix: Seq<char>)
    requires
        !"file://"@.is_prefix_of(uri),
        suffix.len() > 0,
        suffix[0] == '.',
    ensures
        !"file://"@.is_prefix_of(uri + suffix),
{
    let scheme = "file://"@;
    let longer = uri + suffix;
    reveal_strlit("file://");
    if scheme.is_prefix_of(longer) {
        let start = longer.subrange(0, scheme.len() as int);
        if uri.len() < scheme.len() {
            assert(longer[uri.len() as int] == '.');
            assert(scheme[uri.len() as int] == start[uri.len() as int]);
        } else {
            assert(uri.subrange(0, scheme.len() as int) =~= start);
        }
    }
}

/// What stands behind the scheme of a URI keeps standing there when a suffix is
/// appended.
proof fn suffix_keeps_scheme(uri: Seq<char>, suffix: Seq<char>)
    requires
        "file://"@.is_prefix_of(uri),
    ensures
        text::after_prefix(uri + suffix, "file://"@) == Some(
            text::after_prefix(uri, "file://"@)->Some_0 + suffix,
        ),
{
    let scheme = "file://"@;
    let longer = uri + suffix;
    assert(uri.subrange(0, scheme.len() as int) =~= longer.subrange(0, scheme.len() as int));
    assert(longer.skip(scheme.len() as int) =~= uri.skip(scheme.len() as int) + suffix);
}

/// The hexadecimal digit of a value, in upper or in lower case.
pub open spec fn hex_char(value: u8, lower: bool) -> char {
    if value < 10 {
        (0x30 + value) as char
    } else if lower {
        (0x61 + value - 10) as char
    } else {
        (0x41 + value - 10) as char
    }
}

/// How a character stands in a URI.
pub ghost enum Spelling {
    /// As it is.
    Plain,
    /// As the escapes of its bytes. For each of them this says whether the first
    /// and whether the second digit is in lower case.
    Escaped(Seq<(bool, bool)>),
}

/// The escapes of bytes.
pub open spec fn escaped(bytes: Seq<u8>, cases: Seq<(bool, bool)>) -> Seq<char>
    decreases bytes.len(),
{
    if bytes.len() == 0 {
        Seq::empty()
    } else {
        seq!['%', hex_char(bytes[0] / 16, cases[0].0), hex_char(bytes[0] % 16, cases[0].1)]
            + escaped(bytes.skip(1), cases.skip(1))
    }
}

/// Text with each character spelled as its place in `spellings` says.
pub open spec fn percent_encoded(text: Seq<char>, spellings: Seq<Spelling>) -> Seq<char>
    decreases text.len(),
{
    if text.len() == 0 {
        Seq::empty()
    } else {
        let first = seq![text[0]];
        (match spellings[0] {
            Spelling::Plain => first,
            Spelling::Escaped(cases) => escaped(encode_utf8(first), cases),
        }) + percent_encoded(text.drop_first(), spellings.skip(1))
    }
}

/// Whether `spellings` can spell a text: a percent sign is always escaped, and
/// escapes stand for all bytes of their character.
pub open spec fn spells(spellings: Seq<Spelling>, text: Seq<char>) -> bool {
    &&& spellings.len() == text.len()
    &&& forall|i: int|
        0 <= i < text.len() ==> match #[trigger] spellings[i] {
            Spelling::Plain => text[i] != '%',
            Spelling::Escaped(cases) => cases.len() == encode_utf8(seq![text[i]]).len(),
        }
}

proof fn digits_stand_for_their_byte(b: u8, first_lower: bool, second_lower: bool)
    ensures
        is_ascii_chars(seq!['%', hex_char(b / 16, first_lower), hex_char(b % 16, second_lower)]),
        escape_value(
            hex_char(b / 16, first_lower) as u8,
            hex_char(b % 16, second_lower) as u8,
        ) == Some(b),
{
    let h = b / 16;
    let l = b % 16;
    assert(h < 16 && l < 16 && h * 16 + l == b);
    assert(hex_value(hex_char(h, first_lower) as u8) == Some(h));
    assert(hex_value(hex_char(l, second_lower) as u8) == Some(l));
}

proof fn escapes_come_back(bytes: Seq<u8>, cases: Seq<(bool, bool)>, rest: Seq<u8>)
    requires
        cases.len() == bytes.len(),
    ensures
        decoded_bytes(encode_utf8(escaped(bytes, cases)) + rest) == bytes + decoded_bytes(rest),
    decreases bytes.len(),
{
    let text = encode_utf8(escaped(bytes, cases));
    if bytes.len() == 0 {
        assert(text + rest =~= rest);
        assert(bytes + decoded_bytes(rest) =~= decoded_bytes(rest));
    } else {
        let b = bytes[0];
        let head = seq!['%', hex_char(b / 16, cases[0].0), hex_char(b % 16, cases[0].1)];
        let later = escaped(bytes.skip(1), cases.skip(1));
        let more = encode_utf8(later);
        text::encoding_of_parts(head, later);
        digits_stand_for_their_byte(b, cases[0].0, cases[0].1);
        is_ascii_chars_encode_utf8(head);
        let code = encode_utf8(head);
        assert(head[0] as u8 == code[0] && head[1] as u8 == code[1] && head[2] as u8 == code[2]);
        let all = text + rest;
        assert(all.skip(3) =~= more + rest);
        assert(all[0] == 0x25 && all[1] == code[1] && all[2] == code[2]);
        escapes_come_back(bytes.skip(1), cases.skip(1), rest);
        assert(seq![b] + (bytes.skip(1) + decoded_bytes(rest)) =~= bytes + decoded_bytes(rest));
    }
}

proof fn encoded_text_comes_back(text: Seq<char>, spellings: Seq<Spelling>)
    requires
        spells(spellings, text),
    ensures
        decoded_bytes(encode_utf8(percent_encoded(text, spellings))) == encode_utf8(text),
    decreases text.len(),
{
    if text.len() > 0 {
        let first = seq![text[0]];
        let rest = text.drop_first();
        let others = spellings.skip(1);
        let more = percent_encoded(rest, others);
        assert(spells(others, rest)) by {
            assert forall|i: int| 0 <= i < rest.len() implies match #[trigger] others[i] {
                Spelling::Plain => rest[i] != '%',
                Spelling::Escaped(cases) => cases.len() == encode_utf8(seq![rest[i]]).len(),
            } by {
                assert(spellings[i + 1] == others[i] && text[i + 1] == rest[i]);
            }
        }
        encoded_text_comes_back(rest, others);
        assert(first + rest =~= text);
        text::encoding_of_parts(first, rest);
        match spellings[0] {
            Spelling::Plain => {
                text::encoding_of_parts(first, more);
                text::other_characters_lack_byte(text[0], 0x25);
                plain_bytes_stay(encode_utf8(first), encode_utf8(more));
            },
            Spelling::Escaped(cases) => {
                text::encoding_of_parts(escaped(encode_utf8(first), cases), more);
                escapes_come_back(encode_utf8(first), cases, encode_utf8(more));
            },
        }
    } else {
        assert(decoded_bytes(encode_utf8(percent_encoded(text, spellings))) =~= encode_utf8(text));
    }
}

proof fn scheme_stands_first(rest: Seq<char>)
    ensures
        text::after_prefix("file://"@ + rest, "file://"@) == Some(rest),
{
    let scheme = "file://"@;
    let uri = scheme + rest;
    assert(uri.subrange(0, scheme.len() as int) =~= scheme);
    assert(uri.skip(scheme.len() as int) =~= rest);
}

/// Every path comes back from its percent-encoded `file://` URI, however it is
/// spelled there: any character but the percent sign may stand as it is in one
/// place and escaped in another, with digits in upper or in lower case.
pub proof fn law_encoded_paths_come_back(path: Seq<char>, spellings: Seq<Spelling>)
    requires
        spells(spellings, path),
    ensures
        path_of_uri("file://"@ + percent_encoded(path, spellings)) == path,
{
    broadcast use {encode_utf8_valid_utf8, encode_utf8_decode_utf8};

    scheme_stands_first(percent_encoded(path, spellings));
    encoded_text_comes_back(path, spellings);
}

proof fn plain_text_is_not_encoded(text: Seq<char>)
    ensures
        percent_encoded(text, Seq::new(text.len(), |i: int| Spelling::Plain)) == text,
    decreases text.len(),
{
    let plain = Seq::new(text.len(), |i: int| Spelling::Plain);
    if text.len() > 0 {
        let rest = text.drop_first();
        plain_text_is_not_encoded(rest);
        assert(plain.skip(1) =~= Seq::new(rest.len(), |i: int| Spelling::Plain));
        assert(seq![text[0]] + rest =~= text);
    } else {
        assert(percent_encoded(text, plain) =~= text);
    }
}

/// A path without percent signs comes back from the `file://` URI that holds it
/// as it is.
pub proof fn law_plain_paths_come_back(path: Seq<char>)
    requires
        !path.contains('%'),
    ensures
        path_of_uri("file://"@ + path) == path,
{
    let plain = Seq::new(path.len(), |i: int| Spelling::Plain);
    assert forall|i: int| 0 <= i < path.len() implies match #[trigger] plain[i] {
        Spelling::Plain => path[i] != '%',
        Spelling::Escaped(cases) => cases.len() == encode_utf8(seq![path[i]]).len(),
    } by {
        assert(path.contains(path[i]));
    }
    plain_text_is_not_encoded(path);
    law_encoded_paths_come_back(path, plain);
}

/// A rewritten URI needs no further rewriting: its path has the extension of
/// its language. This leaves out URIs of directories, whose path is empty or
/// ends in a separator: there the suffix makes a hidden file's name.
pub proof fn law_rewriting_settles(uri: Seq<char>, language_id: Seq<char>)
    requires
        path_of_uri(uri).len() > 0,
        path_of_uri(uri).last() != '/',
    ensures
        rewritten(uri, language_id) matches Some(new_uri) ==> {
            &&& extension_for(language_id) is Some
            &&& path::extension_of(path_of_uri(new_uri)) == extension_for(language_id)
            &&& rewritten(new_uri, language_id) is None
        },
{
    if let Some(new_uri) = rewritten(uri, language_id) {
        extension_is_plain(language_id);
        let ext = extension_for(language_id)->0;
        let suffix = seq!['.'] + ext;
        assert(new_uri =~= uri + suffix);
        let p = path_of_uri(uri);
        if "file://"@.is_prefix_of(uri) {
            let rest = text::after_prefix(uri, "file://"@)->Some_0;
            suffix_keeps_scheme(uri, suffix);
            suffix_is_ascii(language_id);
            plain_suffix_stays(rest, suffix);
            assert(path_of_uri(new_uri) =~= p + suffix);
        } else {
            suffix_adds_no_scheme(uri, suffix);
        }
        assert(path_of_uri(new_uri) =~= p + seq!['.'] + ext);
        suffix_becomes_extension(p, ext);
    }
}

proof fn suffix_is_ascii(language_id: Seq<char>)
    ensures
        extension_for(language_id) matches Some(ext) ==> forall|i: int|
            0 <= i < (seq!['.'] + ext).len() ==> '\0' <= #[trigger] (seq!['.'] + ext)[i]
                <= '\u{7f}' && (seq!['.'] + ext)[i] != '%',
{
    reveal_strlit("go");
    reveal_strlit("lua");
    reveal_strlit("json");
    reveal_strlit("jsonc");
    reveal_strlit("yaml");
    reveal_strlit("md");
    reveal_strlit("py");
    reveal_strlit("rs");
    reveal_strlit("ts");
    reveal_strlit("tsx");
    reveal_strlit("js");
    reveal_strlit("jsx");
    reveal_strlit("sh");
    reveal_strlit("toml");
    reveal_strlit("css");
    reveal_strlit("html");
    reveal_strlit("sql");
    reveal_strlit("Dockerfile");
    reveal_strlit("graphql");
}

/// A URI is rewritten exactly where its path does not have the extension of the
/// language, whatever that extension is; the extension is then appended behind a
/// dot, and the URI itself stays as it was. A language without an extension asks
/// for nothing.
pub proof fn law_rewriting_appends_the_extension(uri: Seq<char>, language_id: Seq<char>)
    ensures
        match extension_for(language_id) {
            Some(ext) => {
                &&& rewritten(uri, language_id) is None <==> path::extension_of(path_of_uri(uri))
                    == Some(ext)
                &&& path::extension_of(path_of_uri(uri)) != Some(ext) ==> rewritten(
                    uri,
                    language_id,
                ) == Some(uri + seq!['.'] + ext)
            },
            None => rewritten(uri, language_id) is None,
        },
{
}

/// A file in a directory is left alone where its name ends in a dot and the
/// extension of the language. Where it ends in another extension, or in none,
/// the extension is appended.
pub proof fn law_names_decide_about_rewriting(
    dir: Seq<char>,
    stem: Seq<char>,
    own: Seq<char>,
    language_id: Seq<char>,
)
    requires
        !dir.contains('%') && !stem.contains('%') && !own.contains('%'),
        stem.len() > 0,
        forall|i: int| 0 <= i < stem.len() ==> stem[i] != '/' && stem[i] != '.',
        forall|i: int| 0 <= i < own.len() ==> own[i] != '/' && own[i] != '.',
        extension_for(language_id) is Some,
    ensures
        ({
            let ext = extension_for(language_id)->Some_0;
            let bare = "file://"@ + (dir + seq!['/'] + stem);
            let uri = "file://"@ + (dir + seq!['/'] + (stem + seq!['.'] + own));
            &&& own == ext ==> rewritten(uri, language_id) is None
            &&& own != ext ==> rewritten(uri, language_id) == Some(uri + seq!['.'] + ext)
            &&& rewritten(bare, language_id) == Some(bare + seq!['.'] + ext)
        }),
{
    let ext = extension_for(language_id)->Some_0;
    let name = stem + seq!['.'] + own;
    let path = dir + seq!['/'] + name;
    let short = dir + seq!['/'] + stem;
    assert(!path.contains('%')) by {
        if path.contains('%') {
            let k = choose|k: int| 0 <= k < path.len() && path[k] == '%';
            let n = k - dir.len() - 1;
            if k < dir.len() {
                assert(dir[k] == '%');
            } else if 0 <= n < stem.len() {
                assert(stem[n] == '%');
            } else if n > stem.len() {
                assert(own[n - stem.len() - 1] == '%');
            }
        }
    }
    assert(!short.contains('%')) by {
        if short.contains('%') {
            let k = choose|k: int| 0 <= k < short.len() && short[k] == '%';
            if k < dir.len() {
                assert(dir[k] == '%');
            } else if k > dir.len() {
                assert(stem[k - dir.len() - 1] == '%');
            }
        }
    }
    law_plain_paths_come_back(path);
    law_plain_paths_come_back(short);
    assert(stem[0] != '.');
    path::law_extensions_follow_the_last_dot(dir, stem, own);
    path::law_hidden_files_have_no_extension(dir, stem);
}

/// The languages that editors name, and the extension of each. No other language
/// has one.
pub proof fn law_languages_have_their_extension(other: Seq<char>)
    ensures
        extension_for("go"@) == Some("go"@),
        extension_for("lua"@) == Some("lua"@),
        extension_for("json"@) == Some("json"@),
        extension_for("jsonc"@) == Some("jsonc"@),
        extension_for("yaml"@) == Some("yaml"@),
        extension_for("markdown"@) == Some("md"@),
        extension_for("python"@) == Some("py"@),
        extension_for("rust"@) == Some("rs"@),
        extension_for("typescript"@) == Some("ts"@),
        extension_for("typescriptreact"@) == Some("tsx"@),
        extension_for("javascript"@) == Some("js"@),
        extension_for("javascriptreact"@) == Some("jsx"@),
        extension_for("sh"@) == Some("sh"@),
        extension_for("bash"@) == Some("sh"@),
        extension_for("zsh"@) == Some("sh"@),
        extension_for("toml"@) == Some("toml"@),
        extension_for("css"@) == Some("css"@),
        extension_for("html"@) == Some("html"@),
        extension_for("sql"@) == Some("sql"@),
        extension_for("dockerfile"@) == Some("Dockerfile"@),
        extension_for("graphql"@) == Some("graphql"@),
        extension_for(other) is Some ==> {
            ||| other == "go"@ || other == "lua"@ || other == "json"@ || other == "jsonc"@
            ||| other == "yaml"@ || other == "markdown"@ || other == "python"@ || other == "rust"@
            ||| other == "typescript"@ || other == "typescriptreact"@
            ||| other == "javascript"@ || other == "javascriptreact"@
            ||| other == "sh"@ || other == "bash"@ || other == "zsh"@ || other == "toml"@
            ||| other == "css"@ || other == "html"@ || other == "sql"@
            ||| other == "dockerfile"@ || other == "graphql"@
        },
{
    reveal_strlit("go");
    reveal_strlit("lua");
    reveal_strlit("json");
    reveal_strlit("jsonc");
    reveal_strlit("yaml");
    reveal_strlit("markdown");
    reveal_strlit("python");
    reveal_strlit("rust");
    reveal_strlit("typescript");
    reveal_strlit("typescriptreact");
    reveal_strlit("javascript");
    reveal_strlit("javascriptreact");
    reveal_strlit("sh");
    reveal_strlit("bash");
    reveal_strlit("zsh");
    reveal_strlit("toml");
    reveal_strlit("css");
    reveal_strlit("html");
    reveal_strlit("sql");
    reveal_strlit("dockerfile");
    reveal_strlit("graphql");
    assert("go"@.len() == 2 && "go"@[0] == 'g');
    assert("lua"@.len() == 3 && "lua"@[0] == 'l');
    assert("json"@.len() == 4 && "json"@[0] == 'j');
    assert("jsonc"@.len() == 5 && "jsonc"@[0] == 'j');
    assert("yaml"@.len() == 4 && "yaml"@[0] == 'y');
    assert("markdown"@.len() == 8 && "markdown"@[0] == 'm');
    assert("python"@.len() == 6 && "python"@[0] == 'p');
    assert("rust"@.len() == 4 && "rust"@[0] == 'r');
    assert("typescript"@.len() == 10 && "typescript"@[0] == 't');
    assert("typescriptreact"@.len() == 15 && "typescriptreact"@[0] == 't');
    assert("javascript"@.len() == 10 && "javascript"@[0] == 'j');
    assert("javascriptreact"@.len() == 15 && "javascriptreact"@[0] == 'j');
    assert("sh"@.len() == 2 && "sh"@[0] == 's');
    assert("bash"@.len() == 4 && "bash"@[0] == 'b');
    assert("zsh"@.len() == 3 && "zsh"@[0] == 'z');
    assert("toml"@.len() == 4 && "toml"@[0] == 't');
    assert("css"@.len() == 3 && "css"@[0] == 'c');
    assert("html"@.len() == 4 && "html"@[0] == 'h');
    assert("sql"@.len() == 3 && "sql"@[0] == 's');
    assert("dockerfile"@.len() == 10 && "dockerfile"@[0] == 'd');
    assert("graphql"@.len() == 7 && "graphql"@[0] == 'g');
}

/// A URI of another scheme, and a bare path, is taken as it is.
pub proof fn law_other_uris_are_paths(uri: Seq<char>)
    requires
        !"file://"@.is_prefix_of(uri),
    ensures
        path_of_uri(uri) == uri,
{
}

/// Whether a byte is a hexadecimal digit.
pub open spec fn is_hex(b: u8) -> bool {
    0x30 <= b <= 0x39 || 0x41 <= b <= 0x46 || 0x61 <= b <= 0x66
}

/// A percent sign that two hexadecimal digits do not follow stands for itself.
/// So does every byte that is no percent sign, and what follows is decoded on
/// its own.
pub proof fn law_broken_escapes_stay(plain: Seq<u8>, rest: Seq<u8>)
    requires
        forall|i: int| 0 <= i < plain.len() ==> plain[i] != 0x25,
    ensures
        decoded_bytes(plain + rest) == plain + decoded_bytes(rest),
        rest.len() < 2 || !is_hex(rest[0]) || !is_hex(rest[1]) ==> decoded_bytes(
            seq![0x25u8] + rest,
        ) == seq![0x25u8] + decoded_bytes(rest),
        rest.len() >= 2 && is_hex(rest[0]) && is_hex(rest[1]) ==> {
            &&& decoded_bytes(seq![0x25u8] + rest).len() == 1 + decoded_bytes(rest.skip(2)).len()
            &&& decoded_bytes(seq![0x25u8] + rest).skip(1) == decoded_bytes(rest.skip(2))
        },
{
    plain_bytes_stay(plain, rest);
    let all = seq![0x25u8] + rest;
    assert(all.skip(1) =~= rest);
    if rest.len() >= 2 {
        assert(all[1] == rest[0] && all[2] == rest[1]);
        assert(all.skip(3) =~= rest.skip(2));
        if is_hex(rest[0]) && is_hex(rest[1]) {
            assert(escape_value(all[1], all[2]) is Some);
            assert(decoded_bytes(all).skip(1) =~= decoded_bytes(rest.skip(2)));
        } else {
            assert(escape_value(all[1], all[2]) is None);
        }
    }
}

/// Escapes that do not make up UTF-8 are not lost: each byte becomes the
/// character with its number.
pub proof fn law_bytes_that_are_no_text_are_kept(text: Seq<char>, i: int)
    requires
        !valid_utf8(decoded_bytes(encode_utf8(text))),
        0 <= i < decoded_bytes(encode_utf8(text)).len(),
    ensures
        decoded(text).len() == decoded_bytes(encode_utf8(text)).len(),
        decoded(text)[i] as u32 == decoded_bytes(encode_utf8(text))[i] as u32,
{
    let b = decoded_bytes(encode_utf8(text))[i];
    assert((b as char) as u32 == b as u32);
}

} // verus!
