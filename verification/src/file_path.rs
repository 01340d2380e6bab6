//! File paths as the operating system holds them: any bytes, with `/` between
//! the components.
//!
//! Where a path comes from the environment, it need not be text. Paths that
//! documents and configs name are: see [`crate::path`], by whose rules both kinds
//! are read.

use vstd::prelude::*;
use vstd::utf8::*;

use crate::path::{self, parent, same_path};
use crate::text::{self, text_from};

verus! {

/// Bytes as characters, each with the number of its byte. Separators and dots are
/// bytes of their own, so that a path shows its components in this form.
pub open spec fn letters(bytes: Seq<u8>) -> Seq<char> {
    bytes.map_values(|b: u8| b as char)
}

/// Whether a path starts at the root.
pub open spec fn absolute(p: Seq<u8>) -> bool {
    p.len() > 0 && p[0] == 0x2f
}

/// `p` seen from `base`. An absolute `p` stands for itself.
pub open spec fn joined(base: Seq<u8>, p: Seq<u8>) -> Seq<u8> {
    if absolute(p) {
        p
    } else if base.len() == 0 || base.last() == 0x2f {
        base + p
    } else {
        base + seq![0x2fu8] + p
    }
}

/// The path without its last component, by the rules of [`path::parent_of`].
pub open spec fn parent_of(p: Seq<u8>) -> Option<Seq<u8>> {
    match path::parent_of(letters(p)) {
        Some(up) => Some(p.take(up.len() as int)),
        None => None,
    }
}

/// The components of a path, by the rules of [`path::components`].
pub open spec fn components(p: Seq<u8>) -> Seq<Seq<char>> {
    path::components(letters(p))
}

/// Whether a path is in a list.
pub open spec fn listed(list: Seq<Seq<u8>>, p: Seq<u8>) -> bool {
    exists|i: int| 0 <= i < list.len() && components(#[trigger] list[i]) == components(p)
}

/// A path of any bytes.
#[derive(Debug)]
pub struct FilePath {
    bytes: Vec<u8>,
}

impl View for FilePath {
    type V = Seq<u8>;

    closed spec fn view(&self) -> Seq<u8> {
        self.bytes@
    }
}

/// A path that may be missing.
pub open spec fn path_option(path: Option<FilePath>) -> Option<Seq<u8>> {
    match path {
        Some(path) => Some(path@),
        None => None,
    }
}

/// A borrowed path that may be missing.
pub open spec fn borrowed_option(path: Option<&FilePath>) -> Option<Seq<u8>> {
    match path {
        Some(path) => Some(path@),
        None => None,
    }
}

/// What a list of paths holds.
pub open spec fn paths(list: Seq<FilePath>) -> Seq<Seq<u8>> {
    list.map_values(|path: FilePath| path@)
}

/// Borrows a path that may be missing.
pub fn borrow(path: &Option<FilePath>) -> (borrowed: Option<&FilePath>)
    ensures
        borrowed_option(borrowed) == path_option(*path),
{
    match path {
        Some(path) => Some(path),
        None => None,
    }
}

fn copy_bytes(bytes: &[u8]) -> (out: Vec<u8>)
    ensures
        out@ == bytes@,
{
    let mut out: Vec<u8> = Vec::new();
    let mut i: usize = 0;
    while i < bytes.len()
        invariant
            i <= bytes@.len(),
            out@ == bytes@.take(i as int),
        decreases bytes@.len() - i,
    {
        out.push(bytes[i]);
        assert(out@ =~= bytes@.take(i + 1));
        i += 1;
    }
    assert(out@ =~= bytes@);
    out
}

/// The parent of a path is a piece of it.
proof fn parent_is_a_piece(p: Seq<u8>)
    ensures
        path::parent_of(letters(p)) matches Some(up) ==> {
            &&& up.len() <= p.len()
            &&& letters(p.take(up.len() as int)) == up
        },
{
    path::parent_is_prefix(letters(p));
    if let Some(up) = path::parent_of(letters(p)) {
        assert(letters(p.take(up.len() as int)) =~= letters(p).take(up.len() as int));
    }
}

/// Joining is the same in both forms of a path.
pub proof fn joined_in_letters(base: Seq<u8>, p: Seq<u8>)
    ensures
        letters(joined(base, p)) == path::joined(letters(base), letters(p)),
{
    assert(letters(joined(base, p)) =~= path::joined(letters(base), letters(p)));
}

/// A text path is absolute where its bytes are.
pub proof fn text_is_absolute(p: Seq<char>)
    ensures
        absolute(encode_utf8(p)) == path::absolute(p),
{
    if p.len() > 0 {
        let n = p[0] as u32;
        let bytes = encode_utf8(p);
        encode_utf8_first_scalar(p);
        if p[0] == '/' {
            assert((0x2fu32 & 0x7F) as u8 == 0x2fu8) by (bit_vector);
            assert(encode_scalar(n)[0] == 0x2f);
            assert(bytes[0] == encode_scalar(n)[0]);
        } else if bytes[0] == 0x2f {
            assert((0x2fu8 & 0x7F) as u32 == 0x2fu32) by (bit_vector);
            assert(decode_first_scalar(bytes) == 0x2f);
            char_u32_cast(p[0], 0x2f);
            char_u32_cast('/', 0x2f);
        }
    }
}

impl FilePath {
    /// The path that a text names.
    pub fn from_text(text: &str) -> (path: FilePath)
        ensures
            path@ == encode_utf8(text@),
    {
        FilePath { bytes: copy_bytes(text.as_bytes()) }
    }

    /// The path of the given bytes.
    pub fn from_bytes(bytes: Vec<u8>) -> (path: FilePath)
        ensures
            path@ == bytes@,
    {
        FilePath { bytes }
    }

    /// The bytes of the path.
    pub fn as_bytes(&self) -> (bytes: &[u8])
        ensures
            bytes@ == self@,
    {
        self.bytes.as_slice()
    }

    /// The bytes of the path, on their own.
    pub fn into_bytes(self) -> (bytes: Vec<u8>)
        ensures
            bytes@ == self@,
    {
        self.bytes
    }

    /// The text of the path, where it is UTF-8.
    pub fn to_text(&self) -> (text: Option<String>)
        ensures
            match text {
                Some(text) => encode_utf8(text@) == self@,
                None => !valid_utf8(self@),
            },
    {
        broadcast use decode_utf8_encode_utf8;

        text_from(copy_bytes(self.bytes.as_slice()))
    }

    /// A copy of the path.
    pub fn copy(&self) -> (out: FilePath)
        ensures
            out@ == self@,
    {
        FilePath { bytes: copy_bytes(self.bytes.as_slice()) }
    }

    /// The path in letters.
    fn spelled(&self) -> (out: String)
        ensures
            out@ == letters(self@),
    {
        let ghost all = letters(self@);
        let mut out = String::new();
        let mut i: usize = 0;
        assert(out@ =~= all.take(0));
        while i < self.bytes.len()
            invariant
                i <= self.bytes@.len(),
                all == letters(self.bytes@),
                out@ == all.take(i as int),
            decreases self.bytes@.len() - i,
        {
            out.push(self.bytes[i] as char);
            assert(out@ =~= all.take(i + 1));
            i += 1;
        }
        assert(out@ =~= all);
        out
    }

    /// `p` seen from this path.
    pub fn join(&self, p: &FilePath) -> (out: FilePath)
        ensures
            out@ == joined(self@, p@),
    {
        if p.bytes.len() > 0 && p.bytes[0] == 0x2f {
            return p.copy();
        }
        let mut bytes = copy_bytes(self.bytes.as_slice());
        if bytes.len() > 0 && bytes[bytes.len() - 1] != 0x2f {
            bytes.push(0x2f);
            assert(bytes@ =~= self@ + seq![0x2fu8]);
        }
        let mut more = copy_bytes(p.bytes.as_slice());
        bytes.append(&mut more);
        FilePath { bytes }
    }

    /// The path without its last component.
    pub fn parent(&self) -> (up: Option<FilePath>)
        ensures
            path_option(up) == parent_of(self@),
    {
        let letters = self.spelled();
        proof {
            parent_is_a_piece(self@);
        }
        match parent(letters.as_str()) {
            Some(up) => {
                let chars = text::chars_of(up.as_str());
                let n = chars.len();
                let mut bytes: Vec<u8> = Vec::new();
                let mut i: usize = 0;
                while i < n
                    invariant
                        i <= n <= self.bytes@.len(),
                        bytes@ == self.bytes@.take(i as int),
                    decreases n - i,
                {
                    bytes.push(self.bytes[i]);
                    assert(bytes@ =~= self.bytes@.take(i + 1));
                    i += 1;
                }
                Some(FilePath { bytes })
            },
            None => None,
        }
    }

    /// Whether two paths have the same components.
    pub fn is_same(&self, other: &FilePath) -> (same: bool)
        ensures
            same == (components(self@) == components(other@)),
    {
        same_path(self.spelled().as_str(), other.spelled().as_str())
    }
}

/// Paths are compared by their components.
impl PartialEq for FilePath {
    fn eq(&self, other: &FilePath) -> (same: bool) {
        self.is_same(other)
    }
}

impl Eq for FilePath {

}

impl vstd::std_specs::cmp::PartialEqSpecImpl for FilePath {
    open spec fn obeys_eq_spec() -> bool {
        true
    }

    open spec fn eq_spec(&self, other: &FilePath) -> bool {
        components(self@) == components(other@)
    }
}

/// Whether a path is in a list.
pub fn is_listed(list: &[FilePath], p: &FilePath) -> (yes: bool)
    ensures
        yes == listed(paths(list@), p@),
{
    let ghost all = paths(list@);
    let mut i: usize = 0;
    while i < list.len()
        invariant
            i <= list@.len(),
            all == paths(list@),
            forall|j: int| 0 <= j < i ==> components(#[trigger] all[j]) != components(p@),
        decreases list@.len() - i,
    {
        if list[i].is_same(p) {
            assert(components(all[i as int]) == components(p@));
            return true;
        }
        i += 1;
    }
    false
}

/// A text path in letters.
pub open spec fn text_letters(p: Seq<char>) -> Seq<char> {
    letters(encode_utf8(p))
}

proof fn letters_of_parts(a: Seq<char>, b: Seq<char>)
    ensures
        text_letters(a + b) == text_letters(a) + text_letters(b),
{
    text::encoding_of_parts(a, b);
    assert(text_letters(a + b) =~= text_letters(a) + text_letters(b));
}

proof fn letters_tell_texts_apart(a: Seq<char>, b: Seq<char>)
    requires
        text_letters(a) == text_letters(b),
    ensures
        a == b,
{
    let x = encode_utf8(a);
    let y = encode_utf8(b);
    encode_utf8_decode_utf8(a);
    encode_utf8_decode_utf8(b);
    assert(x.len() == text_letters(a).len() && y.len() == text_letters(b).len());
    assert forall|i: int| 0 <= i < x.len() implies x[i] == y[i] by {
        assert(text_letters(a)[i] == x[i] as char);
        assert(text_letters(b)[i] == y[i] as char);
    }
    assert(x =~= y);
}

proof fn ascii_letters_stay(c: char)
    requires
        '\0' <= c <= '\u{7f}',
    ensures
        text_letters(seq![c]) == seq![c],
{
    assert(is_ascii_chars(seq![c]));
    is_ascii_chars_encode_utf8(seq![c]);
    assert(seq![c][0] as u8 == encode_utf8(seq![c])[0]);
    assert(text_letters(seq![c]) =~= seq![c]);
}

proof fn letters_add_no_separator(p: Seq<char>)
    requires
        forall|i: int| 0 <= i < p.len() ==> p[i] != '/',
    ensures
        forall|i: int| 0 <= i < text_letters(p).len() ==> text_letters(p)[i] != '/',
        p.len() > 0 ==> text_letters(p).len() > 0,
    decreases p.len(),
{
    let all = text_letters(p);
    if p.len() > 0 {
        let first = seq![p[0]];
        let rest = p.drop_first();
        assert(first + rest =~= p);
        assert forall|i: int| 0 <= i < rest.len() implies rest[i] != '/' by {
            assert(p[i + 1] == rest[i]);
        }
        letters_of_parts(first, rest);
        letters_add_no_separator(rest);
        text::other_characters_lack_byte(p[0], 0x2f);
        let head = text_letters(first);
        reveal_with_fuel(encode_utf8, 2);
        assert(head.len() > 0);
        assert forall|i: int| 0 <= i < all.len() implies all[i] != '/' by {
            if i < head.len() {
                assert(all[i] == head[i]);
                assert(head[i] == encode_utf8(first)[i] as char);
            } else {
                assert(all[i] == text_letters(rest)[i - head.len()]);
            }
        }
    }
}

proof fn head_in_letters(p: Seq<char>)
    ensures
        ({
            let n = path::head_len(p) as int;
            let m = path::head_len(text_letters(p)) as int;
            &&& text_letters(p).take(m) == text_letters(p.take(n))
            &&& (m == text_letters(p).len()) == (n == p.len())
            &&& n < p.len() ==> text_letters(p).skip(m + 1) == text_letters(p.skip(n + 1))
        }),
{
    path::head_len_bound(p);
    let n = path::head_len(p) as int;
    let head = p.take(n);
    let all = text_letters(p);
    let start = text_letters(head);
    assert forall|i: int| 0 <= i < head.len() implies head[i] != '/' by {
        assert(head[i] == p[i]);
    }
    letters_add_no_separator(head);
    if n == p.len() {
        assert(head =~= p);
        path::head_is(all, all.len() as int);
        assert(all.take(all.len() as int) =~= all);
    } else {
        let rest = p.skip(n + 1);
        assert(p =~= head + (seq!['/'] + rest));
        letters_of_parts(head, seq!['/'] + rest);
        letters_of_parts(seq!['/'], rest);
        ascii_letters_stay('/');
        assert(all =~= start + (seq!['/'] + text_letters(rest)));
        path::head_is(all, start.len() as int);
        assert(all.take(start.len() as int) =~= start);
        assert(all.skip(start.len() as int + 1) =~= text_letters(rest));
    }
}

proof fn names_in_letters(segment: Seq<char>)
    requires
        forall|i: int| 0 <= i < segment.len() ==> segment[i] != '/',
    ensures
        path::names(text_letters(segment)) == path::names(segment),
        text_letters(segment) == seq!['.'] <==> segment == seq!['.'],
{
    ascii_letters_stay('.');
    letters_add_no_separator(segment);
    if text_letters(segment) == seq!['.'] {
        letters_tell_texts_apart(segment, seq!['.']);
    }
    if segment.len() == 0 {
        assert(text_letters(segment) =~= Seq::empty());
    }
}

proof fn parts_in_letters(p: Seq<char>)
    ensures
        path::named_parts(text_letters(p)) == path::named_parts(p).map_values(
            |part: Seq<char>| text_letters(part),
        ),
    decreases p.len(),
{
    let spell = |part: Seq<char>| text_letters(part);
    path::head_len_bound(p);
    head_in_letters(p);
    let n = path::head_len(p) as int;
    let head = p.take(n);
    assert forall|i: int| 0 <= i < head.len() implies head[i] != '/' by {
        assert(head[i] == p[i]);
    }
    names_in_letters(head);
    let all = path::named_parts(p).map_values(spell);
    if n < p.len() {
        let rest = p.skip(n + 1);
        parts_in_letters(rest);
        let first = if path::names(head) {
            seq![head]
        } else {
            Seq::empty()
        };
        assert(all =~= first.map_values(spell) + path::named_parts(rest).map_values(spell));
    }
    assert(path::named_parts(text_letters(p)) =~= all);
}

proof fn components_in_letters(p: Seq<char>)
    ensures
        components(encode_utf8(p)) == path::components(p).map_values(
            |part: Seq<char>| text_letters(part),
        ),
{
    let spell = |part: Seq<char>| text_letters(part);
    parts_in_letters(p);
    path::head_len_bound(p);
    head_in_letters(p);
    let head = p.take(path::head_len(p) as int);
    assert forall|i: int| 0 <= i < head.len() implies head[i] != '/' by {
        assert(head[i] == p[i]);
    }
    names_in_letters(head);
    ascii_letters_stay('/');
    ascii_letters_stay('.');
    text_is_absolute(p);
    assert(path::absolute(text_letters(p)) == absolute(encode_utf8(p)));
    assert(path::anchor(text_letters(p)) =~= path::anchor(p).map_values(spell));
    assert(components(encode_utf8(p)) =~= path::components(p).map_values(spell));
}

/// Two texts name the same path as text where they do as bytes.
pub proof fn law_text_and_bytes_agree(a: Seq<char>, b: Seq<char>)
    ensures
        components(encode_utf8(a)) == components(encode_utf8(b)) <==> path::components(a)
            == path::components(b),
{
    let spell = |part: Seq<char>| text_letters(part);
    let x = path::components(a);
    let y = path::components(b);
    components_in_letters(a);
    components_in_letters(b);
    if components(encode_utf8(a)) == components(encode_utf8(b)) {
        assert(x.map_values(spell).len() == x.len() && y.map_values(spell).len() == y.len());
        assert forall|i: int| 0 <= i < x.len() implies x[i] == y[i] by {
            assert(x.map_values(spell)[i] == y.map_values(spell)[i]);
            letters_tell_texts_apart(x[i], y[i]);
        }
        assert(x =~= y);
    }
}

/// Joining puts one separator between two paths, unless the first is empty or
/// ends with one already. A path from the root stands for itself.
pub proof fn law_joining_adds_one_separator(base: Seq<u8>, p: Seq<u8>)
    ensures
        p.len() > 0 && p[0] == 0x2f ==> joined(base, p) == p,
        (p.len() == 0 || p[0] != 0x2f) && base.len() == 0 ==> joined(base, p) == p,
        (p.len() == 0 || p[0] != 0x2f) ==> joined(base.push(0x2f), p) == base + seq![0x2fu8] + p,
        (p.len() == 0 || p[0] != 0x2f) && base.len() > 0 && base.last() != 0x2f ==> joined(base, p)
            == base + seq![0x2fu8] + p,
{
    assert(base.len() == 0 ==> base + p =~= p);
    assert(base.push(0x2f) + p =~= base + seq![0x2fu8] + p);
}

/// The parent of a path is what stands before its last name: the root for a name
/// in the root, nothing for a bare name. The root itself has none.
pub proof fn law_names_stand_behind_their_parent(dir: Seq<u8>, name: Seq<u8>)
    requires
        path::segment(letters(name)),
    ensures
        parent_of(name) == Some(Seq::<u8>::empty()),
        parent_of(seq![0x2fu8] + name) == Some(seq![0x2fu8]),
        path::ends_plainly(letters(dir)) ==> parent_of(dir + seq![0x2fu8] + name) == Some(dir),
        parent_of(seq![0x2fu8]) is None,
{
    let root = seq![0x2fu8];
    path::law_names_stand_behind_their_parent(letters(dir), letters(name));
    path::law_the_root_has_no_parent();
    assert(letters(root) =~= seq!['/']);
    assert(letters(root + name) =~= seq!['/'] + letters(name));
    assert((root + name).take(1) =~= root);
    assert(name.take(0) =~= Seq::<u8>::empty());
    if path::ends_plainly(letters(dir)) {
        let p = dir + root + name;
        assert(letters(p) =~= letters(dir) + seq!['/'] + letters(name));
        assert(p.take(dir.len() as int) =~= dir);
    }
}

/// A list of paths is seen path by path, and a path that may be missing is seen
/// where it is there, even where it is empty.
pub proof fn law_lists_are_seen_path_by_path(list: Seq<FilePath>, i: int, p: FilePath)
    requires
        0 <= i < list.len(),
    ensures
        paths(list).len() == list.len(),
        paths(list)[i] == list[i]@,
        path_option(Some(p)) == Some(p@),
        path_option(None) is None,
        borrowed_option(Some(&p)) == Some(p@),
        borrowed_option(None) is None,
{
}

} // verus!
