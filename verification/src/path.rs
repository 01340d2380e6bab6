//! File paths as text, with `/` between their components.
//!
//! A path is read the way Unix file systems and `std::path` read it: repeated
//! and trailing separators do not count, nor does a `.` component, except at
//! the start of a relative path.

use vstd::prelude::*;

use crate::text::{self, chars_of, copy_of, same_text, text_of};

verus! {

/// Whether a path starts at the root.
pub open spec fn absolute(p: Seq<char>) -> bool {
    p.len() > 0 && p[0] == '/'
}

/// `p` without the separators and `.` components at its end.
pub open spec fn trimmed(p: Seq<char>) -> Seq<char>
    decreases p.len(),
{
    if p.len() > 1 && (p.last() == '/' || (p.last() == '.' && p[p.len() - 2] == '/')) {
        trimmed(p.drop_last())
    } else {
        p
    }
}

/// Where the last `c` of `p` stands; -1 where there is none.
pub open spec fn last_index(p: Seq<char>, c: char) -> int
    decreases p.len(),
{
    if p.len() == 0 {
        -1
    } else if p.last() == c {
        p.len() - 1
    } else {
        last_index(p.drop_last(), c)
    }
}

/// The path without its last component. The root and the empty path have none
/// to drop.
pub open spec fn parent_of(p: Seq<char>) -> Option<Seq<char>> {
    let t = trimmed(p);
    if t.len() == 0 || t == seq!['/'] {
        None
    } else if last_index(t, '/') < 0 {
        Some(Seq::empty())
    } else {
        Some(trimmed(t.take(last_index(t, '/') + 1)))
    }
}

/// The last component of the path, unless that is the root, `.` or `..`.
pub open spec fn file_name_of(p: Seq<char>) -> Option<Seq<char>> {
    let t = trimmed(p);
    let name = t.skip(last_index(t, '/') + 1);
    if name.len() == 0 || name == seq!['.'] || name == seq!['.', '.'] {
        None
    } else {
        Some(name)
    }
}

/// What follows the last dot of the file name, unless that dot is the name's
/// first character.
pub open spec fn extension_of(p: Seq<char>) -> Option<Seq<char>> {
    match file_name_of(p) {
        Some(name) => if last_index(name, '.') > 0 {
            Some(name.skip(last_index(name, '.') + 1))
        } else {
            None
        },
        None => None,
    }
}

/// `p` seen from `base`. An absolute `p` stands for itself.
pub open spec fn joined(base: Seq<char>, p: Seq<char>) -> Seq<char> {
    if absolute(p) {
        p
    } else if base.len() == 0 || base.last() == '/' {
        base + p
    } else {
        base + seq!['/'] + p
    }
}

/// How many characters of `p` stand before its first `/`.
pub open spec fn head_len(p: Seq<char>) -> nat
    decreases p.len(),
{
    if p.len() == 0 || p[0] == '/' {
        0
    } else {
        1 + head_len(p.skip(1))
    }
}

pub proof fn head_len_bound(p: Seq<char>)
    ensures
        head_len(p) <= p.len(),
        head_len(p) < p.len() ==> p[head_len(p) as int] == '/',
        forall|i: int| 0 <= i < head_len(p) ==> p[i] != '/',
    decreases p.len(),
{
    if p.len() == 0 || p[0] == '/' {
    } else {
        head_len_bound(p.skip(1));
        assert forall|i: int| 0 <= i < head_len(p) implies p[i] != '/' by {
            if i > 0 {
                assert(p.skip(1)[i - 1] == p[i]);
            }
        }
    }
}

/// Whether what stands between two separators names anything.
pub open spec fn names(segment: Seq<char>) -> bool {
    segment.len() > 0 && segment != seq!['.']
}

/// What stands between the separators of `p` and names something, in order.
pub open spec fn named_parts(p: Seq<char>) -> Seq<Seq<char>>
    decreases p.len(),
{
    proof {
        head_len_bound(p);
    }
    let n = head_len(p) as int;
    let first = if names(p.take(n)) {
        seq![p.take(n)]
    } else {
        Seq::empty()
    };
    if n == p.len() {
        first
    } else {
        first + named_parts(p.skip(n + 1))
    }
}

/// What a path starts with besides its named parts: the root, or a `.` at the
/// start of a relative path.
pub open spec fn anchor(p: Seq<char>) -> Seq<Seq<char>> {
    if absolute(p) {
        seq![seq!['/']]
    } else if p.take(head_len(p) as int) == seq!['.'] {
        seq![seq!['.']]
    } else {
        Seq::empty()
    }
}

/// The components of a path. Two texts with the same components are the same
/// path.
pub open spec fn components(p: Seq<char>) -> Seq<Seq<char>> {
    anchor(p) + named_parts(p)
}

/// `p` without the separators and `.` components at its start.
pub open spec fn without_noise(p: Seq<char>) -> Seq<char>
    decreases p.len(),
{
    if p.len() == 0 {
        p
    } else if p[0] == '/' {
        without_noise(p.skip(1))
    } else if p[0] == '.' && (p.len() == 1 || p[1] == '/') {
        without_noise(p.skip(1))
    } else {
        p
    }
}

/// The text of `p` behind its first `n` components, for `n` of at least one.
pub open spec fn beyond(p: Seq<char>, n: nat) -> Seq<char>
    decreases n,
{
    if n <= 1 {
        if anchor(p).len() > 0 {
            p.skip(1)
        } else {
            p.skip(head_len(p) as int)
        }
    } else {
        let rest = without_noise(beyond(p, (n - 1) as nat));
        rest.skip(head_len(rest) as int)
    }
}

/// What is left of `p` when it is seen from `base`, where the components of
/// `base` are the first ones of `p`.
pub open spec fn relative_to(p: Seq<char>, base: Seq<char>) -> Option<Seq<char>> {
    let n = components(base).len();
    if !components(base).is_prefix_of(components(p)) {
        None
    } else if n == 0 {
        Some(trimmed(p))
    } else {
        Some(trimmed(without_noise(beyond(p, n))))
    }
}

pub proof fn trimmed_is_prefix(p: Seq<char>)
    ensures
        trimmed(p).is_prefix_of(p),
        trimmed(p).len() <= p.len(),
    decreases p.len(),
{
    if p.len() > 1 && (p.last() == '/' || (p.last() == '.' && p[p.len() - 2] == '/')) {
        trimmed_is_prefix(p.drop_last());
        assert(trimmed(p) =~= p.subrange(0, trimmed(p).len() as int));
    } else {
        assert(p =~= p.subrange(0, p.len() as int));
    }
}

pub proof fn last_index_bound(p: Seq<char>, c: char)
    ensures
        -1 <= last_index(p, c) < p.len(),
        last_index(p, c) >= 0 ==> p[last_index(p, c)] == c,
        forall|i: int| last_index(p, c) < i < p.len() ==> p[i] != c,
    decreases p.len(),
{
    if p.len() == 0 || p.last() == c {
    } else {
        last_index_bound(p.drop_last(), c);
        assert forall|i: int| last_index(p, c) < i < p.len() implies p[i] != c by {
            if i < p.len() - 1 {
                assert(p.drop_last()[i] == p[i]);
            }
        }
    }
}

/// A parent is shorter than the path it is the parent of, so that walking up
/// comes to an end.
pub proof fn law_parent_is_shorter(p: Seq<char>)
    ensures
        parent_of(p) matches Some(up) ==> up.len() < p.len(),
{
    let t = trimmed(p);
    trimmed_is_prefix(p);
    last_index_bound(t, '/');
    let k = last_index(t, '/');
    if t.len() > 0 && t != seq!['/'] && k >= 0 {
        trimmed_is_prefix(t.take(k + 1));
        if k == t.len() - 1 {
            trimmed_is_trimmed(p);
            assert(t.len() == 1);
            assert(t =~= seq!['/']);
        }
    }
}

/// A parent is a piece of the path it is the parent of.
pub proof fn parent_is_prefix(p: Seq<char>)
    ensures
        parent_of(p) matches Some(up) ==> up.len() <= p.len() && up == p.take(up.len() as int),
{
    let t = trimmed(p);
    trimmed_is_prefix(p);
    last_index_bound(t, '/');
    let k = last_index(t, '/');
    if let Some(up) = parent_of(p) {
        if k >= 0 {
            trimmed_is_prefix(t.take(k + 1));
        }
        assert(up =~= p.take(up.len() as int));
    }
}

proof fn trimmed_is_trimmed(p: Seq<char>)
    ensures
        ({
            let t = trimmed(p);
            t.len() > 1 ==> t.last() != '/'
        }),
    decreases p.len(),
{
    if p.len() > 1 && (p.last() == '/' || (p.last() == '.' && p[p.len() - 2] == '/')) {
        trimmed_is_trimmed(p.drop_last());
    }
}

/// How many characters of the path are left when its end is trimmed.
fn trimmed_len(chars: &Vec<char>) -> (n: usize)
    ensures
        n <= chars@.len(),
        chars@.take(n as int) == trimmed(chars@),
{
    let mut n = chars.len();
    assert(chars@.take(n as int) =~= chars@);
    while n > 1 && (chars[n - 1] == '/' || (chars[n - 1] == '.' && chars[n - 2] == '/'))
        invariant
            n <= chars@.len(),
            trimmed(chars@.take(n as int)) == trimmed(chars@),
        decreases n,
    {
        assert(chars@.take(n as int).drop_last() =~= chars@.take(n - 1));
        n -= 1;
    }
    n
}

/// Where the last `c` among the first `n` characters stands.
fn find_last(chars: &Vec<char>, n: usize, c: char) -> (at: Option<usize>)
    requires
        n <= chars@.len(),
    ensures
        match at {
            Some(k) => k < n && k == last_index(chars@.take(n as int), c),
            None => last_index(chars@.take(n as int), c) < 0,
        },
{
    let mut k = n;
    while k > 0
        invariant
            k <= n <= chars@.len(),
            last_index(chars@.take(k as int), c) == last_index(chars@.take(n as int), c),
        decreases k,
    {
        if chars[k - 1] == c {
            return Some(k - 1);
        }
        assert(chars@.take(k as int).drop_last() =~= chars@.take(k - 1));
        k -= 1;
    }
    None
}

/// Whether a path starts at the root.
pub fn is_absolute(p: &str) -> (yes: bool)
    ensures
        yes == absolute(p@),
{
    let chars = chars_of(p);
    chars.len() > 0 && chars[0] == '/'
}

/// The path without its last component.
pub fn parent(p: &str) -> (up: Option<String>)
    ensures
        text::text_option(up) == parent_of(p@),
{
    let chars = chars_of(p);
    let n = trimmed_len(&chars);
    let ghost t = trimmed(p@);
    if n == 0 || (n == 1 && chars[0] == '/') {
        assert(n == 1 ==> t =~= seq!['/']);
        return None;
    }
    assert(t != seq!['/']) by {
        assert(t.len() == n && t[0] == chars@[0]);
    }
    match find_last(&chars, n, '/') {
        None => Some(String::new()),
        Some(k) => {
            let upper = text_of(chars.as_slice(), 0, k + 1);
            assert(upper@ =~= t.take(k + 1));
            let upper_chars = chars_of(upper.as_str());
            let m = trimmed_len(&upper_chars);
            assert(upper_chars@.subrange(0, m as int) =~= upper_chars@.take(m as int));
            Some(text_of(upper_chars.as_slice(), 0, m))
        },
    }
}

/// The last component of the path.
pub fn file_name(p: &str) -> (name: Option<String>)
    ensures
        text::text_option(name) == file_name_of(p@),
{
    let chars = chars_of(p);
    let n = trimmed_len(&chars);
    let start = match find_last(&chars, n, '/') {
        None => 0,
        Some(k) => k + 1,
    };
    let name = text_of(chars.as_slice(), start, n);
    proof {
        last_index_bound(trimmed(p@), '/');
    }
    assert(name@ =~= trimmed(p@).skip(last_index(trimmed(p@), '/') + 1));
    let dots = n - start;
    if dots == 0 {
        return None;
    }
    if dots == 1 && chars[start] == '.' {
        assert(name@ =~= seq!['.']);
        return None;
    }
    if dots == 2 && chars[start] == '.' && chars[start + 1] == '.' {
        assert(name@ =~= seq!['.', '.']);
        return None;
    }
    assert(name@[0] == chars@[start as int]);
    assert(dots > 1 ==> name@[1] == chars@[start + 1]);
    assert(name@.len() == dots);
    Some(name)
}

/// The extension of the path's file name.
pub fn extension(p: &str) -> (ext: Option<String>)
    ensures
        text::text_option(ext) == extension_of(p@),
{
    match file_name(p) {
        None => None,
        Some(name) => {
            let chars = chars_of(name.as_str());
            let n = chars.len();
            assert(chars@.take(n as int) =~= chars@);
            match find_last(&chars, n, '.') {
                None => None,
                Some(k) => {
                    if k == 0 {
                        None
                    } else {
                        let ext = text_of(chars.as_slice(), k + 1, n);
                        assert(ext@ =~= chars@.skip(k + 1));
                        Some(ext)
                    }
                },
            }
        },
    }
}

/// `p` seen from `base`.
pub fn join(base: &str, p: &str) -> (out: String)
    ensures
        out@ == joined(base@, p@),
{
    if is_absolute(p) {
        return copy_of(p);
    }
    let chars = chars_of(base);
    let mut out = copy_of(base);
    if chars.len() > 0 && chars[chars.len() - 1] != '/' {
        out.push('/');
        assert(out@ =~= base@ + seq!['/']);
    }
    out.append(p);
    out
}

/// How many characters before the first `/`, counting from `start`.
fn head_end(chars: &Vec<char>, start: usize) -> (end: usize)
    requires
        start <= chars@.len(),
    ensures
        start <= end <= chars@.len(),
        end == start + head_len(chars@.skip(start as int)),
{
    let mut i = start;
    while i < chars.len() && chars[i] != '/'
        invariant
            start <= i <= chars@.len(),
            start + head_len(chars@.skip(start as int)) == i + head_len(chars@.skip(i as int)),
        decreases chars@.len() - i,
    {
        assert(chars@.skip(i as int).skip(1) =~= chars@.skip(i + 1));
        i += 1;
    }
    i
}

/// The components of a path.
pub fn components_of(p: &str) -> (out: Vec<String>)
    ensures
        text::texts(out@) == components(p@),
{
    let chars = chars_of(p);
    let len = chars.len();
    let mut out: Vec<String> = Vec::new();
    let first_end = head_end(&chars, 0);
    assert(chars@.skip(0) =~= chars@);
    if len > 0 && chars[0] == '/' {
        let root = text_of(chars.as_slice(), 0, 1);
        assert(root@ =~= seq!['/']);
        out.push(root);
        assert(text::texts(out@) =~= anchor(p@));
    } else if first_end == 1 && chars[0] == '.' {
        let dot = text_of(chars.as_slice(), 0, 1);
        assert(dot@ =~= seq!['.']);
        assert(p@.take(1) =~= seq!['.']);
        out.push(dot);
        assert(text::texts(out@) =~= anchor(p@));
    } else {
        assert(p@.take(head_len(p@) as int) != seq!['.']) by {
            if p@.take(head_len(p@) as int) == seq!['.'] {
                assert(p@.take(head_len(p@) as int).len() == 1);
                assert(p@.take(1)[0] == p@[0]);
            }
        }
        assert(text::texts(out@) =~= anchor(p@));
    }
    let mut i: usize = 0;
    let mut done = false;
    while !done
        invariant
            i <= len,
            len == chars@.len(),
            chars@ == p@,
            !done ==> components(p@) == text::texts(out@) + named_parts(chars@.skip(i as int)),
            done ==> components(p@) == text::texts(out@),
        decreases
            (len - i) + (if done {
                0int
            } else {
                1int
            }),
    {
        let end = head_end(&chars, i);
        let ghost rest = chars@.skip(i as int);
        let ghost before = text::texts(out@);
        let ghost n = end - i;
        assert(rest.take(n) =~= chars@.subrange(i as int, end as int));
        if !(end == i || (end == i + 1 && chars[i] == '.')) {
            let part = text_of(chars.as_slice(), i, end);
            assert(names(part@)) by {
                if part@ == seq!['.'] {
                    assert(part@[0] == chars@[i as int]);
                }
            }
            out.push(part);
            assert(text::texts(out@) =~= before + seq![rest.take(n)]);
        } else {
            assert(!names(rest.take(n))) by {
                if end == i + 1 {
                    assert(rest.take(n) =~= seq!['.']);
                }
            }
            assert(before + Seq::<Seq<char>>::empty() =~= before);
        }
        if end == len {
            assert(components(p@) == text::texts(out@));
            done = true;
        } else {
            assert(rest.skip(n + 1) =~= chars@.skip(end + 1));
            let ghost first = if names(rest.take(n)) {
                seq![rest.take(n)]
            } else {
                Seq::empty()
            };
            assert(before + (first + named_parts(rest.skip(n + 1))) =~= text::texts(out@)
                + named_parts(
                rest.skip(n + 1),
            ));
            i = end + 1;
        }
    }
    out
}

/// Whether two texts name the same path.
pub fn same_path(a: &str, b: &str) -> (same: bool)
    ensures
        same == (components(a@) == components(b@)),
{
    let x = components_of(a);
    let y = components_of(b);
    if x.len() != y.len() {
        assert(text::texts(x@).len() != text::texts(y@).len());
        return false;
    }
    begins_with(&x, &y)
}

/// Whether the texts of `y` are the first ones of `x`.
fn begins_with(x: &Vec<String>, y: &Vec<String>) -> (yes: bool)
    requires
        y@.len() <= x@.len(),
    ensures
        yes == text::texts(y@).is_prefix_of(text::texts(x@)),
        yes && x@.len() == y@.len() ==> text::texts(x@) == text::texts(y@),
        text::texts(x@) == text::texts(y@) ==> yes,
{
    let mut i: usize = 0;
    while i < y.len()
        invariant
            i <= y@.len() <= x@.len(),
            forall|j: int| 0 <= j < i ==> text::texts(x@)[j] == text::texts(y@)[j],
        decreases y@.len() - i,
    {
        if !same_text(x[i].as_str(), y[i].as_str()) {
            assert(text::texts(x@)[i as int] != text::texts(y@)[i as int]);
            assert(text::texts(x@).subrange(0, y@.len() as int)[i as int] == text::texts(
                x@,
            )[i as int]);
            return false;
        }
        assert(text::texts(x@)[i as int] == text::texts(y@)[i as int]);
        i += 1;
    }
    assert(text::texts(y@) =~= text::texts(x@).subrange(0, y@.len() as int));
    assert(x@.len() == y@.len() ==> text::texts(x@) =~= text::texts(y@));
    true
}

/// Where the first character that is no separator and no `.` component stands.
fn noise_end(chars: &Vec<char>, start: usize) -> (end: usize)
    requires
        start <= chars@.len(),
    ensures
        start <= end <= chars@.len(),
        chars@.skip(end as int) == without_noise(chars@.skip(start as int)),
{
    let mut i = start;
    while i < chars.len() && (chars[i] == '/' || (chars[i] == '.' && (i + 1 == chars.len()
        || chars[i + 1] == '/')))
        invariant
            start <= i <= chars@.len(),
            without_noise(chars@.skip(start as int)) == without_noise(chars@.skip(i as int)),
        decreases chars@.len() - i,
    {
        assert(chars@.skip(i as int).skip(1) =~= chars@.skip(i + 1));
        i += 1;
    }
    i
}

/// What is left of `p` seen from `base`, where `p` lies in `base`.
pub fn strip_base(p: &str, base: &str) -> (rest: Option<String>)
    ensures
        text::text_option(rest) == relative_to(p@, base@),
{
    let x = components_of(p);
    let y = components_of(base);
    let n = y.len();
    if n > x.len() || !begins_with(&x, &y) {
        return None;
    }
    let chars = chars_of(p);
    let mut at: usize = 0;
    if n > 0 {
        let first_end = head_end(&chars, 0);
        assert(chars@.skip(0) =~= chars@);
        if chars.len() > 0 && chars[0] == '/' {
            at = 1;
        } else if first_end == 1 && chars[0] == '.' {
            assert(p@.take(1) =~= seq!['.']);
            at = 1;
        } else {
            assert(p@.take(head_len(p@) as int) != seq!['.']) by {
                if p@.take(head_len(p@) as int) == seq!['.'] {
                    assert(p@.take(head_len(p@) as int).len() == 1);
                    assert(p@.take(1)[0] == p@[0]);
                }
            }
            at = first_end;
        }
        let mut k: usize = 1;
        while k < n
            invariant
                1 <= k <= n,
                at <= chars@.len(),
                chars@ == p@,
                chars@.skip(at as int) == beyond(p@, k as nat),
            decreases n - k,
        {
            let start = noise_end(&chars, at);
            at = head_end(&chars, start);
            assert(chars@.skip(start as int).skip(at - start) =~= chars@.skip(at as int));
            k += 1;
        }
        at = noise_end(&chars, at);
    }
    let rest = text_of(chars.as_slice(), at, chars.len());
    assert(rest@ =~= chars@.skip(at as int));
    assert(n == 0 ==> rest@ =~= p@);
    let rest_chars = chars_of(rest.as_str());
    let m = trimmed_len(&rest_chars);
    assert(rest_chars@.subrange(0, m as int) =~= rest_chars@.take(m as int));
    Some(text_of(rest_chars.as_slice(), 0, m))
}

/// Whether a path is in a list.
pub open spec fn listed(list: Seq<Seq<char>>, p: Seq<char>) -> bool {
    exists|i: int|
        0 <= i < list.len() && components(#[trigger] list[i]) == components(p)
}

/// Whether a path is in a list.
pub fn is_listed(list: &[String], p: &str) -> (yes: bool)
    ensures
        yes == listed(text::texts(list@), p@),
{
    let ghost all = text::texts(list@);
    let mut i: usize = 0;
    while i < list.len()
        invariant
            i <= list@.len(),
            all == text::texts(list@),
            forall|j: int|
                0 <= j < i ==> components(#[trigger] all[j]) != components(p@),
        decreases list@.len() - i,
    {
        if same_path(list[i].as_str(), p) {
            assert(components(all[i as int]) == components(p@));
            return true;
        }
        i += 1;
    }
    false
}

/// The first separator ends the head.
pub proof fn head_is(p: Seq<char>, n: int)
    requires
        0 <= n <= p.len(),
        forall|i: int| 0 <= i < n ==> p[i] != '/',
        n < p.len() ==> p[n] == '/',
    ensures
        head_len(p) == n,
{
    head_len_bound(p);
    let m = head_len(p) as int;
    if m < n {
        assert(p[m] == '/');
    } else if n < m {
        assert(p[n] != '/');
    }
}

/// What stands on both sides of a separator names what it names on its own.
proof fn parts_split(a: Seq<char>, b: Seq<char>)
    ensures
        named_parts(a + seq!['/'] + b) == named_parts(a) + named_parts(b),
    decreases a.len(),
{
    let whole = a + seq!['/'] + b;
    head_len_bound(a);
    let n = head_len(a) as int;
    assert forall|i: int| 0 <= i < n implies whole[i] != '/' by {
        assert(whole[i] == a[i]);
    }
    assert(whole[n] == '/');
    head_is(whole, n);
    assert(whole.take(n) =~= a.take(n));
    let first = if names(a.take(n)) {
        seq![a.take(n)]
    } else {
        Seq::empty()
    };
    if n == a.len() {
        assert(whole.skip(n + 1) =~= b);
    } else {
        parts_split(a.skip(n + 1), b);
        assert(whole.skip(n + 1) =~= a.skip(n + 1) + seq!['/'] + b);
        assert(first + (named_parts(a.skip(n + 1)) + named_parts(b)) =~= (first + named_parts(
            a.skip(n + 1),
        )) + named_parts(b));
    }
}

/// A relative path seen from a base is the base with what the path names behind
/// it.
pub proof fn law_joining_appends(base: Seq<char>, p: Seq<char>)
    requires
        base.len() > 0,
        !absolute(p),
    ensures
        components(joined(base, p)) == components(base) + named_parts(p),
{
    let whole = joined(base, p);
    head_len_bound(base);
    let n = head_len(base) as int;
    let empty = Seq::<char>::empty();
    assert(named_parts(empty) =~= Seq::empty()) by {
        assert(empty.take(0) =~= empty);
    }
    if base.last() == '/' {
        let stem = base.drop_last();
        assert(base =~= stem + seq!['/'] + empty);
        assert(whole =~= stem + seq!['/'] + p);
        parts_split(stem, empty);
        parts_split(stem, p);
        assert(named_parts(stem) + Seq::<Seq<char>>::empty() =~= named_parts(stem));
        assert(n < base.len()) by {
            if n == base.len() {
                assert(base[base.len() - 1] != '/');
            }
        }
    } else {
        assert(whole =~= base + seq!['/'] + p);
        parts_split(base, p);
    }
    assert forall|i: int| 0 <= i < n implies whole[i] != '/' by {
        assert(whole[i] == base[i]);
    }
    assert(whole[n] == '/') by {
        if n < base.len() {
            assert(whole[n] == base[n]);
        }
    }
    head_is(whole, n);
    assert(whole.take(n) =~= base.take(n));
    assert(whole[0] == base[0]);
    assert(anchor(whole) == anchor(base));
    assert(anchor(base) + (named_parts(base) + named_parts(p)) =~= components(base) + named_parts(
        p,
    ));
}

/// A relative path seen from a base lies inside that base.
pub proof fn law_joined_paths_lie_inside(base: Seq<char>, p: Seq<char>)
    requires
        !absolute(p),
    ensures
        components(base).is_prefix_of(components(joined(base, p))),
        relative_to(joined(base, p), base) is Some,
{
    let whole = components(joined(base, p));
    if base.len() > 0 {
        law_joining_appends(base, p);
    } else {
        assert(base =~= Seq::empty());
        assert(base.take(0) =~= Seq::<char>::empty());
        assert(components(base) =~= Seq::empty());
    }
    assert(components(base) =~= whole.subrange(0, components(base).len() as int));
}

/// A separator at the start names nothing.
proof fn leading_separator_names_nothing(p: Seq<char>)
    requires
        p.len() > 0,
        p[0] == '/',
    ensures
        named_parts(p) == named_parts(p.skip(1)),
{
    head_is(p, 0);
    assert(p.take(0) =~= Seq::<char>::empty());
    assert(Seq::<Seq<char>>::empty() + named_parts(p.skip(1)) =~= named_parts(p.skip(1)));
}

/// A `.` at the start names nothing.
proof fn leading_dot_names_nothing(p: Seq<char>)
    requires
        p.len() > 0,
        p[0] == '.',
        p.len() == 1 || p[1] == '/',
    ensures
        named_parts(p) == named_parts(p.skip(1)),
{
    head_is(p, 1);
    assert(p.take(1) =~= seq!['.']);
    if p.len() > 1 {
        leading_separator_names_nothing(p.skip(1));
        assert(p.skip(1).skip(1) =~= p.skip(2));
        assert(Seq::<Seq<char>>::empty() + named_parts(p.skip(2)) =~= named_parts(p.skip(2)));
    } else {
        nothing_names_nothing(p.skip(1));
    }
}

proof fn nothing_names_nothing(p: Seq<char>)
    requires
        p.len() == 0,
    ensures
        named_parts(p) == Seq::<Seq<char>>::empty(),
{
    assert(p.take(0) =~= Seq::<char>::empty());
}

proof fn noise_names_nothing(p: Seq<char>)
    ensures
        named_parts(without_noise(p)) == named_parts(p),
        without_noise(p).len() > 0 ==> {
            &&& without_noise(p)[0] != '/'
            &&& !(without_noise(p)[0] == '.' && (without_noise(p).len() == 1 || without_noise(p)[1]
                == '/'))
        },
    decreases p.len(),
{
    if p.len() == 0 {
    } else if p[0] == '/' {
        leading_separator_names_nothing(p);
        noise_names_nothing(p.skip(1));
    } else if p[0] == '.' && (p.len() == 1 || p[1] == '/') {
        leading_dot_names_nothing(p);
        noise_names_nothing(p.skip(1));
    }
}

/// Behind a head that names something stands the rest of what a path names.
proof fn head_is_first_part(p: Seq<char>)
    requires
        p.len() > 0,
        p[0] != '/',
        !(p[0] == '.' && (p.len() == 1 || p[1] == '/')),
    ensures
        named_parts(p).len() > 0,
        named_parts(p.skip(head_len(p) as int)) == named_parts(p).skip(1),
{
    head_len_bound(p);
    let n = head_len(p) as int;
    let head = p.take(n);
    assert(n > 0);
    assert(head != seq!['.']) by {
        if head == seq!['.'] {
            assert(head.len() == 1 && head[0] == p[0]);
        }
    }
    assert(names(head));
    if n == p.len() {
        nothing_names_nothing(p.skip(n));
        assert(named_parts(p) =~= seq![head]);
        assert(named_parts(p).skip(1) =~= Seq::empty());
    } else {
        leading_separator_names_nothing(p.skip(n));
        assert(p.skip(n).skip(1) =~= p.skip(n + 1));
        assert((seq![head] + named_parts(p.skip(n + 1))).skip(1) =~= named_parts(p.skip(n + 1)));
    }
}

/// Behind the first components of a path stand the others.
proof fn beyond_names_the_rest(p: Seq<char>, n: nat)
    requires
        1 <= n <= components(p).len(),
    ensures
        named_parts(beyond(p, n)) == components(p).skip(n as int),
    decreases n,
{
    if n == 1 {
        if absolute(p) {
            leading_separator_names_nothing(p);
            assert(components(p).skip(1) =~= named_parts(p));
        } else if anchor(p).len() > 0 {
            head_len_bound(p);
            let m = head_len(p) as int;
            let head = p.take(m);
            let dot = seq!['.'];
            assert(head == dot);
            assert(dot.len() == 1 && dot[0] == '.');
            assert(head.len() == m);
            assert(m == 1);
            assert(head[0] == p[0]);
            leading_dot_names_nothing(p);
            assert(components(p).skip(1) =~= named_parts(p));
        } else {
            assert(components(p) =~= named_parts(p));
            if p.len() == 0 {
                nothing_names_nothing(p);
            }
            assert(!(p[0] == '.' && (p.len() == 1 || p[1] == '/'))) by {
                if p[0] == '.' && (p.len() == 1 || p[1] == '/') {
                    head_is(p, 1);
                    assert(p.take(1) =~= seq!['.']);
                }
            }
            head_is_first_part(p);
        }
    } else {
        let before = beyond(p, (n - 1) as nat);
        let rest = without_noise(before);
        beyond_names_the_rest(p, (n - 1) as nat);
        noise_names_nothing(before);
        assert(named_parts(rest).len() > 0);
        if rest.len() == 0 {
            nothing_names_nothing(rest);
        }
        head_is_first_part(rest);
        assert(components(p).skip(n - 1).skip(1) =~= components(p).skip(n as int));
    }
}

/// What is trimmed from the end of a path names nothing.
proof fn trimming_keeps_names(p: Seq<char>)
    ensures
        named_parts(trimmed(p)) == named_parts(p),
    decreases p.len(),
{
    let empty = Seq::<char>::empty();
    nothing_names_nothing(empty);
    if p.len() > 1 && p.last() == '/' {
        let stem = p.drop_last();
        assert(p =~= stem + seq!['/'] + empty);
        parts_split(stem, empty);
        assert(named_parts(stem) + Seq::<Seq<char>>::empty() =~= named_parts(stem));
        trimming_keeps_names(stem);
    } else if p.len() > 1 && p.last() == '.' && p[p.len() - 2] == '/' {
        let stem = p.drop_last();
        let root = stem.drop_last();
        let dot = seq!['.'];
        assert(p =~= root + seq!['/'] + dot);
        assert(stem =~= root + seq!['/'] + empty);
        parts_split(root, dot);
        parts_split(root, empty);
        leading_dot_names_nothing(dot);
        assert(dot.skip(1) =~= empty);
        trimming_keeps_names(stem);
    }
}

/// A path that is seen from a base and joined to that base again is the path it
/// was.
pub proof fn law_relative_paths_join_back(p: Seq<char>, base: Seq<char>)
    requires
        base.len() > 0,
    ensures
        relative_to(p, base) matches Some(rest) ==> components(joined(base, rest)) == components(p),
{
    if let Some(rest) = relative_to(p, base) {
        let n = components(base).len();
        if n == 0 {
            no_components_no_path(base);
        }
        let inner = without_noise(beyond(p, n));
        beyond_names_the_rest(p, n);
        noise_names_nothing(beyond(p, n));
        trimming_keeps_names(inner);
        trimmed_is_prefix(inner);
        assert(rest.len() > 0 ==> rest[0] == inner[0]) by {
            assert(rest =~= inner.subrange(0, rest.len() as int));
        }
        law_joining_appends(base, rest);
        assert(components(base) + components(p).skip(n as int) =~= components(p));
    }
}

proof fn no_components_no_path(p: Seq<char>)
    requires
        components(p).len() == 0,
    ensures
        p.len() == 0,
{
    if p.len() > 0 && !absolute(p) {
        if p[0] == '.' && (p.len() == 1 || p[1] == '/') {
            head_is(p, 1);
            assert(p.take(1) =~= seq!['.']);
        } else {
            head_is_first_part(p);
        }
    }
}

/// Trimming the end of a path does not change how it starts.
proof fn trimming_keeps_anchor(p: Seq<char>)
    ensures
        anchor(trimmed(p)) == anchor(p),
    decreases p.len(),
{
    if p.len() > 1 && (p.last() == '/' || (p.last() == '.' && p[p.len() - 2] == '/')) {
        let stem = p.drop_last();
        head_len_bound(p);
        let n = head_len(p) as int;
        assert(n < p.len()) by {
            if n == p.len() {
                assert(p[p.len() - 1] != '/');
                assert(p[p.len() - 2] != '/');
            }
        }
        assert(n <= stem.len());
        assert forall|i: int| 0 <= i < n implies stem[i] != '/' by {
            assert(stem[i] == p[i]);
        }
        head_is(stem, n);
        assert(stem.take(n) =~= p.take(n));
        assert(stem[0] == p[0]);
        trimming_keeps_anchor(stem);
    }
}

/// A trimmed path ends with something that it names, unless it is the root or
/// has no separator at all.
proof fn trimmed_ends_with_a_name(p: Seq<char>)
    ensures
        ({
            let t = trimmed(p);
            let k = last_index(t, '/');
            t.len() > 1 && k >= 0 ==> k < t.len() - 1 && t.skip(k + 1) != seq!['.']
        }),
    decreases p.len(),
{
    if p.len() > 1 && (p.last() == '/' || (p.last() == '.' && p[p.len() - 2] == '/')) {
        trimmed_ends_with_a_name(p.drop_last());
    } else {
        last_index_bound(p, '/');
        let k = last_index(p, '/');
        if p.len() > 1 && k >= 0 && p.skip(k + 1) == seq!['.'] {
            assert(p.skip(k + 1).len() == 1);
            assert(p.skip(k + 1)[0] == p.last());
        }
    }
}

/// The parent of a path is the path without its last component.
pub proof fn law_parent_drops_the_last_component(p: Seq<char>)
    ensures
        parent_of(p) matches Some(up) ==> {
            &&& components(p).len() > 0
            &&& components(up) == components(p).drop_last()
        },
{
    if let Some(up) = parent_of(p) {
        let t = trimmed(p);
        let k = last_index(t, '/');
        trimming_keeps_names(p);
        trimming_keeps_anchor(p);
        assert(components(t) == components(p));
        last_index_bound(t, '/');
        if k < 0 {
            head_is(t, t.len() as int);
            assert(t.take(t.len() as int) =~= t);
            nothing_names_nothing(up);
            assert(up.take(0) =~= Seq::<char>::empty());
            assert(components(up) =~= Seq::empty());
            assert(components(t) =~= seq![t]);
            assert(components(t).drop_last() =~= Seq::empty());
        } else {
            trimmed_ends_with_a_name(p);
            if t.len() == 1 {
                assert(t =~= seq!['/']);
            }
            let upper = t.take(k + 1);
            let stem = t.take(k);
            let name = t.skip(k + 1);
            let empty = Seq::<char>::empty();
            assert(t =~= stem + seq!['/'] + name);
            assert(upper =~= stem + seq!['/'] + empty);
            parts_split(stem, name);
            parts_split(stem, empty);
            nothing_names_nothing(empty);
            assert forall|i: int| 0 <= i < name.len() implies name[i] != '/' by {
                assert(name[i] == t[k + 1 + i]);
            }
            head_is(name, name.len() as int);
            assert(name.take(name.len() as int) =~= name);
            assert(named_parts(name) =~= seq![name]);
            assert(named_parts(upper) =~= named_parts(stem));
            trimming_keeps_names(upper);
            trimming_keeps_anchor(upper);
            head_len_bound(t);
            let n = head_len(t) as int;
            assert(n <= k) by {
                if n > k {
                    assert(t[k] != '/');
                }
            }
            assert forall|i: int| 0 <= i < n implies upper[i] != '/' by {
                assert(upper[i] == t[i]);
            }
            assert(upper[n] == t[n]);
            head_is(upper, n);
            assert(upper.take(n) =~= t.take(n));
            assert(upper[0] == t[0]);
            assert(anchor(upper) == anchor(t));
            assert(components(t) =~= (anchor(t) + named_parts(stem)).push(name));
            assert(components(t).drop_last() =~= anchor(t) + named_parts(stem));
        }
    }
}

/// Whether a text can stand between two separators and name something: it is
/// not empty, holds no separator and is no `.`.
pub open spec fn segment(name: Seq<char>) -> bool {
    &&& name.len() > 0
    &&& name != seq!['.']
    &&& forall|i: int| 0 <= i < name.len() ==> name[i] != '/'
}

/// Whether nothing at the end of a path can be left out: the end is neither a
/// separator nor a `.` component.
pub open spec fn ends_plainly(p: Seq<char>) -> bool {
    &&& p.len() > 0
    &&& p.last() != '/'
    &&& p.len() > 1 ==> !(p.last() == '.' && p[p.len() - 2] == '/')
}

proof fn segment_ends_plainly(dir: Seq<char>, name: Seq<char>)
    requires
        segment(name),
    ensures
        trimmed(name) == name,
        last_index(name, '/') == -1,
        trimmed(dir + seq!['/'] + name) == dir + seq!['/'] + name,
        last_index(dir + seq!['/'] + name, '/') == dir.len(),
        (dir + seq!['/'] + name).skip(dir.len() as int + 1) == name,
        (dir + seq!['/'] + name).take(dir.len() as int + 1) == dir + seq!['/'],
{
    let p = dir + seq!['/'] + name;
    last_index_bound(name, '/');
    last_index_bound(p, '/');
    assert(p[dir.len() as int] == '/');
    assert(p.last() == name.last());
    assert forall|i: int| dir.len() < i < p.len() implies p[i] != '/' by {
        assert(p[i] == name[i - dir.len() - 1]);
    }
    if p.last() == '.' && p[p.len() - 2] == '/' {
        assert(name.len() == 1) by {
            if name.len() > 1 {
                assert(p[p.len() - 2] == name[name.len() - 2]);
            }
        }
        assert(name =~= seq!['.']);
    }
    assert(name.len() > 1 ==> name[name.len() - 2] != '/');
    assert(name.skip(0) =~= name);
    assert(p.skip(dir.len() as int + 1) =~= name);
    assert(p.take(dir.len() as int + 1) =~= dir + seq!['/']);
}

/// The file name of a path is its last segment, and the parent what stands before
/// that: the root for a name in the root, nothing for a bare name. `..` is no
/// file name.
pub proof fn law_names_stand_behind_their_parent(dir: Seq<char>, name: Seq<char>)
    requires
        segment(name),
    ensures
        parent_of(name) == Some(Seq::<char>::empty()),
        parent_of(seq!['/'] + name) == Some(seq!['/']),
        ends_plainly(dir) ==> parent_of(dir + seq!['/'] + name) == Some(dir),
        name != seq!['.', '.'] ==> file_name_of(name) == Some(name) && file_name_of(
            dir + seq!['/'] + name,
        ) == Some(name),
        file_name_of(dir + seq!['/'] + seq!['.', '.']) is None,
{
    let p = dir + seq!['/'] + name;
    let empty = Seq::<char>::empty();
    segment_ends_plainly(dir, name);
    segment_ends_plainly(empty, name);
    segment_ends_plainly(dir, seq!['.', '.']);
    assert(name.skip(0) =~= name);
    assert(name != seq!['/']) by {
        assert(name[0] != '/');
    }
    assert(p != seq!['/'] && p.len() > 1);
    let q = seq!['/'] + name;
    assert(q =~= empty + seq!['/'] + name);
    assert(empty + seq!['/'] =~= seq!['/']);
    assert(trimmed(seq!['/']) == seq!['/']);
    assert(q.len() > 1);
    if ends_plainly(dir) {
        let upper = dir + seq!['/'];
        assert(upper.drop_last() =~= dir);
        assert(trimmed(upper) == trimmed(dir));
        assert(trimmed(dir) == dir);
    }
}

/// The root and the empty path have neither a parent nor a file name.
pub proof fn law_the_root_has_no_parent()
    ensures
        parent_of(seq!['/']) is None,
        parent_of(Seq::empty()) is None,
        file_name_of(seq!['/']) is None,
        file_name_of(Seq::empty()) is None,
{
    let root = seq!['/'];
    assert(last_index(root, '/') == 0);
    assert(root.skip(1) =~= Seq::empty());
    assert(Seq::<char>::empty().skip(0) =~= Seq::<char>::empty());
}

/// Separators and `.` components at the end of a path do not count.
pub proof fn law_trailing_separators_do_not_count(p: Seq<char>)
    requires
        p.len() > 0,
    ensures
        parent_of(p + seq!['/']) == parent_of(p),
        file_name_of(p + seq!['/']) == file_name_of(p),
        extension_of(p + seq!['/']) == extension_of(p),
        parent_of(p + seq!['/', '.']) == parent_of(p),
        file_name_of(p + seq!['/', '.']) == file_name_of(p),
        extension_of(p + seq!['/', '.']) == extension_of(p),
{
    let q = p + seq!['/'];
    let r = p + seq!['/', '.'];
    assert(q.drop_last() =~= p);
    assert(trimmed(q) == trimmed(p));
    assert(r.drop_last() =~= q);
    assert(r.last() == '.' && r[r.len() - 2] == '/');
    assert(trimmed(r) == trimmed(q));
}

/// The extension is what follows the last dot of the file name.
pub proof fn law_extensions_follow_the_last_dot(dir: Seq<char>, stem: Seq<char>, ext: Seq<char>)
    requires
        stem.len() > 0,
        forall|i: int| 0 <= i < stem.len() ==> stem[i] != '/',
        forall|i: int| 0 <= i < ext.len() ==> ext[i] != '/' && ext[i] != '.',
        stem != seq!['.'] || ext.len() > 0,
    ensures
        extension_of(stem + seq!['.'] + ext) == Some(ext),
        extension_of(dir + seq!['/'] + (stem + seq!['.'] + ext)) == Some(ext),
{
    let name = stem + seq!['.'] + ext;
    assert forall|i: int| 0 <= i < name.len() implies name[i] != '/' by {
        if i < stem.len() {
            assert(name[i] == stem[i]);
        } else if i > stem.len() {
            assert(name[i] == ext[i - stem.len() - 1]);
        }
    }
    assert(name.len() >= 2);
    assert(name != seq!['.', '.']) by {
        if name == seq!['.', '.'] {
            assert(name.len() == 2);
            if ext.len() == 0 {
                assert(stem[0] == name[0]);
                assert(stem =~= seq!['.']);
            }
        }
    }
    law_names_stand_behind_their_parent(dir, name);
    let d = last_index(name, '.');
    last_index_bound(name, '.');
    assert(name[stem.len() as int] == '.');
    assert(d >= stem.len());
    if d > stem.len() {
        assert(name[d] == ext[d - stem.len() - 1]);
    }
    assert(name.skip(stem.len() as int + 1) =~= ext);
}

/// A file name without a dot has no extension, and neither has one whose only
/// dot comes first: a hidden file.
pub proof fn law_hidden_files_have_no_extension(dir: Seq<char>, name: Seq<char>)
    requires
        segment(name),
        forall|i: int| 0 < i < name.len() ==> name[i] != '.',
    ensures
        extension_of(name) is None,
        extension_of(dir + seq!['/'] + name) is None,
{
    if name == seq!['.', '.'] {
        assert(name[1] == '.');
    }
    law_names_stand_behind_their_parent(dir, name);
    last_index_bound(name, '.');
}

/// Joining puts one separator between two texts, unless the first is empty or
/// ends with one already. A path from the root stands for itself.
pub proof fn law_joining_adds_one_separator(base: Seq<char>, p: Seq<char>)
    ensures
        p.len() > 0 && p[0] == '/' ==> joined(base, p) == p,
        (p.len() == 0 || p[0] != '/') && base.len() == 0 ==> joined(base, p) == p,
        (p.len() == 0 || p[0] != '/') ==> joined(base.push('/'), p) == base + seq!['/'] + p,
        (p.len() == 0 || p[0] != '/') && base.len() > 0 && base.last() != '/' ==> joined(base, p)
            == base + seq!['/'] + p,
{
    assert(base.len() == 0 ==> base + p =~= p);
    assert(base.push('/') + p =~= base + seq!['/'] + p);
}

/// A path names what its segments name: those on both sides of a separator, in
/// order, where an empty one and a `.` name nothing. Two texts are the same path
/// where they name the same and start alike: at the root, at a leading `.`, or at
/// neither.
pub proof fn law_paths_name_their_segments(a: Seq<char>, b: Seq<char>, name: Seq<char>)
    requires
        forall|i: int| 0 <= i < name.len() ==> name[i] != '/',
    ensures
        named_parts(a + seq!['/'] + b) == named_parts(a) + named_parts(b),
        named_parts(name) == (if name.len() == 0 || name == seq!['.'] {
            Seq::empty()
        } else {
            seq![name]
        }),
        components(seq!['/'] + a) == seq![seq!['/']] + named_parts(a),
        components(seq!['.']) == seq![seq!['.']],
        components(seq!['.', '/'] + a) == seq![seq!['.']] + named_parts(a),
        segment(name) ==> {
            &&& components(name) == seq![name]
            &&& components(name + seq!['/'] + b) == seq![name] + named_parts(b)
        },
        components(Seq::<char>::empty()) == Seq::<Seq<char>>::empty(),
{
    let empty = Seq::<char>::empty();
    parts_split(a, b);
    head_is(name, name.len() as int);
    assert(name.take(name.len() as int) =~= name);
    nothing_names_nothing(empty);
    let rooted = seq!['/'] + a;
    assert(rooted =~= empty + seq!['/'] + a);
    parts_split(empty, a);
    assert(named_parts(empty) + named_parts(a) =~= named_parts(a));
    let dot = seq!['.'];
    head_is(dot, 1);
    assert(dot.take(1) =~= dot);
    assert(named_parts(dot) =~= Seq::<Seq<char>>::empty());
    let here = seq!['.', '/'] + a;
    assert(here =~= dot + seq!['/'] + a);
    parts_split(dot, a);
    head_is(here, 1);
    assert(here.take(1) =~= dot);
    assert(named_parts(dot) + named_parts(a) =~= named_parts(a));
    assert(components(dot) =~= seq![dot]);
    if segment(name) {
        assert(components(name) =~= seq![name]);
        let longer = name + seq!['/'] + b;
        parts_split(name, b);
        assert forall|i: int| 0 <= i < name.len() implies longer[i] != '/' by {
            assert(longer[i] == name[i]);
        }
        assert(longer[name.len() as int] == '/');
        head_is(longer, name.len() as int);
        assert(longer.take(name.len() as int) =~= name);
        assert(longer[0] == name[0]);
        assert(components(longer) =~= seq![name] + named_parts(b));
    }
    assert(empty.take(0) =~= empty);
    assert(components(empty) =~= Seq::<Seq<char>>::empty());
}

/// A path is seen from a base exactly where the base's components are the first
/// of its own.
pub proof fn law_only_paths_inside_are_relative(p: Seq<char>, base: Seq<char>)
    ensures
        relative_to(p, base) is Some <==> {
            &&& components(base).len() <= components(p).len()
            &&& components(p).take(components(base).len() as int) == components(base)
        },
{
    let own = components(base);
    let all = components(p);
    if own.len() <= all.len() {
        assert(all.subrange(0, own.len() as int) =~= all.take(own.len() as int));
    }
}

/// What is left of a path that is seen from a base starts and ends with a name:
/// with neither a separator nor a `.` component.
pub proof fn law_relative_paths_are_relative(p: Seq<char>, base: Seq<char>)
    requires
        base.len() > 0,
    ensures
        relative_to(p, base) matches Some(rest) ==> {
            &&& rest.len() > 0 ==> rest[0] != '/'
            &&& !(rest.len() > 0 && rest[0] == '.' && (rest.len() == 1 || rest[1] == '/'))
            &&& rest.len() > 0 ==> ends_plainly(rest)
        },
{
    if let Some(rest) = relative_to(p, base) {
        let n = components(base).len();
        if n == 0 {
            no_components_no_path(base);
        }
        let inner = without_noise(beyond(p, n));
        noise_names_nothing(beyond(p, n));
        trimmed_is_prefix(inner);
        nothing_more_is_trimmed(inner);
        assert(rest =~= inner.subrange(0, rest.len() as int));
        if rest.len() > 0 {
            assert(rest[0] == inner[0]);
            if rest.len() > 1 {
                assert(rest[1] == inner[1]);
            } else if rest[0] == '.' && inner.len() > 1 {
                trimmed_keeps_dots(inner);
            }
        }
    }
}

/// Trimming leaves no lone dot where a longer name starts.
proof fn trimmed_keeps_dots(p: Seq<char>)
    requires
        p.len() > 1,
        p[0] == '.',
        p[1] != '/',
    ensures
        trimmed(p).len() > 1,
    decreases p.len(),
{
    if p.len() == 2 {
        assert(p.last() == p[1]);
        assert(p[p.len() - 2] == '.');
    } else if p.last() == '/' || (p.last() == '.' && p[p.len() - 2] == '/') {
        let stem = p.drop_last();
        assert(stem[0] == p[0] && stem[1] == p[1]);
        trimmed_keeps_dots(stem);
    }
}

proof fn noise_ends_alike(p: Seq<char>, s: Seq<char>)
    requires
        s.len() > 0,
        s[0] == '/',
    ensures
        without_noise(p).len() > 0 ==> without_noise(p + s) == without_noise(p) + s,
        without_noise(p).len() == 0 ==> without_noise(p + s) == without_noise(s),
    decreases p.len(),
{
    let all = p + s;
    if p.len() == 0 {
        assert(all =~= s);
    } else {
        assert(all[0] == p[0]);
        assert(all.skip(1) =~= p.skip(1) + s);
        if p.len() > 1 {
            assert(all[1] == p[1]);
        } else {
            assert(all[1] == s[0]);
        }
        if p[0] == '/' || (p[0] == '.' && (p.len() == 1 || p[1] == '/')) {
            noise_ends_alike(p.skip(1), s);
        }
    }
}

proof fn beyond_goes_on(base: Seq<char>, s: Seq<char>, n: nat)
    requires
        s.len() > 0,
        s[0] == '/',
        base.len() > 0,
        1 <= n <= components(base).len(),
    ensures
        beyond(base + s, n) == beyond(base, n) + s,
    decreases n,
{
    let p = base + s;
    if n == 1 {
        head_len_bound(base);
        let h = head_len(base) as int;
        assert forall|i: int| 0 <= i < h implies p[i] != '/' by {
            assert(p[i] == base[i]);
        }
        assert(p[h] == '/') by {
            if h < base.len() {
                assert(p[h] == base[h]);
            } else {
                assert(p[h] == s[0]);
            }
        }
        head_is(p, h);
        assert(p.take(h) =~= base.take(h));
        assert(p[0] == base[0]);
        assert(anchor(p) == anchor(base));
        assert(p.skip(1) =~= base.skip(1) + s);
        assert(p.skip(h) =~= base.skip(h) + s);
    } else {
        let m = (n - 1) as nat;
        beyond_goes_on(base, s, m);
        beyond_names_the_rest(base, m);
        let before = beyond(base, m);
        noise_names_nothing(before);
        let rest = without_noise(before);
        assert(named_parts(rest).len() > 0);
        if rest.len() == 0 {
            nothing_names_nothing(rest);
        }
        noise_ends_alike(before, s);
        head_len_bound(rest);
        let h = head_len(rest) as int;
        let longer = rest + s;
        assert forall|i: int| 0 <= i < h implies longer[i] != '/' by {
            assert(longer[i] == rest[i]);
        }
        assert(longer[h] == '/') by {
            if h < rest.len() {
                assert(longer[h] == rest[h]);
            } else {
                assert(longer[h] == s[0]);
            }
        }
        head_is(longer, h);
        assert(longer.skip(h) =~= rest.skip(h) + s);
    }
}

/// A path below a base is seen from there as what stands behind the base and a
/// separator.
pub proof fn law_paths_below_a_base_are_seen_from_it(base: Seq<char>, rest: Seq<char>)
    requires
        base.len() > 0,
        base == seq!['/'] || base.last() != '/',
        ends_plainly(rest),
        rest[0] != '/',
        !(rest[0] == '.' && (rest.len() == 1 || rest[1] == '/')),
    ensures
        relative_to(joined(base, rest), base) == Some(rest),
{
    let p = joined(base, rest);
    law_joined_paths_lie_inside(base, rest);
    let n = components(base).len();
    if n == 0 {
        no_components_no_path(base);
    }
    assert(without_noise(rest) == rest);
    assert(trimmed(rest) == rest);
    if base == seq!['/'] {
        assert(p =~= base + rest);
        let none = Seq::<char>::empty();
        nothing_names_nothing(none);
        head_is(base, 0);
        assert(base.skip(1) =~= none);
        assert(base.take(0) =~= none);
        leading_separator_names_nothing(base);
        assert(components(base) =~= seq![seq!['/']]);
        assert(p.skip(1) =~= rest);
        assert(beyond(p, 1) == rest);
    } else {
        let s = seq!['/'] + rest;
        assert(p =~= base + s);
        beyond_goes_on(base, s, n);
        beyond_names_the_rest(base, n);
        let tail = beyond(base, n);
        assert(named_parts(tail) =~= Seq::<Seq<char>>::empty());
        noise_names_nothing(tail);
        let core = without_noise(tail);
        if core.len() > 0 {
            head_is_first_part(core);
        }
        noise_ends_alike(tail, s);
        assert(s.skip(1) =~= rest);
        assert(without_noise(s) == without_noise(rest));
    }
}

proof fn nothing_more_is_trimmed(p: Seq<char>)
    ensures
        ({
            let t = trimmed(p);
            t.len() > 1 ==> t.last() != '/' && !(t.last() == '.' && t[t.len() - 2] == '/')
        }),
    decreases p.len(),
{
    if p.len() > 1 && (p.last() == '/' || (p.last() == '.' && p[p.len() - 2] == '/')) {
        nothing_more_is_trimmed(p.drop_last());
    }
}

} // verus!
