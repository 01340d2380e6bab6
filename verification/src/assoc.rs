//! Lists of named values, in the order in which the names came.

use vstd::prelude::*;

use crate::text::{copy_of, same_text};

verus! {

/// Where `key` first stands in a list; its length where the key is missing.
pub open spec fn position<V>(list: Seq<(Seq<char>, V)>, key: Seq<char>) -> nat
    decreases list.len(),
{
    if list.len() == 0 || list[0].0 == key {
        0
    } else {
        1 + position(list.skip(1), key)
    }
}

/// Whether a list names `key`.
pub open spec fn has_key<V>(list: Seq<(Seq<char>, V)>, key: Seq<char>) -> bool {
    position(list, key) < list.len()
}

/// The value that stands first under `key`.
pub open spec fn lookup<V>(list: Seq<(Seq<char>, V)>, key: Seq<char>) -> Option<V> {
    if has_key(list, key) {
        Some(list[position(list, key) as int].1)
    } else {
        None
    }
}

/// The list with `value` under `key`: in place of the value that was there, or
/// at the end.
pub open spec fn put<V>(list: Seq<(Seq<char>, V)>, key: Seq<char>, value: V) -> Seq<
    (Seq<char>, V),
> {
    if has_key(list, key) {
        list.update(position(list, key) as int, (key, value))
    } else {
        list.push((key, value))
    }
}

/// The list without the first value under `key`.
pub open spec fn without<V>(list: Seq<(Seq<char>, V)>, key: Seq<char>) -> Seq<(Seq<char>, V)> {
    if has_key(list, key) {
        list.remove(position(list, key) as int)
    } else {
        list
    }
}

/// Whether no name stands twice in a list.
pub open spec fn distinct<V>(list: Seq<(Seq<char>, V)>) -> bool {
    forall|i: int, j: int| 0 <= i < j < list.len() ==> #[trigger] list[i].0 != #[trigger] list[j].0
}

/// `position` is the first place where the key stands.
pub proof fn position_is_first<V>(list: Seq<(Seq<char>, V)>, key: Seq<char>)
    ensures
        position(list, key) <= list.len(),
        has_key(list, key) ==> list[position(list, key) as int].0 == key,
        forall|i: int| 0 <= i < position(list, key) ==> #[trigger] list[i].0 != key,
    decreases list.len(),
{
    if list.len() == 0 || list[0].0 == key {
    } else {
        position_is_first(list.skip(1), key);
        assert forall|i: int| 0 <= i < position(list, key) implies #[trigger] list[i].0 != key by {
            if i > 0 {
                assert(list.skip(1)[i - 1] == list[i]);
            }
        }
    }
}

/// The first place where a key stands is its position.
pub proof fn first_is_position<V>(list: Seq<(Seq<char>, V)>, key: Seq<char>, at: int)
    requires
        0 <= at <= list.len(),
        at < list.len() ==> list[at].0 == key,
        forall|i: int| 0 <= i < at ==> #[trigger] list[i].0 != key,
    ensures
        position(list, key) == at,
{
    position_is_first(list, key);
    let p = position(list, key) as int;
    if p < at {
        assert(list[p].0 != key);
    } else if at < p {
        assert(list[at].0 != key);
    }
}

/// What was put under a key is found there, what stands under other keys stays,
/// and names stay distinct.
pub proof fn put_is_found<V>(list: Seq<(Seq<char>, V)>, key: Seq<char>, value: V)
    ensures
        lookup(put(list, key, value), key) == Some(value),
        forall|other: Seq<char>|
            other != key ==> lookup(put(list, key, value), other) == #[trigger] lookup(list, other),
        distinct(list) ==> distinct(put(list, key, value)),
{
    position_is_first(list, key);
    let new = put(list, key, value);
    let p = position(list, key) as int;
    assert forall|i: int| 0 <= i < p implies #[trigger] new[i].0 != key by {
        assert(list[i].0 != key);
    }
    first_is_position(new, key, p);
    assert forall|other: Seq<char>| other != key implies lookup(new, other) == #[trigger] lookup(
        list,
        other,
    ) by {
        position_is_first(list, other);
        let q = position(list, other) as int;
        assert forall|i: int| 0 <= i < q implies #[trigger] new[i].0 != other by {
            assert(list[i].0 != other);
        }
        if q < list.len() {
            first_is_position(new, other, q);
        } else {
            assert(forall|i: int| 0 <= i < list.len() ==> #[trigger] list[i].0 != other);
            assert forall|i: int| 0 <= i < new.len() implies #[trigger] new[i].0 != other by {
                if i < list.len() {
                    assert(list[i].0 != other);
                }
            }
            first_is_position(new, other, new.len() as int);
        }
    }
    if distinct(list) {
        assert forall|i: int, j: int| 0 <= i < j < new.len() implies #[trigger] new[i].0
            != #[trigger] new[j].0 by {
            if j < list.len() {
                assert(list[i].0 != list[j].0);
            } else {
                assert(list[i].0 != key);
            }
        }
    }
}

/// What was taken out is gone, what stands under other keys stays, and names
/// stay distinct.
pub proof fn removed_is_gone<V>(list: Seq<(Seq<char>, V)>, key: Seq<char>)
    requires
        distinct(list),
    ensures
        lookup(without(list, key), key) is None,
        forall|other: Seq<char>|
            other != key ==> lookup(without(list, key), other) == #[trigger] lookup(list, other),
        distinct(without(list, key)),
{
    position_is_first(list, key);
    let p = position(list, key) as int;
    let new = without(list, key);
    if p < list.len() {
        assert forall|i: int| 0 <= i < new.len() implies #[trigger] new[i].0 != key by {
            if i < p {
                assert(list[i].0 != list[p].0);
            } else {
                assert(new[i] == list[i + 1]);
                assert(list[p].0 != list[i + 1].0);
            }
        }
        first_is_position(new, key, new.len() as int);
        assert forall|i: int, j: int| 0 <= i < j < new.len() implies #[trigger] new[i].0
            != #[trigger] new[j].0 by {
            let a = if i < p {
                i
            } else {
                i + 1
            };
            let b = if j < p {
                j
            } else {
                j + 1
            };
            assert(new[i] == list[a] && new[j] == list[b]);
            assert(list[a].0 != list[b].0);
        }
        assert forall|other: Seq<char>| other != key implies lookup(new, other)
            == #[trigger] lookup(list, other) by {
            position_is_first(list, other);
            let q = position(list, other) as int;
            let r = if q < p {
                q
            } else {
                q - 1
            };
            assert(q != p);
            assert forall|i: int| 0 <= i < r implies #[trigger] new[i].0 != other by {
                if i < p {
                    assert(list[i].0 != other);
                } else {
                    assert(new[i] == list[i + 1]);
                    assert(list[i + 1].0 != other);
                }
            }
            first_is_position(new, other, r);
        }
    }
}

/// What a list of named values holds.
pub open spec fn entries<V: View>(list: Seq<(String, V)>) -> Seq<(Seq<char>, V::V)> {
    list.map_values(|entry: (String, V)| (entry.0@, entry.1@))
}

/// Where a name first stands in a list; the list's length where it is missing.
pub fn find<V: View>(list: &Vec<(String, V)>, key: &str) -> (at: usize)
    ensures
        at <= list@.len(),
        at == position(entries(list@), key@),
{
    let ghost held = entries(list@);
    let mut i: usize = 0;
    while i < list.len()
        invariant
            i <= list@.len(),
            held == entries(list@),
            forall|j: int| 0 <= j < i ==> #[trigger] held[j].0 != key@,
        decreases list@.len() - i,
    {
        if same_text(list[i].0.as_str(), key) {
            proof {
                first_is_position(held, key@, i as int);
            }
            return i;
        }
        i += 1;
    }
    proof {
        first_is_position(held, key@, i as int);
    }
    i
}

/// Puts a value under a name.
pub fn insert<V: View>(list: &mut Vec<(String, V)>, key: &str, value: V)
    ensures
        entries(final(list)@) == put(entries(old(list)@), key@, value@),
{
    let ghost before = entries(list@);
    let ghost entry = (key@, value@);
    let at = find(list, key);
    if at < list.len() {
        list.set(at, (copy_of(key), value));
        assert(entries(list@) =~= before.update(at as int, entry));
    } else {
        list.push((copy_of(key), value));
        assert(entries(list@) =~= before.push(entry));
    }
}

/// Takes the value under a name out.
pub fn remove<V: View>(list: &mut Vec<(String, V)>, key: &str)
    ensures
        entries(final(list)@) == without(entries(old(list)@), key@),
{
    let ghost before = entries(list@);
    let at = find(list, key);
    if at < list.len() {
        list.remove(at);
        assert(entries(list@) =~= before.remove(at as int));
    }
}

/// A value that is put takes the place of the one under its key, or comes last;
/// the order of the keys stays. One that is taken out leaves the others as they
/// were.
pub proof fn law_order_is_kept<V>(
    list: Seq<(Seq<char>, V)>,
    key: Seq<char>,
    value: V,
    at: int,
)
    requires
        0 <= at <= list.len(),
        at < list.len() ==> list[at].0 == key,
        forall|i: int| 0 <= i < at ==> #[trigger] list[i].0 != key,
    ensures
        put(list, key, value) == if at < list.len() {
            list.take(at) + seq![(key, value)] + list.skip(at + 1)
        } else {
            list + seq![(key, value)]
        },
        without(list, key) == if at < list.len() {
            list.take(at) + list.skip(at + 1)
        } else {
            list
        },
        lookup(list, key) == if at < list.len() {
            Some(list[at].1)
        } else {
            None
        },
{
    first_is_position(list, key, at);
    if at < list.len() {
        assert(put(list, key, value) =~= list.take(at) + seq![(key, value)] + list.skip(at + 1));
        assert(without(list, key) =~= list.take(at) + list.skip(at + 1));
    } else {
        assert(put(list, key, value) =~= list + seq![(key, value)]);
    }
}

/// A list of named values is seen entry by entry.
pub proof fn law_lists_are_seen_entry_by_entry<V: View>(list: Seq<(String, V)>, i: int)
    requires
        0 <= i < list.len(),
    ensures
        entries(list).len() == list.len(),
        entries(list)[i] == (list[i].0@, list[i].1@),
{
}

} // verus!
