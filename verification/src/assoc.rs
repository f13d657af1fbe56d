//! Sorted association vectors keyed by strings.
//!
//! Relation tables and the resolution engine's enabled-map are stored as
//! vectors of key-value pairs, kept strictly sorted by the lexicographic
//! order on the key.  At the specification level such a vector denotes a
//! [`Map`] from character sequences to values ([`assoc_map`]); insertion
//! maintains sortedness and overwrites an existing entry, mirroring what a
//! tree- or hash-based map would do.

use vstd::prelude::*;

use crate::iter::assoc_lookup;
use crate::iter::keys_sorted;
use crate::order::lemma_lex_equiv_is_eq;
use crate::order::lemma_lex_lt_irreflexive;
use crate::order::lemma_lex_lt_transitive;
use crate::order::lex_lt;
use crate::order::KeyOrdering;
use crate::order::OrderedKey;

verus! {

/// The keys of a string-keyed association sequence are strictly ascending
/// in lexicographic order (and therefore unique).
pub open spec fn str_keys_sorted<V>(s: Seq<(String, V)>) -> bool {
    forall|i: int, j: int| 0 <= i < j < s.len() ==> lex_lt(s[i].0@, s[j].0@)
}

/// The map denoted by an association sequence; a later entry for the same
/// key shadows an earlier one.
pub open spec fn assoc_map<V>(s: Seq<(String, V)>) -> Map<Seq<char>, V>
    decreases s.len(),
{
    if s.len() == 0 {
        Map::empty()
    } else {
        assoc_map(s.drop_last()).insert(s.last().0@, s.last().1)
    }
}

/// String-key sortedness is key sortedness under the lexicographic order.
pub proof fn lemma_str_keys_sorted<V>(s: Seq<(String, V)>)
    ensures
        str_keys_sorted(s) == keys_sorted(s),
{
    if str_keys_sorted(s) {
        assert forall|i: int, j: int| 0 <= i < j < s.len() implies s[i].0.lt_spec(&s[j].0) by {
            assert(lex_lt(s[i].0@, s[j].0@));
        }
    }
    if keys_sorted(s) {
        assert forall|i: int, j: int| 0 <= i < j < s.len() implies lex_lt(s[i].0@, s[j].0@) by {
            assert(s[i].0.lt_spec(&s[j].0));
        }
    }
}

/// A key occurs in the denoted map exactly when some entry carries it.
pub proof fn lemma_assoc_map_contains<V>(s: Seq<(String, V)>, k: Seq<char>)
    ensures
        assoc_map(s).contains_key(k) <==> exists|i: int| 0 <= i < s.len() && s[i].0@ == k,
    decreases s.len(),
{
    if s.len() > 0 {
        lemma_assoc_map_contains(s.drop_last(), k);
        if s.last().0@ == k {
            assert(s[s.len() - 1].0@ == k);
        }
        if assoc_map(s).contains_key(k) && s.last().0@ != k {
            let i = choose|i: int| 0 <= i < s.drop_last().len() && s.drop_last()[i].0@ == k;
            assert(s[i].0@ == k);
        }
        if exists|i: int| 0 <= i < s.len() && s[i].0@ == k {
            let i = choose|i: int| 0 <= i < s.len() && s[i].0@ == k;
            if i < s.len() - 1 {
                assert(s.drop_last()[i].0@ == k);
            }
        }
    }
}

/// An entry not followed by another entry with the same key gives the
/// denoted map's value for its key.
pub proof fn lemma_assoc_map_index<V>(s: Seq<(String, V)>, i: int)
    requires
        0 <= i < s.len(),
        forall|j: int| i < j < s.len() ==> s[j].0@ != s[i].0@,
    ensures
        assoc_map(s).contains_key(s[i].0@),
        assoc_map(s)[s[i].0@] == s[i].1,
    decreases s.len(),
{
    if i < s.len() - 1 {
        assert(s.drop_last()[i] == s[i]);
        lemma_assoc_map_index(s.drop_last(), i);
    }
}

/// In a sorted association sequence no later entry repeats an earlier key.
pub proof fn lemma_sorted_unique<V>(s: Seq<(String, V)>, i: int)
    requires
        str_keys_sorted(s),
        0 <= i < s.len(),
    ensures
        forall|j: int| i < j < s.len() ==> s[j].0@ != s[i].0@,
{
    assert forall|j: int| i < j < s.len() implies s[j].0@ != s[i].0@ by {
        if s[j].0@ == s[i].0@ {
            lemma_lex_lt_irreflexive(s[i].0@);
        }
    }
}

/// On a sorted association sequence, every entry gives the denoted map's
/// value for its key.
pub proof fn lemma_sorted_map_index<V>(s: Seq<(String, V)>, i: int)
    requires
        str_keys_sorted(s),
        0 <= i < s.len(),
    ensures
        assoc_map(s).contains_key(s[i].0@),
        assoc_map(s)[s[i].0@] == s[i].1,
{
    lemma_sorted_unique(s, i);
    lemma_assoc_map_index(s, i);
}

/// On a sorted association sequence, the recursive lookup agrees with the
/// denoted map.
pub proof fn lemma_assoc_lookup_is_map<V>(s: Seq<(String, V)>, k: String)
    requires
        str_keys_sorted(s),
    ensures
        assoc_lookup(s, k) == (if assoc_map(s).contains_key(k@) {
            Some(assoc_map(s)[k@])
        } else {
            None::<V>
        }),
    decreases s.len(),
{
    lemma_assoc_map_contains(s, k@);
    if s.len() > 0 {
        lemma_lex_equiv_is_eq(s[0].0@, k@);
        lemma_lex_lt_irreflexive(k@);
        if !s[0].0.lt_spec(&k) && !k.lt_spec(&s[0].0) {
            assert(s[0].0@ == k@);
            lemma_sorted_map_index(s, 0);
        } else {
            let rest = s.drop_first();
            assert forall|i: int, j: int| 0 <= i < j < rest.len() implies lex_lt(
                rest[i].0@,
                rest[j].0@,
            ) by {
                assert(rest[i] == s[i + 1] && rest[j] == s[j + 1]);
            }
            lemma_assoc_lookup_is_map(rest, k);
            lemma_assoc_map_contains(rest, k@);
            assert(s[0].0@ != k@);
            if assoc_map(s).contains_key(k@) {
                let i = choose|i: int| 0 <= i < s.len() && s[i].0@ == k@;
                assert(i != 0);
                assert(rest[i - 1].0@ == k@);
                lemma_sorted_map_index(s, i);
                assert(str_keys_sorted(rest));
                lemma_sorted_map_index(rest, i - 1);
            } else {
                assert(forall|i: int| 0 <= i < rest.len() ==> rest[i] == s[i + 1]);
            }
        }
    }
}

/// Overwriting the entry at `idx` with an equal key denotes an insertion
/// into the map.
proof fn lemma_assoc_map_update<V>(o: Seq<(String, V)>, idx: int, key: String, val: V)
    requires
        str_keys_sorted(o),
        0 <= idx < o.len(),
        o[idx].0@ == key@,
    ensures
        str_keys_sorted(o.update(idx, (key, val))),
        assoc_map(o.update(idx, (key, val))) == assoc_map(o).insert(key@, val),
{
    let s = o.update(idx, (key, val));
    assert forall|i: int, j: int| 0 <= i < j < s.len() implies lex_lt(s[i].0@, s[j].0@) by {
        assert(s[i].0@ == o[i].0@ && s[j].0@ == o[j].0@);
    }
    let ms = assoc_map(s);
    let mo = assoc_map(o).insert(key@, val);
    assert forall|k: Seq<char>| ms.contains_key(k) == mo.contains_key(k) by {
        lemma_assoc_map_contains(s, k);
        lemma_assoc_map_contains(o, k);
        if k == key@ {
            assert(s[idx].0@ == k);
        } else {
            if exists|i: int| 0 <= i < s.len() && s[i].0@ == k {
                let i = choose|i: int| 0 <= i < s.len() && s[i].0@ == k;
                assert(o[i].0@ == k);
            }
            if exists|i: int| 0 <= i < o.len() && o[i].0@ == k {
                let i = choose|i: int| 0 <= i < o.len() && o[i].0@ == k;
                assert(s[i].0@ == k);
            }
        }
    }
    assert forall|k: Seq<char>| ms.contains_key(k) implies ms[k] == mo[k] by {
        if k == key@ {
            lemma_sorted_map_index(s, idx);
        } else {
            lemma_assoc_map_contains(s, k);
            let i = choose|i: int| 0 <= i < s.len() && s[i].0@ == k;
            assert(i != idx);
            lemma_sorted_map_index(s, i);
            lemma_sorted_map_index(o, i);
        }
    }
    assert(ms =~= mo);
}

/// Inserting a fresh key at its sorted position denotes an insertion into
/// the map.
proof fn lemma_assoc_map_insert_at<V>(o: Seq<(String, V)>, idx: int, key: String, val: V)
    requires
        str_keys_sorted(o),
        0 <= idx <= o.len(),
        forall|j: int| 0 <= j < idx ==> lex_lt(o[j].0@, key@),
        forall|j: int| idx <= j < o.len() ==> lex_lt(key@, o[j].0@),
    ensures
        str_keys_sorted(o.insert(idx, (key, val))),
        assoc_map(o.insert(idx, (key, val))) == assoc_map(o).insert(key@, val),
{
    let s = o.insert(idx, (key, val));
    assert(s.len() == o.len() + 1);
    assert forall|i: int| 0 <= i < idx implies s[i] == o[i] by {}
    assert(s[idx] == (key, val));
    assert forall|i: int| idx < i < s.len() implies s[i] == o[i - 1] by {}
    // No entry of `o` carries `key`.
    assert forall|j: int| 0 <= j < o.len() implies o[j].0@ != key@ by {
        if o[j].0@ == key@ {
            lemma_lex_lt_irreflexive(key@);
        }
    }
    assert forall|i: int, j: int| 0 <= i < j < s.len() implies lex_lt(s[i].0@, s[j].0@) by {
        if j < idx {
        } else if j == idx {
            assert(lex_lt(o[i].0@, key@));
        } else if i == idx {
            assert(lex_lt(key@, o[j - 1].0@));
        } else if i < idx {
            if j - 1 == i {
                lemma_lex_lt_transitive(o[i].0@, key@, o[j - 1].0@);
            }
        }
    }
    let ms = assoc_map(s);
    let mo = assoc_map(o).insert(key@, val);
    assert forall|k: Seq<char>| ms.contains_key(k) == mo.contains_key(k) by {
        lemma_assoc_map_contains(s, k);
        lemma_assoc_map_contains(o, k);
        if k == key@ {
            assert(s[idx].0@ == k);
        } else {
            if exists|i: int| 0 <= i < s.len() && s[i].0@ == k {
                let i = choose|i: int| 0 <= i < s.len() && s[i].0@ == k;
                assert(i != idx);
                if i < idx {
                    assert(o[i].0@ == k);
                } else {
                    assert(o[i - 1].0@ == k);
                }
            }
            if exists|i: int| 0 <= i < o.len() && o[i].0@ == k {
                let i = choose|i: int| 0 <= i < o.len() && o[i].0@ == k;
                if i < idx {
                    assert(s[i].0@ == k);
                } else {
                    assert(s[i + 1].0@ == k);
                }
            }
        }
    }
    assert forall|k: Seq<char>| ms.contains_key(k) implies ms[k] == mo[k] by {
        if k == key@ {
            lemma_sorted_map_index(s, idx);
        } else {
            lemma_assoc_map_contains(s, k);
            let i = choose|i: int| 0 <= i < s.len() && s[i].0@ == k;
            assert(i != idx);
            lemma_sorted_map_index(s, i);
            if i < idx {
                lemma_sorted_map_index(o, i);
            } else {
                lemma_sorted_map_index(o, i - 1);
            }
        }
    }
    assert(ms =~= mo);
}

/// Insert `key` with value `val` into a sorted association vector,
/// overwriting the entry for an equal key if one exists.
pub fn sorted_insert<V: Copy>(entries: &mut Vec<(String, V)>, key: String, val: V)
    requires
        str_keys_sorted(old(entries)@),
    ensures
        str_keys_sorted(final(entries)@),
        assoc_map(final(entries)@) == assoc_map(old(entries)@).insert(key@, val),
{
    let mut idx: usize = 0;
    let len = entries.len();
    loop
        invariant
            str_keys_sorted(entries@),
            entries@ == old(entries)@,
            len == entries@.len(),
            idx <= len,
            forall|j: int| 0 <= j < idx ==> lex_lt(entries@[j].0@, key@),
        ensures
            entries@ == old(entries)@,
            idx <= len,
            forall|j: int| 0 <= j < idx ==> lex_lt(entries@[j].0@, key@),
            idx < len ==> lex_lt(key@, entries@[idx as int].0@),
        decreases len - idx,
    {
        if idx == len {
            break;
        }
        match entries[idx].0.cmp_key(&key) {
            KeyOrdering::Less => {
                idx = idx + 1;
            },
            KeyOrdering::Equal => {
                proof {
                    lemma_lex_equiv_is_eq(entries@[idx as int].0@, key@);
                    lemma_assoc_map_update(entries@, idx as int, key, val);
                }
                entries.set(idx, (key, val));
                return ;
            },
            KeyOrdering::Greater => {
                break;
            },
        }
    }
    proof {
        assert forall|j: int| idx <= j < entries@.len() implies lex_lt(key@, entries@[j].0@) by {
            if j > idx {
                lemma_lex_lt_transitive(key@, entries@[idx as int].0@, entries@[j].0@);
            }
        }
        lemma_assoc_map_insert_at(entries@, idx as int, key, val);
    }
    entries.insert(idx, (key, val));
}

} // verus!
