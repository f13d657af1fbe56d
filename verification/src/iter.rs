//! Merge-join over sorted key-value sequences.
//!
//! [`LeftJoin`] correlates two sequences of key-value pairs, both strictly
//! ascending by key with keys unique within each sequence.  It yields one
//! entry per left element, paired with the right value sharing its key if
//! one exists, else `None`, in a single linear pass.

use vstd::prelude::*;

use crate::order::key_equiv;
use crate::order::KeyOrdering;
use crate::order::OrderedKey;

verus! {

/// The keys of a key-value sequence are strictly ascending (and therefore
/// unique).
pub open spec fn keys_sorted<K: OrderedKey, V>(s: Seq<(K, V)>) -> bool {
    forall|i: int, j: int| 0 <= i < j < s.len() ==> s[i].0.lt_spec(&s[j].0)
}

/// The value stored under the first key equivalent to `k`, if any.
pub open spec fn assoc_lookup<K: OrderedKey, V>(s: Seq<(K, V)>, k: K) -> Option<V>
    decreases s.len(),
{
    if s.len() == 0 {
        None
    } else if key_equiv(&s[0].0, &k) {
        Some(s[0].1)
    } else {
        assoc_lookup(s.drop_first(), k)
    }
}

/// What a left join of `l` with `r` produces: every left value, paired with
/// the right value stored under its key, if any.
pub open spec fn join_seq<K: OrderedKey, U, V>(l: Seq<(K, U)>, r: Seq<(K, V)>) -> Seq<
    (U, Option<V>),
> {
    Seq::new(l.len(), |i: int| (l[i].1, assoc_lookup(r, l[i].0)))
}

/// A prefix of keys strictly below `k` does not affect a lookup of `k`.
proof fn lemma_lookup_skip<K: OrderedKey, V>(s: Seq<(K, V)>, k: K, i: int)
    requires
        0 <= i <= s.len(),
        forall|j: int| 0 <= j < i ==> s[j].0.lt_spec(&k),
    ensures
        assoc_lookup(s, k) == assoc_lookup(s.skip(i), k),
    decreases i,
{
    if i > 0 {
        assert(s.drop_first().skip(i - 1) =~= s.skip(i));
        lemma_lookup_skip(s.drop_first(), k, i - 1);
    } else {
        assert(s.skip(0) =~= s);
    }
}

/// Looking up a key strictly below every key of a sorted sequence fails.
proof fn lemma_lookup_below<K: OrderedKey, V>(s: Seq<(K, V)>, k: K)
    requires
        keys_sorted(s),
        s.len() > 0 ==> k.lt_spec(&s[0].0),
    ensures
        assoc_lookup(s, k) is None,
    decreases s.len(),
{
    if s.len() > 0 {
        assert(keys_sorted(s.drop_first()));
        if s.len() > 1 {
            K::lemma_transitive(&k, &s[0].0, &s[1].0);
            assert(k.lt_spec(&s.drop_first()[0].0));
        }
        lemma_lookup_below(s.drop_first(), k);
    }
}

/// Iterator for performing a left join
///
/// This iterator walks two sorted key-value sequences, yielding for each
/// left element a tuple of its value and the optional value found in the
/// right sequence for the same key.  If no such value is found, `None` is
/// yielded instead for the value.
///
/// # Note
///
/// Both sequences must be sorted strictly ascending by key, with each key
/// unique within the respective sequence.
pub struct LeftJoin<'a, K, U, V> where K: OrderedKey, U: Copy, V: Copy {
    /// The left sequence, every element of which produces one result.
    pub left: &'a Vec<(K, U)>,
    /// The right sequence, looked up by key.
    pub right: &'a Vec<(K, V)>,
    /// Position of the next left element.
    pub lpos: usize,
    /// Position of the first right element not yet discarded or consumed.
    pub rpos: usize,
}

impl<'a, K, U, V> LeftJoin<'a, K, U, V> where K: OrderedKey, U: Copy, V: Copy {
    /// Well-formedness: both inputs are sorted and every right element
    /// already passed over has a key strictly below the next left key.
    pub open spec fn wf(&self) -> bool {
        &&& keys_sorted(self.left@)
        &&& keys_sorted(self.right@)
        &&& self.lpos <= self.left@.len()
        &&& self.rpos <= self.right@.len()
        &&& (self.lpos < self.left@.len() ==> forall|j: int|
            0 <= j < self.rpos ==> self.right@[j].0.lt_spec(&self.left@[self.lpos as int].0))
    }

    /// The full sequence of results this join produces.
    pub open spec fn results(&self) -> Seq<(U, Option<V>)> {
        join_seq(self.left@, self.right@)
    }

    /// Create a new `LeftJoin`
    ///
    /// Both inputs are assumed sorted strictly ascending by key; the join is
    /// well-formed — and its results meaningful — exactly when they are.
    pub fn new(left: &'a Vec<(K, U)>, right: &'a Vec<(K, V)>) -> (r: Self)
        ensures
            r.left == left,
            r.right == right,
            r.lpos == 0,
            r.rpos == 0,
    {
        Self { left, right, lpos: 0, rpos: 0 }
    }

    /// Get the next right value for a given "left" key
    ///
    /// Discards buffered right elements whose key lies strictly below `key`
    /// — they can never match a later left key — and consumes the element
    /// matching `key` if there is one.
    fn next_right(&mut self, key: &K) -> (r: Option<V>)
        requires
            old(self).wf(),
            old(self).lpos < old(self).left@.len(),
            *key == old(self).left@[old(self).lpos as int].0,
        ensures
            final(self).left == old(self).left,
            final(self).right == old(self).right,
            final(self).lpos == old(self).lpos,
            old(self).rpos <= final(self).rpos <= final(self).right@.len(),
            forall|j: int| 0 <= j < final(self).rpos
                ==> final(self).right@[j].0.lt_spec(key) || key_equiv(&final(self).right@[j].0, key),
            r == assoc_lookup(final(self).right@, *key),
    {
        let right = self.right;
        let r_len = right.len();
        loop
            invariant
                self.left == old(self).left,
                self.right == old(self).right,
                self.lpos == old(self).lpos,
                right == self.right,
                r_len == right@.len(),
                old(self).rpos <= self.rpos <= r_len,
                keys_sorted(right@),
                forall|j: int| 0 <= j < self.rpos ==> right@[j].0.lt_spec(key),
            decreases r_len - self.rpos,
        {
            proof {
                lemma_lookup_skip(right@, *key, self.rpos as int);
            }
            if self.rpos == r_len {
                return None;
            }
            let entry = &right[self.rpos];
            match entry.0.cmp_key(key) {
                KeyOrdering::Less => {
                    self.rpos = self.rpos + 1;
                },
                KeyOrdering::Equal => {
                    let v = entry.1;
                    self.rpos = self.rpos + 1;
                    proof {
                        assert(right@.skip(self.rpos - 1)[0] == right@[self.rpos - 1]);
                        assert(assoc_lookup(right@, *key) == Some(v));
                    }
                    return Some(v);
                },
                KeyOrdering::Greater => {
                    proof {
                        let rest = right@.skip(self.rpos as int);
                        assert forall|i: int, j: int| 0 <= i < j < rest.len() implies rest[i]
                            .0.lt_spec(&rest[j].0) by {
                            assert(rest[i] == right@[self.rpos + i]);
                            assert(rest[j] == right@[self.rpos + j]);
                        }
                        assert(key.lt_spec(&rest[0].0));
                        lemma_lookup_below(rest, *key);
                    }
                    return None;
                },
            }
        }
    }

    /// Yield the next joined element, or `None` once the left sequence is
    /// exhausted.
    pub fn next(&mut self) -> (r: Option<(U, Option<V>)>)
        requires
            old(self).wf(),
        ensures
            final(self).wf(),
            final(self).left == old(self).left,
            final(self).right == old(self).right,
            match r {
                Some(item) => {
                    &&& old(self).lpos < old(self).left@.len()
                    &&& final(self).lpos == old(self).lpos + 1
                    &&& item == old(self).results()[old(self).lpos as int]
                },
                None => {
                    &&& old(self).lpos == old(self).left@.len()
                    &&& *final(self) == *old(self)
                },
            },
    {
        let left = self.left;
        if self.lpos == left.len() {
            return None;
        }
        let entry = &left[self.lpos];
        let u = entry.1;
        let v = self.next_right(&entry.0);
        let ghost consumed = self.rpos as int;
        self.lpos = self.lpos + 1;
        proof {
            let lseq = self.left@;
            let rseq = self.right@;
            let prev = lseq[self.lpos - 1].0;
            if self.lpos < lseq.len() {
                let next = lseq[self.lpos as int].0;
                assert(prev.lt_spec(&next));
                assert forall|j: int| 0 <= j < consumed implies rseq[j].0.lt_spec(&next) by {
                    if rseq[j].0.lt_spec(&prev) {
                        K::lemma_transitive(&rseq[j].0, &prev, &next);
                    } else {
                        K::lemma_connected(&prev, &rseq[j].0, &next);
                    }
                }
            }
        }
        Some((u, v))
    }
}

/// Convenience trait for creating a left join
pub trait LeftJoinable<'a, K, U, V>: Sized where K: OrderedKey, U: Copy, V: Copy {
    /// The sequence that becomes the left side of the join.
    spec fn as_left(self) -> &'a Vec<(K, U)>;

    /// Join `self`, as the left sequence, with `right`.
    fn join_left(self, right: &'a Vec<(K, V)>) -> (r: LeftJoin<'a, K, U, V>)
        ensures
            r.left == self.as_left(),
            r.right == right,
            r.lpos == 0,
            r.rpos == 0,
    ;
}

impl<'a, K, U, V> LeftJoinable<'a, K, U, V> for &'a Vec<(K, U)> where
    K: OrderedKey,
    U: Copy,
    V: Copy,
 {
    open spec fn as_left(self) -> &'a Vec<(K, U)> {
        self
    }

    fn join_left(self, right: &'a Vec<(K, V)>) -> (r: LeftJoin<'a, K, U, V>) {
        LeftJoin::new(self, right)
    }
}

} // verus!
