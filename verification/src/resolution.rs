//! State resolution facilities
//!
//! This module provides the [`Resolvable`] trait for resolution of a given
//! issue's state as well as the [`IssueStateSet`] container implementing
//! it, together with the topological builder that orders an unordered set
//! of states by dependency.
//!
//! Enablement of the states of a catalog is captured by a sequence of
//! boolean flags, one per state: [`enablement_ok`] states that each flag
//! says whether the state's own conditions hold and every state it extends
//! appears earlier and is itself enabled.  For a given catalog and issue
//! such a flag sequence is unique ([`lemma_enablement_unique`]); the
//! resolution scan selects the state of the last true flag.

use vstd::prelude::*;

use std::sync::Arc;

use crate::assoc::assoc_map;
use crate::assoc::lemma_assoc_lookup_is_map;
use crate::assoc::lemma_assoc_map_contains;
use crate::assoc::lemma_sorted_map_index;
use crate::assoc::lemma_str_keys_sorted;
use crate::assoc::sorted_insert;
use crate::assoc::str_keys_sorted;
use crate::condition::Condition;
use crate::error::Error;
use crate::error::ErrorKind;
use crate::iter::assoc_lookup;
use crate::iter::LeftJoin;
use crate::iter::LeftJoinable;
use crate::order::lex_lt;
use crate::state::conditions_hold;
use crate::state::models;
use crate::state::IssueState;
use crate::state::StateModel;
use crate::state::StateRelation;

verus! {

/// Map for tracking enabled and disabled states: enablement by state name,
/// sorted strictly ascending by name.
type EnabledMap = Vec<(String, bool)>;

/// The state model declares an `Extends` relation towards the name `k`.
pub open spec fn extends_key<C: Condition>(m: StateModel<C>, k: Seq<char>) -> bool {
    m.relations.contains_key(k) && m.relations[k] == StateRelation::Extends
}

/// Every `Extends` target of the state model is present in the enabled
/// map.
pub open spec fn deps_present<C: Condition>(m: StateModel<C>, em: Map<Seq<char>, bool>) -> bool {
    forall|k: Seq<char>| extends_key(m, k) ==> em.contains_key(k)
}

/// Every `Extends` target of the state model that the enabled map knows is
/// enabled.
pub open spec fn deps_all_enabled<C: Condition>(
    m: StateModel<C>,
    em: Map<Seq<char>, bool>,
) -> bool {
    forall|k: Seq<char>| extends_key(m, k) && em.contains_key(k) ==> em[k]
}

/// Some state of the sequence carries the given name.
pub open spec fn has_name<C: Condition>(states: Seq<StateModel<C>>, k: Seq<char>) -> bool {
    exists|j: int| 0 <= j < states.len() && states[j].name == k
}

/// What the flag of the state at position `i` must say: the state's own
/// conditions hold, and every state it extends appears earlier in the
/// sequence with a true flag.
pub open spec fn enabled_flag_at<C: Condition>(
    states: Seq<StateModel<C>>,
    flags: Seq<bool>,
    i: int,
    issue: &C::Issue,
) -> bool {
    conditions_hold(states[i], issue) && (forall|k: Seq<char>| #[trigger]
        extends_key(states[i], k) ==> exists|j: int| 0 <= j < i && states[j].name == k && flags[j])
}

/// The flag sequence records, state by state, whether each state of the
/// catalog is enabled for the issue.
pub open spec fn enablement_ok<C: Condition>(
    states: Seq<StateModel<C>>,
    flags: Seq<bool>,
    issue: &C::Issue,
) -> bool {
    &&& flags.len() == states.len()
    &&& forall|i: int|
        0 <= i < states.len() ==> flags[i] == enabled_flag_at(states, flags, i, issue)
}

/// The highest position below `n` carrying a true flag, if any: the "last
/// enabled wins" winner of a scan over the first `n` states.
pub open spec fn last_true(flags: Seq<bool>, n: int) -> Option<int>
    decreases n,
{
    if n <= 0 {
        None
    } else if flags[n - 1] {
        Some(n - 1)
    } else {
        last_true(flags, n - 1)
    }
}

/// A resolution scan over the sequence fails: some state extends a name
/// that no earlier state carries.
pub open spec fn missing_dependency<C: Condition>(states: Seq<StateModel<C>>) -> bool {
    exists|i: int, k: Seq<char>|
        0 <= i < states.len() && extends_key(states[i], k) && !has_name(states.take(i), k)
}

/// What a resolution over the sequence may return for the issue: a
/// dependency failure exactly when some scanned state extends a name no
/// earlier state carries, and otherwise — for a catalog of distinct
/// names — the state of the last true enablement flag, if any.
pub open spec fn resolution_post<C: Condition>(
    states: Seq<StateModel<C>>,
    issue: &C::Issue,
    r: Result<Option<Arc<IssueState<C>>>, Error>,
) -> bool {
    match r {
        Ok(opt) => {
            &&& !missing_dependency(states)
            &&& names_unique(states) ==> (exists|flags: Seq<bool>|
                enablement_ok(states, flags, issue) && (match opt {
                    Some(st) => {
                        &&& last_true(flags, flags.len() as int) is Some
                        &&& st@ == states[last_true(flags, flags.len() as int)->Some_0]
                    },
                    None => last_true(flags, flags.len() as int) is None,
                }))
        },
        Err(e) => e.kind == ErrorKind::DependencyError && missing_dependency(states),
    }
}

/// No two states of the sequence share a name.
pub open spec fn names_unique<C: Condition>(states: Seq<StateModel<C>>) -> bool {
    forall|i: int, j: int| 0 <= i < j < states.len() ==> states[i].name != states[j].name
}

/// The flag of a state is insensitive to the flags of later states.
proof fn lemma_flag_at_agree<C: Condition>(
    states: Seq<StateModel<C>>,
    f1: Seq<bool>,
    f2: Seq<bool>,
    i: int,
    issue: &C::Issue,
)
    requires
        0 <= i < states.len(),
        forall|j: int| 0 <= j < i ==> f1[j] == f2[j],
    ensures
        enabled_flag_at(states, f1, i, issue) == enabled_flag_at(states, f2, i, issue),
{
    if enabled_flag_at(states, f1, i, issue) {
        assert forall|k: Seq<char>| #[trigger] extends_key(states[i], k) implies exists|j: int|
            0 <= j < i && states[j].name == k && f2[j] by {
            let j = choose|j: int| #![trigger states[j]]
                0 <= j < i && states[j].name == k && f1[j];
            assert(states[j].name == k && f2[j]);
        }
    }
    if enabled_flag_at(states, f2, i, issue) {
        assert forall|k: Seq<char>| #[trigger] extends_key(states[i], k) implies exists|j: int|
            0 <= j < i && states[j].name == k && f1[j] by {
            let j = choose|j: int| #![trigger states[j]]
                0 <= j < i && states[j].name == k && f2[j];
            assert(states[j].name == k && f1[j]);
        }
    }
}

/// The last true flag below `n` depends only on the first `n` flags.
proof fn lemma_last_true_prefix(f1: Seq<bool>, f2: Seq<bool>, n: int)
    requires
        forall|j: int| 0 <= j < n ==> f1[j] == f2[j],
    ensures
        last_true(f1, n) == last_true(f2, n),
    decreases n,
{
    if n > 0 {
        lemma_last_true_prefix(f1, f2, n - 1);
    }
}

/// The flags of the first `n` states determine each other pairwise equal.
proof fn lemma_enablement_unique_to<C: Condition>(
    states: Seq<StateModel<C>>,
    f1: Seq<bool>,
    f2: Seq<bool>,
    issue: &C::Issue,
    n: int,
)
    requires
        enablement_ok(states, f1, issue),
        enablement_ok(states, f2, issue),
        0 <= n <= states.len(),
    ensures
        forall|i: int| 0 <= i < n ==> f1[i] == f2[i],
    decreases n,
{
    if n > 0 {
        lemma_enablement_unique_to(states, f1, f2, issue, n - 1);
        lemma_flag_at_agree(states, f1, f2, n - 1, issue);
        assert(f1[n - 1] == enabled_flag_at(states, f1, n - 1, issue));
        assert(f2[n - 1] == enabled_flag_at(states, f2, n - 1, issue));
    }
}

/// For a given catalog and issue there is at most one valid flag sequence:
/// enablement is a function of the catalog and the issue.
pub proof fn lemma_enablement_unique<C: Condition>(
    states: Seq<StateModel<C>>,
    f1: Seq<bool>,
    f2: Seq<bool>,
    issue: &C::Issue,
)
    requires
        enablement_ok(states, f1, issue),
        enablement_ok(states, f2, issue),
    ensures
        f1 == f2,
{
    lemma_enablement_unique_to(states, f1, f2, issue, states.len() as int);
    assert(f1 =~= f2);
}

/// A valid flag sequence for the first `n` states exists.
proof fn lemma_enablement_exists_to<C: Condition>(
    states: Seq<StateModel<C>>,
    issue: &C::Issue,
    n: int,
) -> (flags: Seq<bool>)
    requires
        0 <= n <= states.len(),
    ensures
        flags.len() == n,
        forall|i: int| 0 <= i < n ==> flags[i] == enabled_flag_at(states, flags, i, issue),
    decreases n,
{
    if n == 0 {
        Seq::empty()
    } else {
        let prev = lemma_enablement_exists_to(states, issue, n - 1);
        let flags = prev.push(enabled_flag_at(states, prev, n - 1, issue));
        assert forall|i: int| 0 <= i < n implies flags[i] == enabled_flag_at(
            states,
            flags,
            i,
            issue,
        ) by {
            lemma_flag_at_agree(states, prev, flags, i, issue);
        }
        flags
    }
}

/// For every catalog and issue there is a valid flag sequence; together
/// with [`lemma_enablement_unique`], enablement is a total function of
/// the catalog and the issue.
pub proof fn lemma_enablement_exists<C: Condition>(states: Seq<StateModel<C>>, issue: &C::Issue)
    ensures
        exists|flags: Seq<bool>| enablement_ok(states, flags, issue),
{
    let flags = lemma_enablement_exists_to(states, issue, states.len() as int);
    assert(enablement_ok(states, flags, issue));
}

/// Check whether the dependencies for an issue's state allow it to be
/// enabled
///
/// For example, an issue state may only be enabled if all the states it
/// extends are enabled.  The computation is done purely based on a given
/// enabled map, e.g. this function does not recurse into extended states.
fn deps_enabled<C: Condition>(state: &IssueState<C>, map: &EnabledMap) -> (r: Result<bool, Error>)
    requires
        state.wf(),
        str_keys_sorted(map@),
    ensures
        match r {
            Ok(b) => deps_present(state@, assoc_map(map@)) && b == deps_all_enabled(
                state@,
                assoc_map(map@),
            ),
            Err(e) => e.kind == ErrorKind::DependencyError && !deps_present(
                state@,
                assoc_map(map@),
            ),
        },
{
    let rels = &state.relations;
    proof {
        lemma_str_keys_sorted(rels@);
        lemma_str_keys_sorted(map@);
    }
    let mut join: LeftJoin<String, StateRelation, bool> = rels.join_left(map);
    let mut all = true;
    loop
        invariant
            join.wf(),
            join.left == rels,
            join.right == map,
            rels == &state.relations,
            state.wf(),
            str_keys_sorted(map@),
            join.lpos <= rels@.len(),
            forall|t: int|
                0 <= t < join.lpos && rels@[t].1 == StateRelation::Extends ==> assoc_lookup(
                    map@,
                    rels@[t].0,
                ) is Some,
            all == (forall|t: int|
                0 <= t < join.lpos && rels@[t].1 == StateRelation::Extends ==> assoc_lookup(
                    map@,
                    rels@[t].0,
                ) == Some(true)),
        ensures
            join.lpos == rels@.len(),
            forall|t: int|
                0 <= t < rels@.len() && rels@[t].1 == StateRelation::Extends ==> assoc_lookup(
                    map@,
                    rels@[t].0,
                ) is Some,
            all == (forall|t: int|
                0 <= t < rels@.len() && rels@[t].1 == StateRelation::Extends ==> assoc_lookup(
                    map@,
                    rels@[t].0,
                ) == Some(true)),
        decreases rels@.len() - join.lpos,
    {
        let ghost t = join.lpos as int;
        match join.next() {
            None => {
                break ;
            },
            Some((kind, val)) => {
                proof {
                    assert(kind == rels@[t].1 && val == assoc_lookup(map@, rels@[t].0));
                }
                match kind {
                    StateRelation::Extends => {
                        match val {
                            Some(v) => {
                                let prev = all;
                                all = all && v;
                                proof {
                                    assert forall|u: int|
                                        0 <= u < join.lpos && rels@[u].1 == StateRelation::Extends
                                            implies assoc_lookup(map@, rels@[u].0) is Some by {
                                        if u < t {
                                        }
                                    }
                                    if all {
                                        assert forall|u: int|
                                            0 <= u < join.lpos && rels@[u].1
                                                == StateRelation::Extends implies assoc_lookup(
                                            map@,
                                            rels@[u].0,
                                        ) == Some(true) by {
                                            if u < t {
                                            }
                                        }
                                    } else {
                                        if prev {
                                            assert(assoc_lookup(map@, rels@[t].0) == Some(false));
                                        }
                                    }
                                }
                            },
                            None => {
                                proof {
                                    lemma_sorted_map_index(rels@, t);
                                    lemma_assoc_lookup_is_map(map@, rels@[t].0);
                                    assert(extends_key(state@, rels@[t].0@));
                                    assert(!assoc_map(map@).contains_key(rels@[t].0@));
                                }
                                return Err(Error { kind: ErrorKind::DependencyError });
                            },
                        }
                    },
                    StateRelation::Overrides => {
                        proof {
                            assert forall|u: int|
                                0 <= u < join.lpos && rels@[u].1 == StateRelation::Extends implies
                                assoc_lookup(map@, rels@[u].0) is Some by {
                                if u < t {
                                }
                            }
                            if all {
                                assert forall|u: int|
                                    0 <= u < join.lpos && rels@[u].1 == StateRelation::Extends
                                        implies assoc_lookup(map@, rels@[u].0) == Some(true) by {
                                    if u < t {
                                    }
                                }
                            }
                        }
                    },
                }
            },
        }
    }
    proof {
        let em = assoc_map(map@);
        assert forall|k: Seq<char>| extends_key(state@, k) implies em.contains_key(k) by {
            lemma_assoc_map_contains(rels@, k);
            let t = choose|t: int| 0 <= t < rels@.len() && rels@[t].0@ == k;
            lemma_sorted_map_index(rels@, t);
            assert(rels@[t].1 == StateRelation::Extends);
            lemma_assoc_lookup_is_map(map@, rels@[t].0);
        }
        if all {
            assert forall|k: Seq<char>| extends_key(state@, k) && em.contains_key(k) implies em[k] by {
                lemma_assoc_map_contains(rels@, k);
                let t = choose|t: int| 0 <= t < rels@.len() && rels@[t].0@ == k;
                lemma_sorted_map_index(rels@, t);
                lemma_assoc_lookup_is_map(map@, rels@[t].0);
            }
        } else {
            let t = choose|t: int|
                0 <= t < rels@.len() && rels@[t].1 == StateRelation::Extends && assoc_lookup(
                    map@,
                    rels@[t].0,
                ) != Some(true);
            lemma_sorted_map_index(rels@, t);
            lemma_assoc_lookup_is_map(map@, rels@[t].0);
            assert(extends_key(state@, rels@[t].0@));
            assert(em.contains_key(rels@[t].0@) && !em[rels@[t].0@]);
        }
    }
    Ok(all)
}

/// Trait providing an operation for resolving issues' states
///
/// Implementations of this trait provide the resolution of an issue's
/// state.  It is generally assumed that the implementation encapsulates
/// the states considered for the resolution.  For example, this may be
/// implemented for containers of issue states.
pub trait Resolvable<C> where C: Condition {
    /// What the resolver asks of its state container before a resolution.
    spec fn resolvable_wf(&self) -> bool;

    /// What the resolver promises of a resolution's outcome.
    spec fn resolvable_post(
        &self,
        issue: &C::Issue,
        r: Result<Option<Arc<IssueState<C>>>, Error>,
    ) -> bool;

    /// Resolve the state for a given issue
    ///
    /// Given an issue, this function will yield the state selected for it
    /// out of the issue states encapsulated in `self` — if any of the
    /// states is enabled for the issue.
    ///
    /// If no state is enabled for the given issue, this function will
    /// yield `None`.
    fn issue_state(&self, issue: &C::Issue) -> (r: Result<Option<Arc<IssueState<C>>>, Error>)
        requires
            self.resolvable_wf(),
        ensures
            self.resolvable_post(issue, r),
    ;
}

/// Set of issue states
///
/// This set of issue states is intended for the efficient computation of
/// an issue's state.
#[derive(Debug)]
pub struct IssueStateSet<C> where C: Condition {
    /// Container of states
    ///
    /// The states are kept in a linear sequence, ordered by dependency: a
    /// scan over the sequence reaches a state only after all its
    /// dependencies.  Dependencies in this context are states which are
    /// extended or overridden by the state.
    data: Vec<Arc<IssueState<C>>>,
}

impl<C: Condition> View for IssueStateSet<C> {
    type V = Seq<StateModel<C>>;

    closed spec fn view(&self) -> Seq<StateModel<C>> {
        models(self.data@)
    }
}

impl<C: Condition> IssueStateSet<C> {
    /// Every state of the set has a well-formed relation table.
    pub closed spec fn wf(&self) -> bool {
        forall|i: int| 0 <= i < self.data@.len() ==> (*self.data@[i]).wf()
    }

    /// The number of states in the set.
    pub fn len(&self) -> (n: usize)
        ensures
            n == self@.len(),
    {
        self.data.len()
    }

    /// The state at the given position of the dependency order.
    pub fn get(&self, i: usize) -> (r: &Arc<IssueState<C>>)
        requires
            i < self@.len(),
        ensures
            r@ == self@[i as int],
    {
        &self.data[i]
    }
}

/// Create an issue state set directly from a vector
///
/// # Warning
///
/// Within the vector, the states must appear ordered by dependency: all
/// dependencies of a state must appear before the state itself!
impl<C: Condition> From<crate::state::IssueStateVec<C>> for IssueStateSet<C> {
    fn from(states: Vec<Arc<IssueState<C>>>) -> (r: Self)
        ensures
            r@ == models(states@),
            r.wf() <==> (forall|i: int| 0 <= i < states@.len() ==> (*states@[i]).wf()),
    {
        Self { data: states }
    }
}

impl<C: Condition> vstd::std_specs::convert::FromSpecImpl<crate::state::IssueStateVec<C>> for IssueStateSet<C> {
    open spec fn obeys_from_spec() -> bool {
        false
    }

    closed spec fn from_spec(states: Vec<Arc<IssueState<C>>>) -> IssueStateSet<C> {
        IssueStateSet { data: states }
    }
}

impl<C: Condition> IssueStateSet<C> {
    /// Resolve the state for a given issue by a single scan in dependency
    /// order, keeping the last enabled state.
    ///
    /// When the states of the set carry pairwise distinct names, the scan
    /// computes exactly the enablement flags of [`enablement_ok`] and
    /// returns the state of the last true flag; it fails with
    /// [`ErrorKind::DependencyError`] exactly when a state of the set
    /// extends a name that no earlier state carries.
    ///
    /// For a hand-built catalog in which several states share a name —
    /// which well-formed catalogs never do — a later state shadows an
    /// earlier one of the same name in the scan's enabled map, and the
    /// winner is not characterized.
    pub fn issue_state(&self, issue: &C::Issue) -> (r: Result<Option<Arc<IssueState<C>>>, Error>)
        requires
            self.wf(),
        ensures
            resolution_post(self@, issue, r),
    {
        let ghost sm = self@;
        let ghost flags = Seq::<bool>::empty();
        let mut retval: Option<Arc<IssueState<C>>> = None;
        let mut enabled_map: EnabledMap = Vec::new();
        let mut i: usize = 0;
        let len = self.data.len();
        proof {
            assert(assoc_map(enabled_map@) =~= Map::<Seq<char>, bool>::empty());
            assert(sm.take(0) =~= Seq::<StateModel<C>>::empty());
        }
        // Since the data is ordered by dependency, one linear pass over the
        // states is sufficient for selecting one for any given issue.  We
        // simply determine the enablement of each one as we go and keep
        // the last of the enabled states.
        while i < len
            invariant
                self.wf(),
                sm == self@,
                i <= len,
                len == self.data@.len(),
                sm.len() == len,
                str_keys_sorted(enabled_map@),
                flags.len() == i,
                forall|k: Seq<char>| #[trigger]
                    assoc_map(enabled_map@).contains_key(k) <==> has_name(sm.take(i as int), k),
                forall|j: int, k: Seq<char>|
                    0 <= j < i && #[trigger] extends_key(sm[j], k) ==> has_name(sm.take(j), k),
                names_unique(sm) ==> (forall|j: int|
                    0 <= j < i ==> flags[j] == enabled_flag_at(sm, flags, j, issue)),
                names_unique(sm) ==> (forall|j: int| #![trigger sm[j]]
                    0 <= j < i ==> assoc_map(enabled_map@).contains_key(sm[j].name) && assoc_map(
                        enabled_map@,
                    )[sm[j].name] == flags[j]),
                names_unique(sm) ==> (match retval {
                    Some(st) => {
                        &&& last_true(flags, i as int) is Some
                        &&& st@ == sm[last_true(flags, i as int)->Some_0]
                    },
                    None => last_true(flags, i as int) is None,
                }),
            decreases len - i,
        {
            let state = &self.data[i];
            proof {
                assert(state@ == sm[i as int]);
            }
            let local = state.conditions_satisfied(issue);
            let deps_ok = match deps_enabled(state, &enabled_map) {
                Ok(b) => b,
                Err(e) => {
                    proof {
                        let em = assoc_map(enabled_map@);
                        let k = choose|k: Seq<char>|
                            extends_key(sm[i as int], k) && !em.contains_key(k);
                        assert(extends_key(sm[i as int], k) && !has_name(sm.take(i as int), k));
                        assert(missing_dependency(sm));
                    }
                    return Err(e);
                },
            };
            let enabled = local && deps_ok;
            proof {
                if names_unique(sm) {
                    let em = assoc_map(enabled_map@);
                    if local {
                        if deps_all_enabled(sm[i as int], em) {
                            assert forall|k: Seq<char>| #[trigger]
                                extends_key(sm[i as int], k) implies exists|j: int|
                                0 <= j < i && sm[j].name == k && flags[j] by {
                                assert(em.contains_key(k));
                                let j = choose|j: int| #![trigger sm.take(i as int)[j]]
                                    0 <= j < i && sm.take(i as int)[j].name == k;
                                assert(sm[j].name == k);
                                assert(em[sm[j].name] == flags[j]);
                                assert(flags[j]);
                            }
                            assert(enabled_flag_at(sm, flags, i as int, issue));
                        } else {
                            let k = choose|k: Seq<char>|
                                extends_key(sm[i as int], k) && em.contains_key(k) && !em[k];
                            assert(!enabled_flag_at(sm, flags, i as int, issue)) by {
                                if enabled_flag_at(sm, flags, i as int, issue) {
                                    let j = choose|j: int| #![trigger sm[j]]
                                        0 <= j < i && sm[j].name == k && flags[j];
                                    assert(em[sm[j].name] == flags[j]);
                                }
                            }
                        }
                    } else {
                        assert(!enabled_flag_at(sm, flags, i as int, issue));
                    }
                    assert(enabled == enabled_flag_at(sm, flags, i as int, issue));
                }
                assert(deps_present(sm[i as int], assoc_map(enabled_map@)));
                assert forall|k: Seq<char>| #[trigger]
                    extends_key(sm[i as int], k) implies has_name(sm.take(i as int), k) by {
                    assert(assoc_map(enabled_map@).contains_key(k));
                }
            }
            let name = state.name.clone();
            let ghost old_flags = flags;
            let ghost em_before = assoc_map(enabled_map@);
            proof {
                flags = flags.push(enabled);
            }
            sorted_insert(&mut enabled_map, name, enabled);
            if enabled {
                retval = Some(state.clone());
            }
            i = i + 1;
            proof {
                // The map now knows exactly the names of the first `i`
                // states.
                assert forall|k: Seq<char>| #[trigger]
                    assoc_map(enabled_map@).contains_key(k) == has_name(sm.take(i as int), k) by {
                    if k == sm[i - 1].name {
                        assert(sm.take(i as int)[i - 1].name == k);
                    } else {
                        if has_name(sm.take(i as int), k) {
                            let j = choose|j: int| #![trigger sm.take(i as int)[j]]
                                0 <= j < i && sm.take(i as int)[j].name == k;
                            assert(sm.take(i - 1)[j].name == k);
                        }
                        if has_name(sm.take(i - 1), k) {
                            let j = choose|j: int| #![trigger sm.take(i - 1)[j]]
                                0 <= j < i - 1 && sm.take(i - 1)[j].name == k;
                            assert(sm.take(i as int)[j].name == k);
                        }
                    }
                }
                if names_unique(sm) {
                    assert forall|j: int| 0 <= j < i implies flags[j] == enabled_flag_at(
                        sm,
                        flags,
                        j,
                        issue,
                    ) by {
                        lemma_flag_at_agree(sm, old_flags, flags, j, issue);
                    }
                    assert(name@ == sm[i - 1].name);
                    assert(assoc_map(enabled_map@) == em_before.insert(sm[i - 1].name, enabled));
                    assert forall|j: int| #![trigger sm[j]]
                        0 <= j < i implies assoc_map(enabled_map@).contains_key(sm[j].name)
                            && assoc_map(enabled_map@)[sm[j].name] == flags[j] by {
                        if j < i - 1 {
                            assert(sm[j].name != sm[i - 1].name);
                            assert(em_before.contains_key(sm[j].name) && em_before[sm[j].name]
                                == old_flags[j]);
                        }
                    }
                    lemma_last_true_prefix(old_flags, flags, i - 1);
                    assert(last_true(flags, i as int) == (if flags[i - 1] {
                        Some((i - 1) as int)
                    } else {
                        last_true(old_flags, i - 1)
                    }));
                }
            }
        }
        proof {
            assert(sm.take(len as int) =~= sm);
            if missing_dependency(sm) {
                assert(false);
            }
            if names_unique(sm) {
                assert(enablement_ok(sm, flags, issue));
            }
        }
        Ok(retval)
    }
}

impl<C: Condition> Resolvable<C> for IssueStateSet<C> {
    open spec fn resolvable_wf(&self) -> bool {
        self.wf()
    }

    open spec fn resolvable_post(
        &self,
        issue: &C::Issue,
        r: Result<Option<Arc<IssueState<C>>>, Error>,
    ) -> bool {
        resolution_post(self@, issue, r)
    }

    fn issue_state(&self, issue: &C::Issue) -> (r: Result<Option<Arc<IssueState<C>>>, Error>) {
        IssueStateSet::issue_state(self, issue)
    }
}

} // verus!

verus! {

/// The states are strictly sorted by name.
pub open spec fn name_sorted<C: Condition>(states: Seq<StateModel<C>>) -> bool {
    forall|i: int, j: int| 0 <= i < j < states.len() ==> lex_lt(states[i].name, states[j].name)
}

/// No relation target of the state model is named by any state of
/// `remaining`.
pub open spec fn no_target_in<C: Condition>(
    m: StateModel<C>,
    remaining: Seq<StateModel<C>>,
) -> bool {
    forall|k: Seq<char>| #[trigger] m.relations.contains_key(k) ==> !has_name(remaining, k)
}

/// The states of the round's batch: those none of whose relation targets
/// remain unresolved.
pub open spec fn topo_batch<C: Condition>(remaining: Seq<StateModel<C>>) -> Seq<StateModel<C>> {
    remaining.filter(|m: StateModel<C>| no_target_in(m, remaining))
}

/// The states left unresolved after the round's batch is moved out.
pub open spec fn topo_rest<C: Condition>(remaining: Seq<StateModel<C>>) -> Seq<StateModel<C>> {
    remaining.filter(|m: StateModel<C>| !no_target_in(m, remaining))
}

/// What the batched topological ordering produces from the unresolved
/// states: round by round, every state whose relation targets are all
/// resolved moves to the output; `None` when a round moves nothing while
/// states remain, which signals a dependency cycle.
pub open spec fn topo_spec<C: Condition>(remaining: Seq<StateModel<C>>) -> Option<
    Seq<StateModel<C>>,
>
    decreases remaining.len(),
    via topo_spec_dec::<C>
{
    if remaining.len() == 0 {
        Some(Seq::empty())
    } else if topo_batch(remaining).len() == 0 {
        None
    } else {
        match topo_spec(topo_rest(remaining)) {
            None => None,
            Some(t) => Some(topo_batch(remaining) + t),
        }
    }
}

#[via_fn]
proof fn topo_spec_dec<C: Condition>(remaining: Seq<StateModel<C>>) {
    if remaining.len() > 0 && topo_batch(remaining).len() != 0 {
        lemma_batch_rest(remaining);
    }
}

/// Every relation target of a state of the sequence appears strictly
/// earlier, as far as the target is in the sequence at all.
pub open spec fn dependency_ordered<C: Condition>(states: Seq<StateModel<C>>) -> bool {
    forall|i: int, k: Seq<char>|
        0 <= i < states.len() && #[trigger] states[i].relations.contains_key(k) && has_name(
            states,
            k,
        ) ==> exists|j: int| 0 <= j < i && states[j].name == k
}

/// Membership of a name in a cycle witness.
///
/// Deliberately a named wrapper around set membership: the clauses of
/// [`cycle_witness`] trigger on it, so that chasing a cycle through its
/// own clauses requires spelling the membership out step by step.
pub open spec fn cycle_member(names: Set<Seq<char>>, n: Seq<char>) -> bool {
    names.contains(n)
}

/// The set of names witnesses a dependency cycle: it is inhabited, every
/// name belongs to a state of the sequence, and every state named by it
/// has a relation target named by it.
pub open spec fn cycle_witness<C: Condition>(
    states: Seq<StateModel<C>>,
    names: Set<Seq<char>>,
) -> bool {
    &&& exists|n: Seq<char>| names.contains(n)
    &&& forall|n: Seq<char>| #[trigger] cycle_member(names, n) ==> has_name(states, n)
    &&& forall|i: int|
        0 <= i < states.len() && #[trigger] cycle_member(names, states[i].name) ==> exists|
            k: Seq<char>,
        |
            states[i].relations.contains_key(k) && names.contains(k)
}

/// The states contain a dependency cycle.
pub open spec fn has_cycle<C: Condition>(states: Seq<StateModel<C>>) -> bool {
    exists|names: Set<Seq<char>>| cycle_witness(states, names)
}

/// Complementary filters of a sequence split its length and its multiset.
proof fn lemma_filter_complement<A>(s: Seq<A>, p1: spec_fn(A) -> bool, p2: spec_fn(A) -> bool)
    requires
        forall|a: A| #[trigger] p1(a) == !p2(a),
    ensures
        s.filter(p1).len() + s.filter(p2).len() == s.len(),
        s.filter(p1).to_multiset().add(s.filter(p2).to_multiset()) == s.to_multiset(),
    decreases s.len(),
{
    broadcast use vstd::seq_lib::group_to_multiset_ensures;
    broadcast use vstd::multiset::group_multiset_axioms;

    reveal(Seq::filter);
    if s.len() > 0 {
        lemma_filter_complement(s.drop_last(), p1, p2);
        assert(s.drop_last().push(s.last()) =~= s);
        assert(s.to_multiset() =~= s.drop_last().to_multiset().insert(s.last()));
        let m1 = s.drop_last().filter(p1).to_multiset();
        let m2 = s.drop_last().filter(p2).to_multiset();
        if p1(s.last()) {
            assert(s.filter(p1).to_multiset() =~= m1.insert(s.last()));
            assert(s.filter(p2).to_multiset() == m2);
            assert(m1.insert(s.last()).add(m2) =~= m1.add(m2).insert(s.last()));
        } else {
            assert(s.filter(p2).to_multiset() =~= m2.insert(s.last()));
            assert(s.filter(p1).to_multiset() == m1);
            assert(m1.add(m2.insert(s.last())) =~= m1.add(m2).insert(s.last()));
        }
    } else {
        assert(s.filter(p1).to_multiset().add(s.filter(p2).to_multiset()) =~= s.to_multiset());
    }
}

/// A round's batch and rest split the unresolved states.
proof fn lemma_batch_rest<C: Condition>(remaining: Seq<StateModel<C>>)
    ensures
        topo_batch(remaining).len() + topo_rest(remaining).len() == remaining.len(),
        topo_batch(remaining).to_multiset().add(topo_rest(remaining).to_multiset())
            == remaining.to_multiset(),
{
    lemma_filter_complement(
        remaining,
        |m: StateModel<C>| no_target_in(m, remaining),
        |m: StateModel<C>| !no_target_in(m, remaining),
    );
}

/// Every element of a filtered sequence is an element of the original.
proof fn lemma_filter_elems<A>(s: Seq<A>, pred: spec_fn(A) -> bool)
    ensures
        forall|i: int| 0 <= i < s.filter(pred).len() ==> s.contains(#[trigger] s.filter(pred)[i]),
    decreases s.len(),
{
    reveal(Seq::filter);
    if s.len() > 0 {
        lemma_filter_elems(s.drop_last(), pred);
        assert forall|i: int| 0 <= i < s.filter(pred).len() implies s.contains(
            #[trigger] s.filter(pred)[i],
        ) by {
            let sub = s.drop_last().filter(pred);
            if i < sub.len() {
                assert(s.drop_last().contains(sub[i]));
                let w = choose|w: int|
                    0 <= w < s.drop_last().len() && s.drop_last()[w] == sub[i];
                assert(s[w] == sub[i]);
            } else {
                assert(s.filter(pred)[i] == s.last());
                assert(s[s.len() - 1] == s.last());
            }
        }
    }
}

} // verus!

verus! {

/// Sequences with equal multisets name the same names.
proof fn lemma_has_name_perm<C: Condition>(
    a: Seq<StateModel<C>>,
    b: Seq<StateModel<C>>,
    k: Seq<char>,
)
    requires
        a.to_multiset() == b.to_multiset(),
        has_name(a, k),
    ensures
        has_name(b, k),
{
    broadcast use vstd::seq_lib::group_to_multiset_ensures;

    let i = choose|i: int| #![trigger a[i]] 0 <= i < a.len() && a[i].name == k;
    assert(a.contains(a[i]));
    assert(b.to_multiset().count(a[i]) > 0);
    assert(b.contains(a[i]));
    let j = choose|j: int| 0 <= j < b.len() && b[j] == a[i];
    assert(b[j].name == k);
}

/// An ordering produced by the batched builder holds the same states as
/// the unresolved set it was built from.
proof fn lemma_topo_multiset<C: Condition>(s: Seq<StateModel<C>>, out: Seq<StateModel<C>>)
    requires
        topo_spec(s) == Some(out),
    ensures
        out.to_multiset() == s.to_multiset(),
    decreases s.len(),
{
    if s.len() == 0 {
        assert(out =~= s);
    } else {
        broadcast use vstd::multiset::group_multiset_axioms;

        lemma_batch_rest(s);
        let t = choose|t: Seq<StateModel<C>>| topo_spec(topo_rest(s)) == Some::<Seq<StateModel<C>>>(t);
        lemma_topo_multiset(topo_rest(s), t);
        vstd::seq_lib::lemma_multiset_commutative(topo_batch(s), t);
        assert(out == topo_batch(s) + t);
        assert(out.to_multiset() =~= topo_batch(s).to_multiset().add(t.to_multiset()));
        assert(topo_batch(s).to_multiset().add(t.to_multiset()) =~= topo_batch(
            s,
        ).to_multiset().add(topo_rest(s).to_multiset()));
        assert(out.to_multiset() =~= s.to_multiset());
    }
}

/// An ordering produced by the batched builder is dependency ordered:
/// every relation target that occurs at all occurs strictly earlier than
/// its referrer.
proof fn lemma_topo_ordered<C: Condition>(s: Seq<StateModel<C>>, out: Seq<StateModel<C>>)
    requires
        topo_spec(s) == Some(out),
    ensures
        dependency_ordered(out),
    decreases s.len(),
{
    if s.len() == 0 {
        assert(out =~= Seq::<StateModel<C>>::empty());
    } else {
        let batch = topo_batch(s);
        let rest = topo_rest(s);
        lemma_batch_rest(s);
        let t = choose|t: Seq<StateModel<C>>| topo_spec(rest) == Some::<Seq<StateModel<C>>>(t);
        lemma_topo_ordered(rest, t);
        lemma_topo_multiset(rest, t);
        lemma_topo_multiset(s, out);
        lemma_filter_elems(s, |m: StateModel<C>| no_target_in(m, s));
        assert(out == batch + t);
        assert forall|i: int, k: Seq<char>|
            0 <= i < out.len() && #[trigger] out[i].relations.contains_key(k) && has_name(
                out,
                k,
            ) implies exists|j: int| 0 <= j < i && out[j].name == k by {
            lemma_has_name_perm(out, s, k);
            if i < batch.len() {
                // A batch member has no remaining target at all.
                assert(s.contains(batch[i]));
                assert(no_target_in(batch[i], s));
                assert(false);
            } else {
                // Within the tail the ordering holds by induction; a name
                // of the batch stands before the whole tail.
                let w = choose|w: int| #![trigger out[w]] 0 <= w < out.len() && out[w].name == k;
                if w < batch.len() {
                    assert(out[w].name == k);
                } else {
                    assert(t[w - batch.len()].name == k);
                    assert(has_name(t, k));
                    assert(t[i - batch.len()].relations.contains_key(k));
                    let j = choose|j: int|
                        0 <= j < i - batch.len() && t[j].name == k;
                    assert(out[batch.len() + j].name == k);
                }
            }
        }
    }
}

/// A cycle witness survives a round of the builder: every state it
/// names keeps an unresolved target and stays in the rest.
proof fn lemma_cycle_step<C: Condition>(s: Seq<StateModel<C>>, names: Set<Seq<char>>)
    requires
        cycle_witness(s, names),
    ensures
        cycle_witness(topo_rest(s), names),
{
    let rest = topo_rest(s);
    lemma_filter_elems(s, |m: StateModel<C>| !no_target_in(m, s));
    assert forall|n: Seq<char>| #[trigger] cycle_member(names, n) implies has_name(rest, n) by {
        assert(has_name(s, n));
        let i = choose|i: int| #![trigger s[i]] 0 <= i < s.len() && s[i].name == n;
        assert(cycle_member(names, s[i].name));
        let k = choose|k: Seq<char>| #![auto] s[i].relations.contains_key(k) && names.contains(k);
        assert(cycle_member(names, k));
        assert(has_name(s, k));
        assert(!no_target_in(s[i], s));
        Seq::lemma_filter_contains(s, |m: StateModel<C>| !no_target_in(m, s), i);
        assert(rest.contains(s[i]));
        let w = choose|w: int| 0 <= w < rest.len() && rest[w] == s[i];
        assert(rest[w].name == n);
    }
    assert forall|i: int|
        0 <= i < rest.len() && #[trigger] cycle_member(names, rest[i].name) implies exists|
        k: Seq<char>,
    |
        rest[i].relations.contains_key(k) && names.contains(k) by {
        assert(s.contains(rest[i]));
        let w = choose|w: int| #![trigger s[w]] 0 <= w < s.len() && s[w] == rest[i];
        assert(cycle_member(names, s[w].name));
        let k = choose|k: Seq<char>| #![auto] s[w].relations.contains_key(k) && names.contains(k);
        assert(rest[i].relations.contains_key(k) && names.contains(k));
    }
}

/// A name set witnessing a cycle never drains: the builder fails on it.
proof fn lemma_cycle_gives_none<C: Condition>(s: Seq<StateModel<C>>, names: Set<Seq<char>>)
    requires
        cycle_witness(s, names),
    ensures
        topo_spec(s) is None,
    decreases s.len(),
{
    let n0 = choose|n: Seq<char>| names.contains(n);
    assert(cycle_member(names, n0));
    assert(has_name(s, n0));
    assert(s.len() > 0);
    if topo_batch(s).len() != 0 {
        lemma_batch_rest(s);
        lemma_cycle_step(s, names);
        lemma_cycle_gives_none(topo_rest(s), names);
    }
}

/// When a round of the builder moves nothing while states remain, the
/// names of the remainder witness a cycle.
proof fn lemma_none_gives_cycle<C: Condition>(s: Seq<StateModel<C>>)
    requires
        names_unique(s),
        topo_spec(s) is None,
    ensures
        has_cycle(s),
    decreases s.len(),
{
    assert(s.len() > 0);
    if topo_batch(s).len() == 0 {
        let names = Set::new(|n: Seq<char>| has_name(s, n));
        assert(s[0].name == s[0].name);
        assert(has_name(s, s[0].name));
        assert(names.contains(s[0].name));
        assert forall|i: int|
            0 <= i < s.len() && #[trigger] cycle_member(names, s[i].name) implies exists|
            k: Seq<char>,
        |
            s[i].relations.contains_key(k) && names.contains(k) by {
            if no_target_in(s[i], s) {
                Seq::lemma_filter_contains(s, |m: StateModel<C>| no_target_in(m, s), i);
                assert(topo_batch(s).contains(s[i]));
                assert(false);
            }
            let k = choose|k: Seq<char>| #![auto] s[i].relations.contains_key(k) && has_name(s, k);
            assert(names.contains(k));
        }
        assert(cycle_witness(s, names));
    } else {
        let rest = topo_rest(s);
        lemma_batch_rest(s);
        lemma_filter_elems(s, |m: StateModel<C>| !no_target_in(m, s));
        assert forall|i: int, j: int|
            0 <= i < j < rest.len() implies rest[i].name != rest[j].name by {
            if rest[i].name == rest[j].name {
                let wi = choose|w: int| #![trigger s[w]] 0 <= w < s.len() && s[w] == rest[i];
                let wj = choose|w: int| #![trigger s[w]] 0 <= w < s.len() && s[w] == rest[j];
                assert(s[wi].name == s[wj].name);
                assert(wi == wj);
                // Two positions of the rest carry one state of `s`: its
                // multiset count in `s` is at least two, contradicting the
                // unique names.
                lemma_count_two(rest, i, j);
                lemma_filter_count::<C>(s, |m: StateModel<C>| !no_target_in(m, s), rest[i]);
                lemma_count_two_indices(s, rest[i]);
                let (a, b) = choose|a: int, b: int|
                    0 <= a < b < s.len() && s[a] == rest[i] && s[b] == rest[i];
                assert(s[a].name == s[b].name);
                assert(false);
            }
        }
        lemma_none_gives_cycle(rest);
        let names = choose|names: Set<Seq<char>>| cycle_witness(rest, names);
        assert forall|n: Seq<char>| #[trigger] cycle_member(names, n) implies has_name(s, n) by {
            assert(has_name(rest, n));
            let w = choose|w: int| #![trigger rest[w]] 0 <= w < rest.len() && rest[w].name == n;
            assert(s.contains(rest[w]));
            let v = choose|v: int| #![trigger s[v]] 0 <= v < s.len() && s[v] == rest[w];
            assert(s[v].name == n);
        }
        assert forall|i: int|
            0 <= i < s.len() && #[trigger] cycle_member(names, s[i].name) implies exists|
            k: Seq<char>,
        |
            s[i].relations.contains_key(k) && names.contains(k) by {
            // The rest state carrying this name is this very state, the
            // names of `s` being unique.
            assert(has_name(rest, s[i].name));
            let w = choose|w: int| #![trigger rest[w]] 0 <= w < rest.len() && rest[w].name
                == s[i].name;
            assert(s.contains(rest[w]));
            let v = choose|v: int| #![trigger s[v]] 0 <= v < s.len() && s[v] == rest[w];
            assert(s[v].name == s[i].name);
            assert(v == i);
            assert(cycle_member(names, rest[w].name));
            let k = choose|k: Seq<char>| #![auto] rest[w].relations.contains_key(k)
                && names.contains(k);
            assert(s[i].relations.contains_key(k) && names.contains(k));
        }
        assert(cycle_witness(s, names));
    }
}

/// Two positions holding one value give that value a count of two.
proof fn lemma_count_two<A>(s: Seq<A>, i: int, j: int)
    requires
        0 <= i < j < s.len(),
        s[i] == s[j],
    ensures
        s.to_multiset().count(s[i]) >= 2,
{
    broadcast use vstd::seq_lib::group_to_multiset_ensures;
    broadcast use vstd::multiset::group_multiset_axioms;

    let s0 = s.subrange(0, j);
    let s1 = s.subrange(j, s.len() as int);
    assert(s =~= s0 + s1);
    vstd::seq_lib::lemma_multiset_commutative(s0, s1);
    assert(s0[i] == s[i]);
    assert(s0.contains(s[i]));
    assert(s1[0] == s[j]);
    assert(s1.contains(s[i]));
    assert(s0.to_multiset().count(s[i]) >= 1);
    assert(s1.to_multiset().count(s[i]) >= 1);
}

/// A count of two puts the value at two distinct positions.
proof fn lemma_count_two_indices<A>(s: Seq<A>, v: A)
    requires
        s.to_multiset().count(v) >= 2,
    ensures
        exists|a: int, b: int| 0 <= a < b < s.len() && s[a] == v && s[b] == v,
    decreases s.len(),
{
    broadcast use vstd::seq_lib::group_to_multiset_ensures;
    broadcast use vstd::multiset::group_multiset_axioms;

    assert(s.to_multiset().contains(v));
    assert(s.contains(v));
    let a = choose|a: int| 0 <= a < s.len() && s[a] == v;
    let s2 = s.remove(a);
    assert(s2.to_multiset() =~= s.to_multiset().remove(s[a]));
    assert(s2.to_multiset().count(v) >= 1);
    assert(s2.contains(v));
    let c = choose|c: int| 0 <= c < s2.len() && s2[c] == v;
    if c < a {
        assert(s[c] == s2[c]);
        assert(0 <= c < a < s.len() && s[c] == v && s[a] == v);
    } else {
        assert(s[c + 1] == s2[c]);
        assert(0 <= a < c + 1 < s.len() && s[a] == v && s[c + 1] == v);
    }
}

/// A filtered sequence counts each value no higher than the original.
proof fn lemma_filter_count<C: Condition>(
    s: Seq<StateModel<C>>,
    pred: spec_fn(StateModel<C>) -> bool,
    v: StateModel<C>,
)
    ensures
        s.filter(pred).to_multiset().count(v) <= s.to_multiset().count(v),
    decreases s.len(),
{
    broadcast use vstd::seq_lib::group_to_multiset_ensures;
    broadcast use vstd::multiset::group_multiset_axioms;

    reveal(Seq::filter);
    if s.len() > 0 {
        lemma_filter_count(s.drop_last(), pred, v);
        assert(s.drop_last().push(s.last()) =~= s);
        assert(s.to_multiset() =~= s.drop_last().to_multiset().insert(s.last()));
        if pred(s.last()) {
            assert(s.filter(pred).to_multiset() =~= s.drop_last().filter(
                pred,
            ).to_multiset().insert(s.last()));
        }
    }
}

} // verus!

verus! {

/// A filtered sequence of a strictly name-sorted sequence is strictly
/// name-sorted.
proof fn lemma_filter_name_sorted<C: Condition>(
    s: Seq<StateModel<C>>,
    pred: spec_fn(StateModel<C>) -> bool,
)
    requires
        name_sorted(s),
    ensures
        name_sorted(s.filter(pred)),
    decreases s.len(),
{
    reveal(Seq::filter);
    if s.len() > 0 {
        assert(name_sorted(s.drop_last()));
        lemma_filter_name_sorted(s.drop_last(), pred);
        lemma_filter_elems(s.drop_last(), pred);
        let sub = s.drop_last().filter(pred);
        if pred(s.last()) {
            assert forall|i: int, j: int|
                0 <= i < j < s.filter(pred).len() implies lex_lt(
                s.filter(pred)[i].name,
                s.filter(pred)[j].name,
            ) by {
                if j < sub.len() {
                    assert(s.filter(pred)[i] == sub[i] && s.filter(pred)[j] == sub[j]);
                } else {
                    assert(s.filter(pred)[i] == sub[i]);
                    assert(s.filter(pred)[j] == s.last());
                    assert(s.drop_last().contains(sub[i]));
                    let w = choose|w: int|
                        0 <= w < s.drop_last().len() && s.drop_last()[w] == sub[i];
                    assert(s[w] == sub[i]);
                    assert(lex_lt(s[w].name, s[s.len() - 1].name));
                }
            }
        }
    }
}

/// A strictly name-sorted sequence has unique names.
proof fn lemma_name_sorted_unique<C: Condition>(s: Seq<StateModel<C>>)
    requires
        name_sorted(s),
    ensures
        names_unique(s),
{
    assert forall|i: int, j: int| 0 <= i < j < s.len() implies s[i].name != s[j].name by {
        if s[i].name == s[j].name {
            crate::order::lemma_lex_lt_irreflexive(s[i].name);
        }
    }
}

/// Two strictly name-sorted sequences holding the same states are equal.
proof fn lemma_name_sorted_perm_unique<C: Condition>(a: Seq<StateModel<C>>, b: Seq<StateModel<C>>)
    requires
        a.to_multiset() == b.to_multiset(),
        name_sorted(a),
        name_sorted(b),
    ensures
        a == b,
    decreases a.len(),
{
    broadcast use vstd::seq_lib::group_to_multiset_ensures;
    broadcast use vstd::multiset::group_multiset_axioms;

    a.to_multiset_ensures();
    b.to_multiset_ensures();
    if a.len() == 0 {
        assert(b.to_multiset().len() == 0);
        assert(a =~= b);
    } else {
        assert(b.to_multiset().len() == a.to_multiset().len());
        assert(b.len() > 0);
        assert(a.contains(a[0]));
        assert(b.to_multiset().count(a[0]) > 0);
        assert(b.contains(a[0]));
        let w = choose|w: int| 0 <= w < b.len() && b[w] == a[0];
        assert(b.contains(b[0]));
        assert(a.to_multiset().count(b[0]) > 0);
        assert(a.contains(b[0]));
        let v = choose|v: int| 0 <= v < a.len() && a[v] == b[0];
        if w > 0 && v > 0 {
            assert(lex_lt(b[0].name, b[w].name));
            assert(lex_lt(a[0].name, a[v].name));
            crate::order::lemma_lex_lt_asymmetric(a[0].name, b[0].name);
            assert(false);
        }
        assert(a[0] == b[0]);
        assert(a.remove(0) =~= a.drop_first());
        assert(b.remove(0) =~= b.drop_first());
        assert(a.drop_first().to_multiset() =~= a.to_multiset().remove(a[0]));
        assert(b.drop_first().to_multiset() =~= b.to_multiset().remove(b[0]));
        assert(name_sorted(a.drop_first())) by {
            assert(forall|i: int|
                0 <= i < a.drop_first().len() ==> a.drop_first()[i] == a[i + 1]);
        }
        assert(name_sorted(b.drop_first())) by {
            assert(forall|i: int|
                0 <= i < b.drop_first().len() ==> b.drop_first()[i] == b[i + 1]);
        }
        lemma_name_sorted_perm_unique(a.drop_first(), b.drop_first());
        assert forall|i: int| 0 <= i < a.len() implies a[i] == b[i] by {
            if i > 0 {
                assert(a[i] == a.drop_first()[i - 1]);
                assert(b[i] == b.drop_first()[i - 1]);
            }
        }
        assert(a =~= b);
    }
}

/// A cycle witness carries over to any rearrangement of the states.
proof fn lemma_cycle_perm<C: Condition>(
    a: Seq<StateModel<C>>,
    b: Seq<StateModel<C>>,
    names: Set<Seq<char>>,
)
    requires
        a.to_multiset() == b.to_multiset(),
        cycle_witness(a, names),
    ensures
        cycle_witness(b, names),
{
    broadcast use vstd::seq_lib::group_to_multiset_ensures;

    assert forall|n: Seq<char>| #[trigger] cycle_member(names, n) implies has_name(b, n) by {
        assert(has_name(a, n));
        lemma_has_name_perm(a, b, n);
    }
    assert forall|i: int|
        0 <= i < b.len() && #[trigger] cycle_member(names, b[i].name) implies exists|k: Seq<char>|
        b[i].relations.contains_key(k) && names.contains(k) by {
        assert(b.contains(b[i]));
        assert(a.to_multiset().count(b[i]) > 0);
        assert(a.contains(b[i]));
        let w = choose|w: int| #![trigger a[w]] 0 <= w < a.len() && a[w] == b[i];
        assert(cycle_member(names, a[w].name));
        let k = choose|k: Seq<char>| #![auto] a[w].relations.contains_key(k) && names.contains(k);
        assert(b[i].relations.contains_key(k) && names.contains(k));
    }
}

/// Unique names carry over to any rearrangement of the states.
proof fn lemma_perm_names_unique<C: Condition>(a: Seq<StateModel<C>>, b: Seq<StateModel<C>>)
    requires
        a.to_multiset() == b.to_multiset(),
        names_unique(a),
    ensures
        names_unique(b),
{
    broadcast use vstd::seq_lib::group_to_multiset_ensures;

    assert forall|i: int, j: int| 0 <= i < j < b.len() implies b[i].name != b[j].name by {
        if b[i].name == b[j].name {
            if b[i] == b[j] {
                lemma_count_two(b, i, j);
                lemma_count_two_indices(a, b[i]);
                let (x, y) = choose|x: int, y: int|
                    0 <= x < y < a.len() && a[x] == b[i] && a[y] == b[i];
                assert(a[x].name == a[y].name);
            } else {
                assert(b.contains(b[i]) && b.contains(b[j]));
                assert(a.to_multiset().count(b[i]) > 0 && a.to_multiset().count(b[j]) > 0);
                assert(a.contains(b[i]) && a.contains(b[j]));
                let x = choose|x: int| 0 <= x < a.len() && a[x] == b[i];
                let y = choose|y: int| 0 <= y < a.len() && a[y] == b[j];
                assert(x != y);
                assert(a[x].name == a[y].name);
            }
        }
    }
}

/// Inserting an element anywhere adds it to the sequence's multiset.
proof fn lemma_insert_multiset<A>(s: Seq<A>, pos: int, a: A)
    requires
        0 <= pos <= s.len(),
    ensures
        s.insert(pos, a).to_multiset() == s.to_multiset().insert(a),
{
    broadcast use vstd::seq_lib::group_to_multiset_ensures;
    broadcast use vstd::multiset::group_multiset_axioms;

    let left = s.subrange(0, pos);
    let right = s.subrange(pos, s.len() as int);
    assert(s =~= left + right);
    assert(s.insert(pos, a) =~= left.push(a) + right);
    vstd::seq_lib::lemma_multiset_commutative(left, right);
    vstd::seq_lib::lemma_multiset_commutative(left.push(a), right);
    assert(left.push(a).to_multiset() =~= left.to_multiset().insert(a));
    assert(s.insert(pos, a).to_multiset() =~= s.to_multiset().insert(a));
}

} // verus!

verus! {

/// Check whether any relation target of the state is among the given
/// keys.
///
/// Correlates the state's relation table against the sorted key list with
/// the merge-join iterator.
fn has_open_dependency<C: Condition>(state: &IssueState<C>, keys: &Vec<(String, ())>) -> (r: bool)
    requires
        state.wf(),
        str_keys_sorted(keys@),
    ensures
        r == exists|k: Seq<char>| #[trigger]
            state@.relations.contains_key(k) && assoc_map(keys@).contains_key(k),
{
    let rels = &state.relations;
    proof {
        lemma_str_keys_sorted(rels@);
        lemma_str_keys_sorted(keys@);
    }
    let mut join: LeftJoin<String, StateRelation, ()> = rels.join_left(keys);
    loop
        invariant
            join.wf(),
            join.left == rels,
            join.right == keys,
            rels == &state.relations,
            state.wf(),
            str_keys_sorted(keys@),
            join.lpos <= rels@.len(),
            forall|t: int| 0 <= t < join.lpos ==> assoc_lookup(keys@, rels@[t].0) is None,
        ensures
            forall|t: int| 0 <= t < rels@.len() ==> assoc_lookup(keys@, rels@[t].0) is None,
        decreases rels@.len() - join.lpos,
    {
        let ghost t = join.lpos as int;
        match join.next() {
            None => {
                break ;
            },
            Some((_kind, val)) => {
                if val.is_some() {
                    proof {
                        lemma_sorted_map_index(rels@, t);
                        lemma_assoc_lookup_is_map(keys@, rels@[t].0);
                        assert(state@.relations.contains_key(rels@[t].0@));
                        assert(assoc_map(keys@).contains_key(rels@[t].0@));
                    }
                    return true;
                }
            },
        }
    }
    proof {
        assert forall|k: Seq<char>| #[trigger]
            state@.relations.contains_key(k) implies !assoc_map(keys@).contains_key(k) by {
            lemma_assoc_map_contains(rels@, k);
            let t = choose|t: int| 0 <= t < rels@.len() && rels@[t].0@ == k;
            lemma_assoc_lookup_is_map(keys@, rels@[t].0);
        }
    }
    false
}

/// Arrange the states in strictly ascending name order by insertion sort.
fn sort_states<C: Condition>(states: &Vec<Arc<IssueState<C>>>) -> (r: Vec<Arc<IssueState<C>>>)
    requires
        names_unique(models(states@)),
    ensures
        name_sorted(models(r@)),
        models(r@).to_multiset() == models(states@).to_multiset(),
        r@.to_multiset() == states@.to_multiset(),
        r@.len() == states@.len(),
{
    broadcast use vstd::seq_lib::group_to_multiset_ensures;

    let mut out: Vec<Arc<IssueState<C>>> = Vec::new();
    let mut i: usize = 0;
    let len = states.len();
    proof {
        assert(states@.take(0) =~= Seq::<Arc<IssueState<C>>>::empty());
        assert(models(states@.take(0)) =~= Seq::<StateModel<C>>::empty());
        assert(models(out@) =~= Seq::<StateModel<C>>::empty());
        assert(models(out@).to_multiset() =~= models(states@.take(0)).to_multiset());
        assert(out@.to_multiset() =~= states@.take(0).to_multiset());
    }
    while i < len
        invariant
            i <= len,
            len == states@.len(),
            names_unique(models(states@)),
            out@.len() == i,
            name_sorted(models(out@)),
            models(out@).to_multiset() == models(states@.take(i as int)).to_multiset(),
            out@.to_multiset() == states@.take(i as int).to_multiset(),
        decreases len - i,
    {
        let next = &states[i];
        let ghost m = next@;
        proof {
            assert(models(states@)[i as int] == m);
        }
        let olen = out.len();
        let mut pos: usize = 0;
        loop
            invariant
                pos <= olen,
                olen == out@.len(),
                m == next@,
                forall|j: int| 0 <= j < pos ==> !lex_lt(m.name, models(out@)[j].name),
            ensures
                pos <= olen,
                olen == out@.len(),
                forall|j: int| 0 <= j < pos ==> !lex_lt(m.name, models(out@)[j].name),
                pos < olen ==> lex_lt(m.name, models(out@)[pos as int].name),
            decreases olen - pos,
        {
            if pos == olen {
                break ;
            }
            if crate::order::str_cmp(next.name.as_str(), out[pos].name.as_str())
                == crate::order::KeyOrdering::Less {
                proof {
                    assert(models(out@)[pos as int].name == out@[pos as int]@.name);
                }
                break ;
            }
            proof {
                assert(models(out@)[pos as int].name == out@[pos as int]@.name);
            }
            pos = pos + 1;
        }
        proof {
            broadcast use vstd::seq_lib::group_to_multiset_ensures;
            broadcast use vstd::multiset::group_multiset_axioms;

            let om = models(out@);
            // The incoming name differs from every name already placed.
            assert forall|j: int| 0 <= j < om.len() implies om[j].name != m.name by {
                assert(om.contains(om[j]));
                assert(om.to_multiset().count(om[j]) > 0);
                assert(models(states@.take(i as int)).to_multiset().count(om[j]) > 0);
                assert(models(states@.take(i as int)).contains(om[j]));
                let w = choose|w: int| #![auto]
                    0 <= w < i && models(states@.take(i as int))[w] == om[j];
                assert(models(states@)[w] == om[j]);
                assert(models(states@)[w].name != models(states@)[i as int].name);
            }
            // Everything before the insertion point lies strictly below.
            assert forall|j: int| 0 <= j < pos implies lex_lt(om[j].name, m.name) by {
                crate::order::lemma_lex_equiv_is_eq(m.name, om[j].name);
            }
            let nm = om.insert(pos as int, m);
            assert forall|x: int, y: int| 0 <= x < y < nm.len() implies lex_lt(
                nm[x].name,
                nm[y].name,
            ) by {
                if y < pos {
                } else if y == pos {
                    assert(nm[x] == om[x]);
                } else if x == pos {
                    if pos < olen {
                        if y - 1 == pos {
                        } else {
                            crate::order::lemma_lex_lt_transitive(
                                m.name,
                                om[pos as int].name,
                                om[y - 1].name,
                            );
                        }
                    }
                } else if x < pos {
                    assert(nm[x] == om[x] && nm[y] == om[y - 1]);
                    if y - 1 == x {
                        assert(lex_lt(om[x].name, m.name));
                        assert(false);
                    }
                } else {
                    assert(nm[x] == om[x - 1] && nm[y] == om[y - 1]);
                }
            }
            lemma_insert_multiset(om, pos as int, m);
            lemma_insert_multiset(out@, pos as int, states@[i as int]);
            assert(models(out@.insert(pos as int, states@[i as int])) =~= nm);
            assert(states@.take(i + 1).drop_last() =~= states@.take(i as int));
            assert(states@.take(i + 1) =~= states@.take(i as int).push(states@[i as int]));
            assert(models(states@.take(i + 1)) =~= models(states@.take(i as int)).push(m));
        }
        out.insert(pos, next.clone());
        i = i + 1;
    }
    proof {
        assert(states@.take(len as int) =~= states@);
    }
    out
}

impl<C: Condition> IssueStateSet<C> {
    /// Create an issue state set from an unordered set of issue states
    ///
    /// The states are brought into their by-name order and then moved to
    /// the output in rounds: each round moves every state none of whose
    /// relation targets is still unresolved.  A round that moves nothing
    /// while states remain signals a dependency cycle, reported as
    /// [`ErrorKind::CyclicDependency`]; this happens exactly when the
    /// input [`has_cycle`].
    ///
    /// # Note:
    ///
    /// The set provided must be the (transitive) closure of all its
    /// elements regarding its relations to other states: if a state is in
    /// the set, all states related to it must also be in the set.  No
    /// explicit checking is performed to assert this property; a relation
    /// target absent from the set is treated as already resolved.
    pub fn from_set(states: Vec<Arc<IssueState<C>>>) -> (r: Result<IssueStateSet<C>, Error>)
        requires
            forall|i: int| 0 <= i < states@.len() ==> (*states@[i]).wf(),
            names_unique(models(states@)),
        ensures
            match r {
                Ok(set) => {
                    &&& set.wf()
                    &&& set@.to_multiset() == models(states@).to_multiset()
                    &&& names_unique(set@)
                    &&& dependency_ordered(set@)
                    &&& !has_cycle(models(states@))
                    &&& forall|sorted: Seq<StateModel<C>>|
                        sorted.to_multiset() == models(states@).to_multiset() && name_sorted(
                            sorted,
                        ) ==> topo_spec(sorted) == Some(set@)
                },
                Err(e) => {
                    &&& e.kind == ErrorKind::CyclicDependency
                    &&& has_cycle(models(states@))
                    &&& forall|sorted: Seq<StateModel<C>>|
                        sorted.to_multiset() == models(states@).to_multiset() && name_sorted(
                            sorted,
                        ) ==> topo_spec(sorted) is None
                },
            },
    {
        broadcast use vstd::seq_lib::group_to_multiset_ensures;

        let ghost input = models(states@);
        let mut remaining = sort_states(&states);
        let ghost sorted0 = models(remaining@);
        proof {
            // Each sorted state is one of the input states, hence
            // well-formed.
            assert forall|i: int| 0 <= i < remaining@.len() implies (*remaining@[i]).wf() by {
                assert(remaining@.to_multiset().count(remaining@[i]) > 0);
                assert(states@.contains(remaining@[i]));
                let w = choose|w: int| 0 <= w < states@.len() && states@[w] == remaining@[i];
            }
        }
        let mut data: Vec<Arc<IssueState<C>>> = Vec::new();
        loop
            invariant
                input == models(states@),
                names_unique(input),
                name_sorted(sorted0),
                sorted0.to_multiset() == input.to_multiset(),
                forall|i: int| 0 <= i < remaining@.len() ==> (*remaining@[i]).wf(),
                forall|i: int| 0 <= i < data@.len() ==> (*data@[i]).wf(),
                name_sorted(models(remaining@)),
                (match topo_spec(models(remaining@)) {
                    None => topo_spec(sorted0) is None,
                    Some(t) => topo_spec(sorted0) == Some(models(data@) + t),
                }),
            ensures
                remaining@.len() == 0,
                forall|i: int| 0 <= i < data@.len() ==> (*data@[i]).wf(),
                topo_spec(sorted0) == Some(models(data@)),
            decreases remaining@.len(),
        {
            if remaining.len() == 0 {
                proof {
                    assert(models(remaining@) =~= Seq::<StateModel<C>>::empty());
                    assert(topo_spec(models(remaining@)) == Some(Seq::<StateModel<C>>::empty()));
                    assert(models(data@) + Seq::<StateModel<C>>::empty() =~= models(data@));
                }
                break ;
            }
            let rlen = remaining.len();
            let ghost rm = models(remaining@);
            // The names still unresolved, as sorted join keys.
            let mut keys: Vec<(String, ())> = Vec::new();
            let mut j: usize = 0;
            while j < rlen
                invariant
                    j <= rlen,
                    rlen == remaining@.len(),
                    rm == models(remaining@),
                    keys@.len() == j,
                    forall|t: int| 0 <= t < j ==> keys@[t].0@ == rm[t].name,
                decreases rlen - j,
            {
                let entry = &remaining[j];
                keys.push((entry.name.clone(), ()));
                proof {
                    assert(keys@[j as int].0@ == rm[j as int].name);
                }
                j = j + 1;
            }
            proof {
                assert forall|x: int, y: int| 0 <= x < y < keys@.len() implies lex_lt(
                    keys@[x].0@,
                    keys@[y].0@,
                ) by {
                    assert(lex_lt(rm[x].name, rm[y].name));
                }
                assert(str_keys_sorted(keys@));
                // The key map knows exactly the unresolved names.
                assert forall|k: Seq<char>| #[trigger]
                    assoc_map(keys@).contains_key(k) == has_name(rm, k) by {
                    lemma_assoc_map_contains(keys@, k);
                    if assoc_map(keys@).contains_key(k) {
                        let t = choose|t: int| 0 <= t < keys@.len() && keys@[t].0@ == k;
                        assert(rm[t].name == k);
                    }
                    if has_name(rm, k) {
                        let t = choose|t: int| #![trigger rm[t]] 0 <= t < rm.len() && rm[t].name
                            == k;
                        assert(keys@[t].0@ == k);
                    }
                }
            }
            // Partition the unresolved states: those with no unresolved
            // relation target form the round's batch.
            let mut batch: Vec<Arc<IssueState<C>>> = Vec::new();
            let mut rest: Vec<Arc<IssueState<C>>> = Vec::new();
            let mut j: usize = 0;
            while j < rlen
                invariant
                    j <= rlen,
                    rlen == remaining@.len(),
                    rm == models(remaining@),
                    str_keys_sorted(keys@),
                    forall|k: Seq<char>| #[trigger]
                        assoc_map(keys@).contains_key(k) == has_name(rm, k),
                    forall|i: int| 0 <= i < remaining@.len() ==> (*remaining@[i]).wf(),
                    forall|i: int| 0 <= i < batch@.len() ==> (*batch@[i]).wf(),
                    forall|i: int| 0 <= i < rest@.len() ==> (*rest@[i]).wf(),
                    models(batch@) == models(remaining@.take(j as int)).filter(
                        |m: StateModel<C>| no_target_in(m, rm),
                    ),
                    models(rest@) == models(remaining@.take(j as int)).filter(
                        |m: StateModel<C>| !no_target_in(m, rm),
                    ),
                decreases rlen - j,
            {
                let st = &remaining[j];
                let ghost stm = st@;
                proof {
                    assert(stm == rm[j as int]);
                }
                let dep = has_open_dependency(st, &keys);
                proof {
                    if dep {
                        let k = choose|k: Seq<char>| #![auto] stm.relations.contains_key(k)
                            && assoc_map(keys@).contains_key(k);
                        assert(has_name(rm, k));
                        assert(!no_target_in(stm, rm));
                    } else {
                        assert forall|k: Seq<char>| #[trigger]
                            stm.relations.contains_key(k) implies !has_name(rm, k) by {
                            assert(!assoc_map(keys@).contains_key(k));
                        }
                        assert(no_target_in(stm, rm));
                    }
                    reveal(Seq::filter);
                    let prefix = models(remaining@.take(j as int));
                    let prefix1 = models(remaining@.take(j + 1));
                    assert(remaining@.take(j + 1).drop_last() =~= remaining@.take(j as int));
                    assert(prefix1.drop_last() =~= prefix);
                    assert(prefix1.last() == stm);
                }
                if dep {
                    rest.push(st.clone());
                } else {
                    batch.push(st.clone());
                }
                j = j + 1;
                proof {
                    let prefix1 = models(remaining@.take(j as int));
                    assert(models(batch@) =~= prefix1.filter(
                        |m: StateModel<C>| no_target_in(m, rm),
                    ));
                    assert(models(rest@) =~= prefix1.filter(
                        |m: StateModel<C>| !no_target_in(m, rm),
                    ));
                }
            }
            proof {
                assert(remaining@.take(rlen as int) =~= remaining@);
                assert(models(batch@) == topo_batch(rm));
                assert(models(rest@) == topo_rest(rm));
            }
            // If no state could be moved, the remainder forms a
            // dependency cycle.
            if batch.len() == 0 {
                proof {
                    assert(models(batch@).len() == 0);
                    assert(topo_spec(rm) is None);
                    lemma_name_sorted_unique(sorted0);
                    lemma_none_gives_cycle(sorted0);
                    let names = choose|names: Set<Seq<char>>| cycle_witness(sorted0, names);
                    lemma_cycle_perm(sorted0, input, names);
                    assert(has_cycle(input));
                    assert forall|sorted: Seq<StateModel<C>>|
                        sorted.to_multiset() == input.to_multiset() && name_sorted(
                            sorted,
                        ) implies topo_spec(sorted) is None by {
                        lemma_name_sorted_perm_unique(sorted, sorted0);
                    }
                }
                return Err(Error { kind: ErrorKind::CyclicDependency });
            }
            let ghost old_data = data@;
            let ghost old_rm = rm;
            data.append(&mut batch);
            remaining = rest;
            proof {
                lemma_filter_name_sorted(old_rm, |m: StateModel<C>| !no_target_in(m, old_rm));
                let t_opt = topo_spec(models(remaining@));
                assert(topo_spec(old_rm) == (match t_opt {
                    None => None::<Seq<StateModel<C>>>,
                    Some(t) => Some(topo_batch(old_rm) + t),
                }));
                match t_opt {
                    None => {},
                    Some(t) => {
                        assert(topo_spec(sorted0) == Some(
                            models(old_data) + (topo_batch(old_rm) + t),
                        ));
                        assert(models(data@) =~= models(old_data) + topo_batch(old_rm));
                        assert(models(old_data) + (topo_batch(old_rm) + t) =~= models(data@) + t);
                    },
                }
                lemma_batch_rest(old_rm);
            }
        }
        proof {
            lemma_topo_multiset(sorted0, models(data@));
            lemma_topo_ordered(sorted0, models(data@));
            lemma_name_sorted_unique(sorted0);
            lemma_perm_names_unique(sorted0, models(data@));
            if has_cycle(input) {
                let names = choose|names: Set<Seq<char>>| cycle_witness(input, names);
                lemma_cycle_perm(input, sorted0, names);
                lemma_cycle_gives_none(sorted0, names);
                assert(false);
            }
            assert forall|sorted: Seq<StateModel<C>>|
                sorted.to_multiset() == input.to_multiset() && name_sorted(sorted) implies
                topo_spec(sorted) == Some(models(data@)) by {
                lemma_name_sorted_perm_unique(sorted, sorted0);
            }
        }
        Ok(IssueStateSet { data })
    }
}

} // verus!

verus! {

/// The ordering a catalog was built with is stable under re-running the
/// builder on its own output: feeding the produced states — in their
/// by-name order, as [`IssueStateSet::from_set`] would arrange them —
/// through the batched ordering again reproduces the very same ordering.
pub proof fn lemma_builder_stable<C: Condition>(
    sorted: Seq<StateModel<C>>,
    out: Seq<StateModel<C>>,
    resorted: Seq<StateModel<C>>,
)
    requires
        name_sorted(sorted),
        topo_spec(sorted) == Some(out),
        name_sorted(resorted),
        resorted.to_multiset() == out.to_multiset(),
    ensures
        topo_spec(resorted) == Some(out),
{
    lemma_topo_multiset(sorted, out);
    lemma_name_sorted_perm_unique(resorted, sorted);
}

} // verus!

verus! {

/// Every relation target of a state names a state strictly earlier in the
/// sequence: the invariant a document-ordered catalog establishes by
/// resolving references only against states already produced.
pub open spec fn targets_earlier<C: Condition>(states: Seq<StateModel<C>>) -> bool {
    forall|i: int, k: Seq<char>|
        0 <= i < states.len() && #[trigger] states[i].relations.contains_key(k) ==> has_name(
            states.take(i),
            k,
        )
}

/// A sequence whose relation targets all resolve strictly earlier is
/// dependency ordered.
pub proof fn lemma_targets_earlier_ordered<C: Condition>(states: Seq<StateModel<C>>)
    requires
        targets_earlier(states),
    ensures
        dependency_ordered(states),
{
    assert forall|i: int, k: Seq<char>|
        0 <= i < states.len() && #[trigger] states[i].relations.contains_key(k) && has_name(
            states,
            k,
        ) implies exists|j: int| 0 <= j < i && states[j].name == k by {
        assert(has_name(states.take(i), k));
        let j = choose|j: int| #![trigger states.take(i)[j]]
            0 <= j < i && states.take(i)[j].name == k;
        assert(states[j].name == k);
    }
}

} // verus!

verus! {

/// A strictly sorted rearrangement with one more state exists, provided
/// the new state's name is fresh.
proof fn lemma_sorted_insert_exists<C: Condition>(t: Seq<StateModel<C>>, m: StateModel<C>) -> (r:
    Seq<StateModel<C>>)
    requires
        name_sorted(t),
        forall|i: int| 0 <= i < t.len() ==> t[i].name != m.name,
    ensures
        name_sorted(r),
        r.to_multiset() == t.to_multiset().insert(m),
    decreases t.len(),
{
    broadcast use vstd::seq_lib::group_to_multiset_ensures;
    broadcast use vstd::multiset::group_multiset_axioms;

    if t.len() == 0 {
        let r = seq![m];
        assert(Seq::<StateModel<C>>::empty().push(m) =~= r);
        assert(r.to_multiset() =~= t.to_multiset().insert(m));
        r
    } else if lex_lt(m.name, t[0].name) {
        let r = seq![m] + t;
        assert forall|x: int, y: int| 0 <= x < y < r.len() implies lex_lt(
            r[x].name,
            r[y].name,
        ) by {
            if x == 0 {
                assert(r[y] == t[y - 1]);
                if y > 1 {
                    crate::order::lemma_lex_lt_transitive(m.name, t[0].name, t[y - 1].name);
                }
            } else {
                assert(r[x] == t[x - 1] && r[y] == t[y - 1]);
            }
        }
        vstd::seq_lib::lemma_multiset_commutative(seq![m], t);
        assert(Seq::<StateModel<C>>::empty().push(m) =~= seq![m]);
        assert(r.to_multiset() =~= t.to_multiset().insert(m));
        r
    } else {
        // The head lies strictly below the new state.
        crate::order::lemma_lex_equiv_is_eq(m.name, t[0].name);
        assert(lex_lt(t[0].name, m.name));
        let sub_in = t.drop_first();
        assert forall|x: int, y: int| 0 <= x < y < sub_in.len() implies lex_lt(
            sub_in[x].name,
            sub_in[y].name,
        ) by {
            assert(sub_in[x] == t[x + 1] && sub_in[y] == t[y + 1]);
        }
        assert forall|i: int| 0 <= i < sub_in.len() implies sub_in[i].name != m.name by {
            assert(sub_in[i] == t[i + 1]);
        }
        let sub = lemma_sorted_insert_exists(sub_in, m);
        let r = seq![t[0]] + sub;
        assert forall|i: int| 0 <= i < sub.len() implies lex_lt(t[0].name, sub[i].name) by {
            assert(sub.contains(sub[i]));
            assert(sub.to_multiset().count(sub[i]) > 0);
            if sub[i] != m {
                assert(sub_in.to_multiset().count(sub[i]) > 0);
                assert(sub_in.contains(sub[i]));
                let w = choose|w: int| 0 <= w < sub_in.len() && sub_in[w] == sub[i];
                assert(sub_in[w] == t[w + 1]);
            }
        }
        assert forall|x: int, y: int| 0 <= x < y < r.len() implies lex_lt(
            r[x].name,
            r[y].name,
        ) by {
            if x > 0 {
                assert(r[x] == sub[x - 1] && r[y] == sub[y - 1]);
            } else {
                assert(r[y] == sub[y - 1]);
            }
        }
        vstd::seq_lib::lemma_multiset_commutative(seq![t[0]], sub);
        vstd::seq_lib::lemma_multiset_commutative(seq![t[0]], sub_in);
        assert(seq![t[0]] + sub_in =~= t);
        assert(Seq::<StateModel<C>>::empty().push(t[0]) =~= seq![t[0]]);
        assert(r.to_multiset() =~= t.to_multiset().insert(m));
        r
    }
}

/// Uniquely-named states always admit a strictly name-sorted
/// rearrangement.
proof fn lemma_sorted_arrangement_exists<C: Condition>(s: Seq<StateModel<C>>) -> (t: Seq<
    StateModel<C>,
>)
    requires
        names_unique(s),
    ensures
        name_sorted(t),
        t.to_multiset() == s.to_multiset(),
    decreases s.len(),
{
    broadcast use vstd::seq_lib::group_to_multiset_ensures;

    if s.len() == 0 {
        s
    } else {
        assert(names_unique(s.drop_last()));
        let rest = lemma_sorted_arrangement_exists(s.drop_last());
        assert forall|i: int| 0 <= i < rest.len() implies rest[i].name != s.last().name by {
            assert(rest.contains(rest[i]));
            assert(rest.to_multiset().count(rest[i]) > 0);
            assert(s.drop_last().to_multiset().count(rest[i]) > 0);
            assert(s.drop_last().contains(rest[i]));
            let w = choose|w: int| 0 <= w < s.drop_last().len() && s.drop_last()[w] == rest[i];
            assert(s[w] == rest[i]);
            assert(s[w].name != s[s.len() - 1].name);
        }
        let t = lemma_sorted_insert_exists(rest, s.last());
        assert(s.drop_last().push(s.last()) =~= s);
        assert(t.to_multiset() =~= s.to_multiset());
        t
    }
}

/// A catalog whose relation targets all resolve strictly earlier — a
/// document-ordered catalog — never fails a resolution scan.
pub proof fn lemma_targets_earlier_resolves<C: Condition>(states: Seq<StateModel<C>>)
    requires
        targets_earlier(states),
    ensures
        !missing_dependency(states),
{
}

/// A dependency-ordered catalog holding all its relation targets — the
/// builder's output for a transitively closed set — never fails a
/// resolution scan.
pub proof fn lemma_closed_catalog_resolves<C: Condition>(states: Seq<StateModel<C>>)
    requires
        dependency_ordered(states),
        forall|i: int, k: Seq<char>|
            0 <= i < states.len() && #[trigger] states[i].relations.contains_key(k) ==> has_name(
                states,
                k,
            ),
    ensures
        !missing_dependency(states),
{
    if missing_dependency(states) {
        let (i, k) = choose|i: int, k: Seq<char>|
            0 <= i < states.len() && extends_key(states[i], k) && !has_name(states.take(i), k);
        assert(states[i].relations.contains_key(k));
        assert(has_name(states, k));
        let j = choose|j: int| #![trigger states[j]] 0 <= j < i && states[j].name == k;
        assert(states.take(i)[j].name == k);
        assert(false);
    }
}

/// The builder's outcome is determined by the states alone: any two
/// ordering outcomes characterized over the same uniquely-named states
/// coincide.  Chained across two [`IssueStateSet::from_set`] calls — the
/// second fed the first one's output, which holds the same states — this
/// yields the round-trip stability of the builder.
pub proof fn lemma_builder_output_determined<C: Condition>(
    elems: Seq<StateModel<C>>,
    out1: Seq<StateModel<C>>,
    out2: Seq<StateModel<C>>,
)
    requires
        names_unique(elems),
        forall|sorted: Seq<StateModel<C>>|
            sorted.to_multiset() == elems.to_multiset() && name_sorted(sorted) ==> topo_spec(
                sorted,
            ) == Some(out1),
        forall|sorted: Seq<StateModel<C>>|
            sorted.to_multiset() == elems.to_multiset() && name_sorted(sorted) ==> topo_spec(
                sorted,
            ) == Some(out2),
    ensures
        out1 == out2,
{
    let t = lemma_sorted_arrangement_exists(elems);
    assert(topo_spec(t) == Some(out1));
    assert(topo_spec(t) == Some(out2));
}

} // verus!
