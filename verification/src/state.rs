//! Issue states and conditions
//!
//! This module provides the data model or representation of issue states.
//!
//! An issue state is identified by a unique name, carries the conditions
//! that must all hold for the state to be enabled, and declares relations
//! to other states.  Relations are recorded by target name in a vector
//! kept strictly sorted by the lexicographic order on names, so that the
//! merge-join iterator can correlate them efficiently; at the
//! specification level they denote a [`Map`] from names to
//! [`StateRelation`]s.

use vstd::prelude::*;

use std::sync::Arc;

use crate::assoc::assoc_map;
use crate::assoc::lemma_assoc_map_contains;
use crate::assoc::sorted_insert;
use crate::assoc::str_keys_sorted;
use crate::condition::Condition;

verus! {

/// Enumeration type for classification of relations
///
/// Instances of this enum describe the relation between two states.
#[derive(Clone, Copy, Debug, PartialEq, Eq, Structural)]
pub enum StateRelation {
    /// The state extends another state
    ///
    /// All conditions are inherited.  If both the extending and the
    /// extended state are enabled for an issue, the extending state is
    /// chosen.
    Extends,
    /// The state overrides another state
    ///
    /// If both the overriding and the overridden state are enabled for an
    /// issue, the overriding state is chosen.  However, no conditions are
    /// inherited from the overridden state.
    Overrides,
}

/// Convenience type for the description of a state's relations to other
/// states: relation kinds by target name, sorted strictly ascending by
/// name.
pub type StateRelations = Vec<(String, StateRelation)>;

/// Specification-level model of an issue state: its name, its conditions
/// and the relation kind it declares for each related state's name.
#[verifier::ext_equal]
pub struct StateModel<C> {
    /// The state's name.
    pub name: Seq<char>,
    /// The state's own conditions, in order.
    pub conditions: Seq<C>,
    /// The declared relations, by target name.
    pub relations: Map<Seq<char>, StateRelation>,
}

/// All conditions of a state model hold for the issue (vacuously true
/// without conditions).
pub open spec fn conditions_hold<C: Condition>(m: StateModel<C>, issue: &C::Issue) -> bool {
    forall|i: int| 0 <= i < m.conditions.len() ==> m.conditions[i].satisfied_spec(issue)
}

/// Representation of an issue state
///
/// An issue state is a named transient property depending on an issue's
/// metadata.  For a given issue, a state is either enabled or disabled
/// based on the [`Condition`]s attached to the state.  Additionally, a
/// state may or may not be related to other states.  Those relations
/// affect whether a state is selected by a resolver for a given issue,
/// provided that it is enabled for said issue.
#[derive(Debug)]
pub struct IssueState<C> where C: Condition {
    /// The name of the state
    pub name: String,
    /// Metadata conditions of the state
    pub conditions: Vec<C>,
    /// Relations to other states, sorted strictly ascending by target name
    pub relations: StateRelations,
}

impl<C: Condition> View for IssueState<C> {
    type V = StateModel<C>;

    open spec fn view(&self) -> StateModel<C> {
        StateModel {
            name: self.name@,
            conditions: self.conditions@,
            relations: assoc_map(self.relations@),
        }
    }
}

/// The map obtained by relating every name of `deps`, in order, with the
/// relation kind `kind`.
pub open spec fn with_relations<C: Condition>(
    m: Map<Seq<char>, StateRelation>,
    deps: Seq<Arc<IssueState<C>>>,
    kind: StateRelation,
) -> Map<Seq<char>, StateRelation>
    decreases deps.len(),
{
    if deps.len() == 0 {
        m
    } else {
        with_relations(m, deps.drop_last(), kind).insert(deps.last()@.name, kind)
    }
}

/// What adding relations means: a name is mapped to `kind` if it belongs
/// to one of the new targets, and keeps its old image otherwise.
pub proof fn lemma_with_relations<C: Condition>(
    m: Map<Seq<char>, StateRelation>,
    deps: Seq<Arc<IssueState<C>>>,
    kind: StateRelation,
    k: Seq<char>,
)
    ensures
        with_relations(m, deps, kind).contains_key(k) <==> m.contains_key(k) || exists|i: int|
            0 <= i < deps.len() && deps[i]@.name == k,
        (exists|i: int| 0 <= i < deps.len() && deps[i]@.name == k) ==> with_relations(
            m,
            deps,
            kind,
        )[k] == kind,
        (!exists|i: int| 0 <= i < deps.len() && deps[i]@.name == k) && m.contains_key(k)
            ==> with_relations(m, deps, kind)[k] == m[k],
    decreases deps.len(),
{
    if deps.len() > 0 {
        lemma_with_relations(m, deps.drop_last(), kind, k);
        if deps.last()@.name == k {
            assert(deps[deps.len() - 1]@.name == k);
        }
        if exists|i: int| 0 <= i < deps.len() && deps[i]@.name == k {
            let i = choose|i: int| 0 <= i < deps.len() && deps[i]@.name == k;
            if i < deps.len() - 1 {
                assert(deps.drop_last()[i]@.name == k);
            }
        }
        if exists|i: int| 0 <= i < deps.drop_last().len() && deps.drop_last()[i]@.name == k {
            let i = choose|i: int|
                0 <= i < deps.drop_last().len() && deps.drop_last()[i]@.name == k;
            assert(deps[i]@.name == k);
        }
    }
}

impl<C: Condition> IssueState<C> {
    /// The relation table is sorted strictly ascending by target name.
    pub open spec fn wf(&self) -> bool {
        str_keys_sorted(self.relations@)
    }

    /// Create an issue state with a given name
    pub fn new(name: String) -> (r: Self)
        ensures
            r@ == (StateModel {
                name: name@,
                conditions: Seq::<C>::empty(),
                relations: Map::<Seq<char>, StateRelation>::empty(),
            }),
            r.wf(),
    {
        let r = Self { name, conditions: Vec::new(), relations: Vec::new() };
        proof {
            assert(r@.relations =~= Map::<Seq<char>, StateRelation>::empty());
            assert(r@ =~= (StateModel {
                name: r.name@,
                conditions: Seq::<C>::empty(),
                relations: Map::<Seq<char>, StateRelation>::empty(),
            }));
        }
        r
    }

    /// Retrieve the name of the issue state
    pub fn name(&self) -> (r: &String)
        ensures
            r@ == self@.name,
    {
        &self.name
    }

    /// Add states on which this state depends
    ///
    /// Every state of `dependencies` is related to this state with
    /// [`StateRelation::Extends`]: this state's enablement additionally
    /// requires each of them to be enabled.
    pub fn add_extended(&mut self, dependencies: &Vec<Arc<IssueState<C>>>)
        requires
            old(self).wf(),
        ensures
            final(self).wf(),
            final(self)@.name == old(self)@.name,
            final(self)@.conditions == old(self)@.conditions,
            final(self)@.relations == with_relations(
                old(self)@.relations,
                dependencies@,
                StateRelation::Extends,
            ),
    {
        self.add_related(dependencies, StateRelation::Extends)
    }

    /// Add states which will override this state
    ///
    /// Every state of `overridden_by` is related to this state with
    /// [`StateRelation::Overrides`]: a pure precedence declaration, without
    /// any gating of enablement.
    pub fn add_overridden(&mut self, overridden_by: &Vec<Arc<IssueState<C>>>)
        requires
            old(self).wf(),
        ensures
            final(self).wf(),
            final(self)@.name == old(self)@.name,
            final(self)@.conditions == old(self)@.conditions,
            final(self)@.relations == with_relations(
                old(self)@.relations,
                overridden_by@,
                StateRelation::Overrides,
            ),
    {
        self.add_related(overridden_by, StateRelation::Overrides)
    }

    /// Record a relation of kind `kind` to every state of `targets`.
    fn add_related(&mut self, targets: &Vec<Arc<IssueState<C>>>, kind: StateRelation)
        requires
            old(self).wf(),
        ensures
            final(self).wf(),
            final(self)@.name == old(self)@.name,
            final(self)@.conditions == old(self)@.conditions,
            final(self)@.relations == with_relations(old(self)@.relations, targets@, kind),
    {
        let mut i: usize = 0;
        let len = targets.len();
        while i < len
            invariant
                i <= len,
                len == targets@.len(),
                self.wf(),
                self@.name == old(self)@.name,
                self@.conditions == old(self)@.conditions,
                assoc_map(self.relations@) == with_relations(
                    old(self)@.relations,
                    targets@.take(i as int),
                    kind,
                ),
            decreases len - i,
        {
            let target_name = targets[i].name.clone();
            sorted_insert(&mut self.relations, target_name, kind);
            i = i + 1;
            proof {
                assert(targets@.take(i as int).drop_last() =~= targets@.take(i - 1));
                assert(targets@.take(i as int).last() == targets@[i - 1]);
            }
        }
        proof {
            assert(targets@.take(len as int) =~= targets@);
        }
    }

    /// Look up the relation this state declares towards the given name.
    pub fn relation_to(&self, name: &str) -> (r: Option<StateRelation>)
        requires
            self.wf(),
        ensures
            r == (if self@.relations.contains_key(name@) {
                Some(self@.relations[name@])
            } else {
                None::<StateRelation>
            }),
    {
        let mut i: usize = 0;
        let len = self.relations.len();
        proof {
            lemma_assoc_map_contains(self.relations@, name@);
        }
        while i < len
            invariant
                i <= len,
                self.wf(),
                len == self.relations@.len(),
                forall|j: int| 0 <= j < i ==> self.relations@[j].0@ != name@,
            decreases len - i,
        {
            let entry = &self.relations[i];
            if crate::order::str_cmp(entry.0.as_str(), name) == crate::order::KeyOrdering::Equal {
                proof {
                    crate::assoc::lemma_sorted_map_index(self.relations@, i as int);
                }
                return Some(entry.1);
            }
            i = i + 1;
        }
        None
    }

    /// Check whether all conditions of the state are satisfied for an issue
    ///
    /// # Note:
    ///
    /// Conditions inherited from states extended by this state are not
    /// considered.  Thus, this function alone can not be used for assessing
    /// whether the state is enabled or not.
    pub fn conditions_satisfied(&self, issue: &C::Issue) -> (r: bool)
        ensures
            r == conditions_hold(self@, issue),
    {
        let mut i: usize = 0;
        let len = self.conditions.len();
        while i < len
            invariant
                i <= len,
                len == self.conditions@.len(),
                forall|j: int| 0 <= j < i ==> self.conditions@[j].satisfied_spec(issue),
            decreases len - i,
        {
            if !self.conditions[i].satisfied_by(issue) {
                proof {
                    assert(!self@.conditions[i as int].satisfied_spec(issue));
                }
                return false;
            }
            i = i + 1;
        }
        true
    }
}

impl<C: Condition> PartialEq for IssueState<C> {
    fn eq(&self, other: &Self) -> (r: bool)
        ensures
            r == (self@.name == other@.name),
    {
        self.name.eq(&other.name)
    }
}

impl<C: Condition> vstd::std_specs::cmp::PartialEqSpecImpl for IssueState<C> {
    open spec fn obeys_eq_spec() -> bool {
        false
    }

    open spec fn eq_spec(&self, other: &Self) -> bool {
        self@.name == other@.name
    }
}

impl<C: Condition> Eq for IssueState<C> {

}

/// Convenience type for a vector of issue states
pub type IssueStateVec<C> = Vec<Arc<IssueState<C>>>;

/// The models of a sequence of shared states.
pub open spec fn models<C: Condition>(states: Seq<Arc<IssueState<C>>>) -> Seq<StateModel<C>> {
    states.map(|i: int, s: Arc<IssueState<C>>| s@)
}

} // verus!
