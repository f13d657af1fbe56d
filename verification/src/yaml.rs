//! Parse issue states from a YAML document using yaml-rust
//!
//! The primary function for parsing issue states is
//! [`parse_issue_states()`].  The states are expected to appear in a
//! sequence.  Each node within the sequence must be either the name of a
//! state or a mapping containing:
//! * a "name" entry denoting the name of the state,
//! * an optional "conditions" entry containing conditions, as a sequence
//!   of strings,
//! * an optional "overrides" entry containing a sequence of state names
//!   appearing _prior_ to the current issue state in the toplevel
//!   sequence, and
//! * an optional "extends" entry containing a sequence of state names
//!   appearing _prior_ to the current issue state in the toplevel
//!   sequence.
//!
//! The YAML stream is tokenized by yaml-rust; its events, reduced to the
//! few shapes the grammar above distinguishes ([`YamlEvent`]), are then
//! consumed by verified parsing functions.  Since relation references
//! resolve only against states already produced, every relation target of
//! a parsed catalog names an earlier state — the catalog satisfies the
//! dependency order the resolution engine relies on, which is why such a
//! catalog may bypass the cycle-checking builder.

use vstd::prelude::*;

use std::sync::Arc;

use yaml_rust::parser::Event;

use crate::assoc::assoc_map;
use crate::assoc::sorted_insert;
use crate::assoc::str_keys_sorted;
use crate::condition::parse_atom_spec;
use crate::condition::Condition;
use crate::condition::ConditionFactory;
use crate::order::str_cmp;
use crate::order::KeyOrdering;
use crate::resolution::has_name;
use crate::resolution::lemma_targets_earlier_ordered;
use crate::resolution::targets_earlier;
use crate::resolution::IssueStateSet;
use crate::state::models;
use crate::state::IssueState;
use crate::state::IssueStateVec;
use crate::state::StateModel;
use crate::state::StateRelation;
use crate::state::StateRelations;

verus! {

/// The yaml-rust pull parser, turning a character stream into events.
#[verifier::external_type_specification]
#[verifier::external_body]
#[verifier::reject_recursive_types(T)]
pub struct ExParser<T>(yaml_rust::parser::Parser<T>);

/// The yaml-rust scanner's error type.
#[verifier::external_type_specification]
#[verifier::external_body]
pub struct ExScanError(yaml_rust::scanner::ScanError);

/// A YAML event, reduced to what the issue state grammar distinguishes:
/// the variant, and for a scalar its text.
pub enum YamlEvent {
    /// The stream begins.
    StreamStart,
    /// The stream ends.
    StreamEnd,
    /// A document begins.
    DocumentStart,
    /// A document ends.
    DocumentEnd,
    /// A scalar value.
    Scalar(String),
    /// A sequence begins.
    SequenceStart,
    /// A sequence ends.
    SequenceEnd,
    /// A mapping begins.
    MappingStart,
    /// A mapping ends.
    MappingEnd,
    /// Any other event; never part of a well-formed issue state document.
    Other,
}

/// Failure while parsing issue states from a YAML document.
#[derive(Debug)]
pub enum YamlError<E> {
    /// The scanner could not tokenize the stream.
    Scan(yaml_rust::scanner::ScanError),
    /// An event not allowed by the issue state grammar was encountered.
    UnexpectedEvent,
    /// A relation refers to a state not defined earlier in the document.
    UnknownState,
    /// The condition factory rejected a condition.
    Condition(E),
    /// The stream did not end within any addressable number of events.
    EventLimit,
}

/// The raw content of one state node of a document: the state's name,
/// its condition strings, and its relation table.
#[verifier::ext_equal]
pub struct RawState {
    /// The state's name.
    pub name: Seq<char>,
    /// The condition strings attached to the state, in document order.
    pub conditions: Seq<Seq<char>>,
    /// The declared relations, by target name.
    pub relations: Map<Seq<char>, StateRelation>,
}

/// A state node before any of its entries: empty name, no conditions, no
/// relations.
pub open spec fn raw_state_empty() -> RawState {
    RawState { name: Seq::empty(), conditions: Seq::empty(), relations: Map::empty() }
}

/// The views of a list of strings.
pub open spec fn str_views(strs: Seq<String>) -> Seq<Seq<char>> {
    strs.map(|i: int, s: String| s@)
}

/// The scalars from `pos` up to a `SequenceEnd`, with the position just
/// past it; `None` on any other event.
pub open spec fn scalar_items_spec(events: Seq<YamlEvent>, pos: int) -> Option<
    (Seq<Seq<char>>, int),
>
    decreases events.len() - pos,
{
    if pos < 0 || pos >= events.len() {
        None
    } else {
        match events[pos] {
            YamlEvent::SequenceEnd => Some((Seq::empty(), pos + 1)),
            YamlEvent::Scalar(s) => match scalar_items_spec(events, pos + 1) {
                Some((rest, p)) => Some((seq![s@] + rest, p)),
                None => None,
            },
            _ => None,
        }
    }
}

/// A list of strings at `pos`: a single scalar, or a sequence of scalars.
pub open spec fn string_list_spec(events: Seq<YamlEvent>, pos: int) -> Option<
    (Seq<Seq<char>>, int),
> {
    if pos < 0 || pos >= events.len() {
        None
    } else {
        match events[pos] {
            YamlEvent::Scalar(s) => Some((seq![s@], pos + 1)),
            YamlEvent::SequenceStart => scalar_items_spec(events, pos + 1),
            _ => None,
        }
    }
}

/// The relation table gaining an entry of kind `kind` for each of the
/// names, in order.
pub open spec fn with_named_relations(
    m: Map<Seq<char>, StateRelation>,
    names: Seq<Seq<char>>,
    kind: StateRelation,
) -> Map<Seq<char>, StateRelation>
    decreases names.len(),
{
    if names.len() == 0 {
        m
    } else {
        with_named_relations(m, names.drop_last(), kind).insert(names.last(), kind)
    }
}

/// Some of the names does not name any of the given states.
pub open spec fn some_name_unknown<C: Condition>(
    names: Seq<Seq<char>>,
    existing: Seq<StateModel<C>>,
) -> bool {
    exists|j: int| #![auto] 0 <= j < names.len() && !has_name(existing, names[j])
}

/// The factory rejected one of the condition strings with this error
/// (or one of them is not even a well-formed atom).
pub open spec fn factory_rejected<C: Condition, F: ConditionFactory<C>>(
    factory: F,
    strs: Seq<Seq<char>>,
    ce: F::Error,
) -> bool {
    exists|j: int| #![trigger strs[j]]
        0 <= j < strs.len() && (match parse_atom_spec(strs[j]) {
            Some(atom) => factory.make_post(atom.0, atom.1, atom.2, Err(ce)),
            None => true,
        })
}

/// Every relation target of every raw state names an earlier raw state.
pub open spec fn raws_targets_earlier(raws: Seq<RawState>) -> bool {
    forall|i: int, k: Seq<char>|
        0 <= i < raws.len() && #[trigger] raws[i].relations.contains_key(k) ==> (exists|j: int|
            0 <= j < i && raws[j].name == k)
}

/// Adding named relations keeps every key and adds every name.
proof fn lemma_with_named_relations_keys(
    m: Map<Seq<char>, StateRelation>,
    names: Seq<Seq<char>>,
    kind: StateRelation,
)
    ensures
        forall|k: Seq<char>| #[trigger]
            m.contains_key(k) ==> with_named_relations(m, names, kind).contains_key(k),
        forall|j: int|
            0 <= j < names.len() ==> with_named_relations(m, names, kind).contains_key(
                #[trigger] names[j],
            ),
    decreases names.len(),
{
    if names.len() > 0 {
        lemma_with_named_relations_keys(m, names.drop_last(), kind);
        assert forall|j: int|
            0 <= j < names.len() implies with_named_relations(m, names, kind).contains_key(
            #[trigger] names[j],
        ) by {
            if j < names.len() - 1 {
                assert(names.drop_last()[j] == names[j]);
            }
        }
    }
}

/// A parsed scalar list always advances past its position.
proof fn lemma_scalar_items_advance(events: Seq<YamlEvent>, pos: int)
    ensures
        scalar_items_spec(events, pos) matches Some(out) ==> pos < out.1 <= events.len(),
    decreases events.len() - pos,
{
    if 0 <= pos < events.len() {
        lemma_scalar_items_advance(events, pos + 1);
    }
}

/// A parsed string list always advances past its position.
proof fn lemma_string_list_advance(events: Seq<YamlEvent>, pos: int)
    ensures
        string_list_spec(events, pos) matches Some(out) ==> pos < out.1 <= events.len(),
{
    lemma_scalar_items_advance(events, pos + 1);
}

/// The entries of a state node's mapping from `pos` up to a `MappingEnd`,
/// folded over the raw state collected so far: a "name" entry sets the
/// name, a "conditions" entry appends condition strings, an "overrides"
/// or "extends" entry adds relations of that kind; anything else is
/// malformed.
pub open spec fn map_entries_spec(events: Seq<YamlEvent>, pos: int, raw: RawState) -> Option<
    (RawState, int),
>
    decreases events.len() - pos,
    via map_entries_spec_dec
{
    if pos < 0 || pos >= events.len() {
        None
    } else {
        match events[pos] {
            YamlEvent::MappingEnd => Some((raw, pos + 1)),
            YamlEvent::Scalar(key) => {
                if key@ == "name"@ {
                    if pos + 1 < events.len() && events[pos + 1] is Scalar {
                        map_entries_spec(
                            events,
                            pos + 2,
                            RawState { name: events[pos + 1]->Scalar_0@, ..raw },
                        )
                    } else {
                        None
                    }
                } else if key@ == "conditions"@ {
                    match string_list_spec(events, pos + 1) {
                        Some((strs, p)) => map_entries_spec(
                            events,
                            p,
                            RawState { conditions: raw.conditions + strs, ..raw },
                        ),
                        None => None,
                    }
                } else if key@ == "overrides"@ {
                    match string_list_spec(events, pos + 1) {
                        Some((strs, p)) => map_entries_spec(
                            events,
                            p,
                            RawState {
                                relations: with_named_relations(
                                    raw.relations,
                                    strs,
                                    StateRelation::Overrides,
                                ),
                                ..raw
                            },
                        ),
                        None => None,
                    }
                } else if key@ == "extends"@ {
                    match string_list_spec(events, pos + 1) {
                        Some((strs, p)) => map_entries_spec(
                            events,
                            p,
                            RawState {
                                relations: with_named_relations(
                                    raw.relations,
                                    strs,
                                    StateRelation::Extends,
                                ),
                                ..raw
                            },
                        ),
                        None => None,
                    }
                } else {
                    None
                }
            },
            _ => None,
        }
    }
}

#[via_fn]
proof fn map_entries_spec_dec(events: Seq<YamlEvent>, pos: int, raw: RawState) {
    if 0 <= pos < events.len() {
        lemma_string_list_advance(events, pos + 1);
    }
}

/// A parsed state mapping always advances past its position.
proof fn lemma_map_entries_advance(events: Seq<YamlEvent>, pos: int, raw: RawState)
    ensures
        map_entries_spec(events, pos, raw) matches Some(out) ==> pos < out.1 <= events.len(),
    decreases events.len() - pos,
{
    if 0 <= pos < events.len() {
        lemma_string_list_advance(events, pos + 1);
        if events[pos] is Scalar {
            let key = events[pos]->Scalar_0;
            if key@ == "name"@ {
                if pos + 1 < events.len() && events[pos + 1] is Scalar {
                    lemma_map_entries_advance(
                        events,
                        pos + 2,
                        RawState { name: events[pos + 1]->Scalar_0@, ..raw },
                    );
                }
            } else if key@ == "conditions"@ {
                match string_list_spec(events, pos + 1) {
                    Some(out) => {
                        lemma_map_entries_advance(
                            events,
                            out.1,
                            RawState { conditions: raw.conditions + out.0, ..raw },
                        );
                    },
                    None => {},
                }
            } else if key@ == "overrides"@ {
                match string_list_spec(events, pos + 1) {
                    Some(out) => {
                        lemma_map_entries_advance(
                            events,
                            out.1,
                            RawState {
                                relations: with_named_relations(
                                    raw.relations,
                                    out.0,
                                    StateRelation::Overrides,
                                ),
                                ..raw
                            },
                        );
                    },
                    None => {},
                }
            } else if key@ == "extends"@ {
                match string_list_spec(events, pos + 1) {
                    Some(out) => {
                        lemma_map_entries_advance(
                            events,
                            out.1,
                            RawState {
                                relations: with_named_relations(
                                    raw.relations,
                                    out.0,
                                    StateRelation::Extends,
                                ),
                                ..raw
                            },
                        );
                    },
                    None => {},
                }
            }
        }
    }
}

/// Parsing further entries never removes a relation key.
proof fn lemma_map_entries_keys_monotone(events: Seq<YamlEvent>, pos: int, raw: RawState)
    ensures
        map_entries_spec(events, pos, raw) matches Some(out) ==> forall|k: Seq<char>| #[trigger]
            raw.relations.contains_key(k) ==> out.0.relations.contains_key(k),
    decreases events.len() - pos,
{
    if 0 <= pos < events.len() {
        lemma_string_list_advance(events, pos + 1);
        if events[pos] is Scalar {
            let key = events[pos]->Scalar_0;
            if key@ == "name"@ {
                if pos + 1 < events.len() && events[pos + 1] is Scalar {
                    lemma_map_entries_keys_monotone(
                        events,
                        pos + 2,
                        RawState { name: events[pos + 1]->Scalar_0@, ..raw },
                    );
                }
            } else if key@ == "conditions"@ {
                match string_list_spec(events, pos + 1) {
                    Some(out) => {
                        lemma_map_entries_keys_monotone(
                            events,
                            out.1,
                            RawState { conditions: raw.conditions + out.0, ..raw },
                        );
                    },
                    None => {},
                }
            } else if key@ == "overrides"@ {
                match string_list_spec(events, pos + 1) {
                    Some(out) => {
                        lemma_with_named_relations_keys(
                            raw.relations,
                            out.0,
                            StateRelation::Overrides,
                        );
                        lemma_map_entries_keys_monotone(
                            events,
                            out.1,
                            RawState {
                                relations: with_named_relations(
                                    raw.relations,
                                    out.0,
                                    StateRelation::Overrides,
                                ),
                                ..raw
                            },
                        );
                    },
                    None => {},
                }
            } else if key@ == "extends"@ {
                match string_list_spec(events, pos + 1) {
                    Some(out) => {
                        lemma_with_named_relations_keys(
                            raw.relations,
                            out.0,
                            StateRelation::Extends,
                        );
                        lemma_map_entries_keys_monotone(
                            events,
                            out.1,
                            RawState {
                                relations: with_named_relations(
                                    raw.relations,
                                    out.0,
                                    StateRelation::Extends,
                                ),
                                ..raw
                            },
                        );
                    },
                    None => {},
                }
            }
        }
    }
}

/// Parsing further entries only appends condition strings.
proof fn lemma_map_entries_conditions_prefix(events: Seq<YamlEvent>, pos: int, raw: RawState)
    ensures
        map_entries_spec(events, pos, raw) matches Some(out) ==> out.0.conditions.len()
            >= raw.conditions.len() && out.0.conditions.take(raw.conditions.len() as int)
            == raw.conditions,
    decreases events.len() - pos,
{
    if 0 <= pos < events.len() {
        lemma_string_list_advance(events, pos + 1);
        if events[pos] is Scalar {
            let key = events[pos]->Scalar_0;
            if key@ == "name"@ {
                if pos + 1 < events.len() && events[pos + 1] is Scalar {
                    lemma_map_entries_conditions_prefix(
                        events,
                        pos + 2,
                        RawState { name: events[pos + 1]->Scalar_0@, ..raw },
                    );
                }
            } else if key@ == "conditions"@ {
                match string_list_spec(events, pos + 1) {
                    Some(out) => {
                        let next = RawState { conditions: raw.conditions + out.0, ..raw };
                        lemma_map_entries_conditions_prefix(events, out.1, next);
                        match map_entries_spec(events, out.1, next) {
                            Some(res) => {
                                assert(res.0.conditions.take(next.conditions.len() as int).take(
                                    raw.conditions.len() as int,
                                ) =~= res.0.conditions.take(raw.conditions.len() as int));
                                assert(next.conditions.take(raw.conditions.len() as int)
                                    =~= raw.conditions);
                            },
                            None => {},
                        }
                    },
                    None => {},
                }
            } else if key@ == "overrides"@ {
                match string_list_spec(events, pos + 1) {
                    Some(out) => {
                        lemma_map_entries_conditions_prefix(
                            events,
                            out.1,
                            RawState {
                                relations: with_named_relations(
                                    raw.relations,
                                    out.0,
                                    StateRelation::Overrides,
                                ),
                                ..raw
                            },
                        );
                    },
                    None => {},
                }
            } else if key@ == "extends"@ {
                match string_list_spec(events, pos + 1) {
                    Some(out) => {
                        lemma_map_entries_conditions_prefix(
                            events,
                            out.1,
                            RawState {
                                relations: with_named_relations(
                                    raw.relations,
                                    out.0,
                                    StateRelation::Extends,
                                ),
                                ..raw
                            },
                        );
                    },
                    None => {},
                }
            }
        }
    }
}

/// The states collected so far are a prefix of the list a successful
/// parse produces.
proof fn lemma_states_list_prefix(events: Seq<YamlEvent>, pos: int, acc: Seq<RawState>)
    ensures
        states_list_spec(events, pos, acc) matches Some(out) ==> out.len() >= acc.len()
            && out.take(acc.len() as int) == acc,
    decreases events.len() - pos,
{
    if 0 <= pos < events.len() {
        lemma_map_entries_advance(events, pos + 1, raw_state_empty());
        match events[pos] {
            YamlEvent::Scalar(name) => {
                let acc2 = acc.push(RawState { name: name@, ..raw_state_empty() });
                lemma_states_list_prefix(events, pos + 1, acc2);
                match states_list_spec(events, pos + 1, acc2) {
                    Some(out) => {
                        assert(out.take(acc2.len() as int).take(acc.len() as int) =~= out.take(
                            acc.len() as int,
                        ));
                        assert(acc2.take(acc.len() as int) =~= acc);
                    },
                    None => {},
                }
            },
            YamlEvent::MappingStart => {
                match map_entries_spec(events, pos + 1, raw_state_empty()) {
                    Some(mr) => {
                        let acc2 = acc.push(mr.0);
                        lemma_states_list_prefix(events, mr.1, acc2);
                        match states_list_spec(events, mr.1, acc2) {
                            Some(out) => {
                                assert(out.take(acc2.len() as int).take(acc.len() as int)
                                    =~= out.take(acc.len() as int));
                                assert(acc2.take(acc.len() as int) =~= acc);
                            },
                            None => {},
                        }
                    },
                    None => {},
                }
            },
            _ => {},
        }
    }
}

/// The position just past any leading `StreamStart` and `DocumentStart`
/// events.
pub open spec fn preamble_end(events: Seq<YamlEvent>, pos: int) -> int
    decreases events.len() - pos,
{
    if 0 <= pos < events.len() && (events[pos] is StreamStart || events[pos] is DocumentStart) {
        preamble_end(events, pos + 1)
    } else {
        pos
    }
}

/// The state nodes from `pos` up to the `SequenceEnd` of the toplevel
/// sequence, appended to those collected so far: a scalar names a state
/// without conditions or relations, a mapping is parsed by
/// [`map_entries_spec`]; anything else is malformed.
pub open spec fn states_list_spec(
    events: Seq<YamlEvent>,
    pos: int,
    acc: Seq<RawState>,
) -> Option<Seq<RawState>>
    decreases events.len() - pos,
    via states_list_spec_dec
{
    if pos < 0 || pos >= events.len() {
        None
    } else {
        match events[pos] {
            YamlEvent::SequenceEnd => Some(acc),
            YamlEvent::Scalar(name) => states_list_spec(
                events,
                pos + 1,
                acc.push(RawState { name: name@, ..raw_state_empty() }),
            ),
            YamlEvent::MappingStart => match map_entries_spec(events, pos + 1, raw_state_empty()) {
                Some((raw, p)) => states_list_spec(events, p, acc.push(raw)),
                None => None,
            },
            _ => None,
        }
    }
}

#[via_fn]
proof fn states_list_spec_dec(events: Seq<YamlEvent>, pos: int, acc: Seq<RawState>) {
    if 0 <= pos < events.len() {
        lemma_map_entries_advance(events, pos + 1, raw_state_empty());
    }
}

/// What a well-formed document denotes: no toplevel sequence means no
/// states; otherwise the state nodes of the sequence; `None` for a
/// malformed document.
pub open spec fn doc_states_spec(events: Seq<YamlEvent>) -> Option<Seq<RawState>> {
    let p = preamble_end(events, 0);
    if p >= events.len() {
        Some(Seq::empty())
    } else {
        match events[p] {
            YamlEvent::StreamEnd => Some(Seq::empty()),
            YamlEvent::DocumentEnd => Some(Seq::empty()),
            YamlEvent::SequenceStart => states_list_spec(events, p + 1, Seq::empty()),
            _ => None,
        }
    }
}

/// The conditions were made by the factory from exactly these condition
/// strings, in order.
pub open spec fn conditions_from<C: Condition, F: ConditionFactory<C>>(
    factory: F,
    strs: Seq<Seq<char>>,
    conds: Seq<C>,
) -> bool {
    &&& conds.len() == strs.len()
    &&& forall|j: int|
        0 <= j < strs.len() ==> (match parse_atom_spec(#[trigger] strs[j]) {
            Some(atom) => factory.make_post(atom.0, atom.1, atom.2, Ok(conds[j])),
            None => false,
        })
}

/// The state model carries exactly the raw node's content: its name, its
/// relation table, and conditions the factory made from its condition
/// strings.
pub open spec fn state_matches_raw<C: Condition, F: ConditionFactory<C>>(
    factory: F,
    raw: RawState,
    m: StateModel<C>,
) -> bool {
    &&& m.name == raw.name
    &&& m.relations == raw.relations
    &&& conditions_from(factory, raw.conditions, m.conditions)
}

/// Every state carries the content of its document node.
pub open spec fn states_match_raws<C: Condition, F: ConditionFactory<C>>(
    factory: F,
    raws: Seq<RawState>,
    states: Seq<StateModel<C>>,
) -> bool {
    &&& states.len() == raws.len()
    &&& forall|i: int|
        0 <= i < raws.len() ==> #[trigger] state_matches_raw(factory, raws[i], states[i])
}

/// Relies on yaml_rust's `Parser::next`: pull the next event of the YAML
/// stream, reduced to its [`YamlEvent`] shape.
#[verifier::external_body]
fn next_event<T: Iterator<Item = char>>(parser: &mut yaml_rust::parser::Parser<T>) -> (r: Result<
    YamlEvent,
    yaml_rust::scanner::ScanError,
>) {
    Ok(match parser.next()? {
        (Event::StreamStart, _) => YamlEvent::StreamStart,
        (Event::StreamEnd, _) => YamlEvent::StreamEnd,
        (Event::DocumentStart, _) => YamlEvent::DocumentStart,
        (Event::DocumentEnd, _) => YamlEvent::DocumentEnd,
        (Event::Scalar(s, _, _, _), _) => YamlEvent::Scalar(s),
        (Event::SequenceStart(_), _) => YamlEvent::SequenceStart,
        (Event::SequenceEnd, _) => YamlEvent::SequenceEnd,
        (Event::MappingStart(_), _) => YamlEvent::MappingStart,
        (Event::MappingEnd, _) => YamlEvent::MappingEnd,
        _ => YamlEvent::Other,
    })
}

/// Drain the parser into the list of events up to and including the end
/// of the stream.
fn read_events<T: Iterator<Item = char>, E>(parser: &mut yaml_rust::parser::Parser<T>) -> (r:
    Result<Vec<YamlEvent>, YamlError<E>>)
    ensures
        r matches Ok(evs) ==> {
            &&& evs@.len() > 0
            &&& evs@.last() is StreamEnd
            &&& forall|j: int| 0 <= j < evs@.len() - 1 ==> !(evs@[j] is StreamEnd)
        },
{
    let mut events: Vec<YamlEvent> = Vec::new();
    let mut steps: usize = 0;
    loop
        invariant
            forall|j: int| 0 <= j < events@.len() ==> !(events@[j] is StreamEnd),
        decreases usize::MAX - steps,
    {
        if steps == usize::MAX {
            return Err(YamlError::EventLimit);
        }
        match next_event(parser) {
            Err(e) => {
                return Err(YamlError::Scan(e));
            },
            Ok(ev) => {
                let done = matches!(ev, YamlEvent::StreamEnd);
                events.push(ev);
                if done {
                    return Ok(events);
                }
            },
        }
        steps = steps + 1;
    }
}

/// Compare a scalar against a keyword of the grammar.
fn is_keyword(s: &String, keyword: &str) -> (r: bool)
    ensures
        r == (s@ == keyword@),
{
    str_cmp(s.as_str(), keyword) == KeyOrdering::Equal
}

/// Parse a list of strings at `pos`: either a single scalar, or a
/// sequence of scalars, exactly as [`string_list_spec`] describes.
fn parse_string_seq<E>(events: &Vec<YamlEvent>, pos: usize) -> (r: Result<
    (Vec<String>, usize),
    YamlError<E>,
>)
    requires
        pos <= events@.len(),
    ensures
        r matches Ok(out) ==> {
            &&& pos < out.1 <= events@.len()
            &&& string_list_spec(events@, pos as int) == Some((str_views(out.0@), out.1 as int))
        },
        r matches Err(e) ==> e is UnexpectedEvent && string_list_spec(
            events@,
            pos as int,
        ) is None,
{
    let len = events.len();
    if pos == len {
        return Err(YamlError::UnexpectedEvent);
    }
    match &events[pos] {
        YamlEvent::Scalar(s) => {
            let mut items: Vec<String> = Vec::new();
            items.push(s.clone());
            proof {
                assert(str_views(items@) =~= seq![events@[pos as int]->Scalar_0@]);
            }
            Ok((items, pos + 1))
        },
        YamlEvent::SequenceStart => {
            let mut items: Vec<String> = Vec::new();
            let mut p = pos + 1;
            proof {
                assert(str_views(items@) =~= Seq::<Seq<char>>::empty());
                match scalar_items_spec(events@, (pos + 1) as int) {
                    Some(out2) => {
                        assert(str_views(items@) + out2.0 =~= out2.0);
                    },
                    None => {},
                }
            }
            loop
                invariant
                    pos < p <= len,
                    len == events@.len(),
                    events@[pos as int] is SequenceStart,
                    scalar_items_spec(events@, (pos + 1) as int) == (match scalar_items_spec(
                        events@,
                        p as int,
                    ) {
                        Some(out2) => Some((str_views(items@) + out2.0, out2.1)),
                        None => None::<(Seq<Seq<char>>, int)>,
                    }),
                decreases len - p,
            {
                if p == len {
                    return Err(YamlError::UnexpectedEvent);
                }
                match &events[p] {
                    YamlEvent::Scalar(s) => {
                        let ghost old_views = str_views(items@);
                        items.push(s.clone());
                        proof {
                            assert(str_views(items@) =~= old_views.push(
                                events@[p as int]->Scalar_0@,
                            ));
                            match scalar_items_spec(events@, (p + 1) as int) {
                                Some(out2) => {
                                    assert(old_views + (seq![events@[p as int]->Scalar_0@]
                                        + out2.0) =~= str_views(items@) + out2.0);
                                },
                                None => {},
                            }
                        }
                        p = p + 1;
                    },
                    YamlEvent::SequenceEnd => {
                        proof {
                            assert(scalar_items_spec(events@, p as int) == Some((
                                Seq::<Seq<char>>::empty(),
                                p + 1 as int,
                            )));
                            assert(str_views(items@) + Seq::<Seq<char>>::empty() =~= str_views(
                                items@,
                            ));
                        }
                        return Ok((items, p + 1));
                    },
                    _ => {
                        return Err(YamlError::UnexpectedEvent);
                    },
                }
            }
        },
        _ => Err(YamlError::UnexpectedEvent),
    }
}

/// Function for parsing relations from a sequence of scalars
///
/// Each scalar must name a state appearing earlier in the toplevel
/// sequence; the relation table gains an entry of the given kind for each
/// of them.
fn parse_state_relations<C: Condition, E>(
    relations: &mut StateRelations,
    events: &Vec<YamlEvent>,
    pos: usize,
    existing_states: &IssueStateVec<C>,
    relation: StateRelation,
) -> (r: Result<usize, YamlError<E>>)
    requires
        str_keys_sorted(old(relations)@),
        pos <= events@.len(),
        forall|k: Seq<char>| #[trigger]
            assoc_map(old(relations)@).contains_key(k) ==> has_name(models(existing_states@), k),
    ensures
        str_keys_sorted(final(relations)@),
        forall|k: Seq<char>| #[trigger]
            assoc_map(final(relations)@).contains_key(k) ==> has_name(models(existing_states@), k),
        r matches Ok(p) ==> {
            &&& pos < p <= events@.len()
            &&& string_list_spec(events@, pos as int) matches Some(out)
            &&& out.1 == p
            &&& assoc_map(final(relations)@) == with_named_relations(
                assoc_map(old(relations)@),
                out.0,
                relation,
            )
        },
        (r matches Err(e) && e is UnexpectedEvent) ==> string_list_spec(
            events@,
            pos as int,
        ) is None,
        (r matches Err(e) && e is UnknownState) ==> (string_list_spec(events@, pos as int)
            matches Some(out) && some_name_unknown(out.0, models(existing_states@))),
        r matches Err(e) ==> e is UnexpectedEvent || e is UnknownState,
{
    let (names, p) = match parse_string_seq::<E>(events, pos) {
        Ok(out) => out,
        Err(e) => {
            return Err(e);
        },
    };
    let ghost nv = str_views(names@);
    let ghost base = assoc_map(relations@);
    let count = names.len();
    let mut n: usize = 0;
    proof {
        assert(nv.take(0) =~= Seq::<Seq<char>>::empty());
    }
    while n < count
        invariant
            n <= count,
            count == names@.len(),
            nv == str_views(names@),
            string_list_spec(events@, pos as int) == Some((nv, p as int)),
            base == assoc_map(old(relations)@),
            str_keys_sorted(relations@),
            forall|k: Seq<char>| #[trigger]
                assoc_map(relations@).contains_key(k) ==> has_name(models(existing_states@), k),
            assoc_map(relations@) == with_named_relations(base, nv.take(n as int), relation),
        decreases count - n,
    {
        let name = &names[n];
        // Look the name up among the states parsed so far.
        let mut found = false;
        let elen = existing_states.len();
        let mut w: usize = 0;
        while w < elen
            invariant
                w <= elen,
                elen == existing_states@.len(),
                found ==> has_name(models(existing_states@), name@),
                !found ==> forall|x: int|
                    0 <= x < w ==> models(existing_states@)[x].name != name@,
            ensures
                found ==> has_name(models(existing_states@), name@),
                !found ==> forall|x: int|
                    0 <= x < elen ==> models(existing_states@)[x].name != name@,
            decreases elen - w,
        {
            let candidate = &existing_states[w];
            if str_cmp(candidate.name.as_str(), name.as_str()) == KeyOrdering::Equal {
                proof {
                    assert(models(existing_states@)[w as int].name == name@);
                }
                found = true;
                break ;
            }
            w = w + 1;
        }
        if !found {
            proof {
                assert(!has_name(models(existing_states@), names@[n as int]@));
                assert(nv[n as int] == names@[n as int]@);
                assert(0 <= n < nv.len() && !has_name(models(existing_states@), nv[n as int]));
                assert(some_name_unknown(nv, models(existing_states@)));
            }
            return Err(YamlError::UnknownState);
        }
        let ghost before = assoc_map(relations@);
        sorted_insert(relations, name.clone(), relation);
        proof {
            assert forall|k: Seq<char>| #[trigger]
                assoc_map(relations@).contains_key(k) implies has_name(
                models(existing_states@),
                k,
            ) by {
                if k != name@ {
                    assert(before.contains_key(k));
                }
            }
            assert(nv[n as int] == names@[n as int]@);
            assert(nv.take(n + 1).drop_last() =~= nv.take(n as int));
            assert(nv.take(n + 1).last() == nv[n as int]);
        }
        n = n + 1;
    }
    proof {
        assert(nv.take(count as int) =~= nv);
    }
    Ok(p)
}

/// Function for parsing an issue state represented as a map
///
/// Returns the parsed state together with the position just past its
/// `MappingEnd`.  The state carries exactly what [`map_entries_spec`]
/// reads off the entries, with its conditions made by the factory.
fn parse_issue_state_map<C, F>(
    events: &Vec<YamlEvent>,
    pos: usize,
    existing_states: &IssueStateVec<C>,
    cond_factory: &F,
) -> (r: Result<(IssueState<C>, usize), YamlError<F::Error>>) where
    C: Condition,
    F: ConditionFactory<C>,

    requires
        pos <= events@.len(),
    ensures
        r matches Ok(out) ==> {
            &&& out.0.wf()
            &&& pos < out.1 <= events@.len()
            &&& forall|k: Seq<char>| #[trigger]
                out.0@.relations.contains_key(k) ==> has_name(models(existing_states@), k)
            &&& map_entries_spec(events@, pos as int, raw_state_empty()) matches Some(sr)
            &&& sr.1 == out.1
            &&& state_matches_raw(*cond_factory, sr.0, out.0@)
        },
        (r matches Err(e) && e is UnexpectedEvent) ==> map_entries_spec(
            events@,
            pos as int,
            raw_state_empty(),
        ) is None,
        (r matches Err(e) && e is UnknownState) ==> (map_entries_spec(
            events@,
            pos as int,
            raw_state_empty(),
        ) matches Some(sr) ==> exists|k: Seq<char>| #![auto]
            sr.0.relations.contains_key(k) && !has_name(models(existing_states@), k)),
        (r matches Err(e) && e is Condition) ==> (map_entries_spec(
            events@,
            pos as int,
            raw_state_empty(),
        ) matches Some(sr) ==> sr.0.conditions.len() > 0),
        r matches Err(YamlError::Condition(ce)) ==> (map_entries_spec(
            events@,
            pos as int,
            raw_state_empty(),
        ) matches Some(sr) ==> factory_rejected(*cond_factory, sr.0.conditions, ce)),
        r matches Err(e) ==> e is UnexpectedEvent || e is UnknownState || e is Condition,
{
    let len = events.len();
    let mut name: String = String::new();
    let mut conditions: Vec<C> = Vec::new();
    let mut relations: StateRelations = Vec::new();
    let mut p = pos;
    let ghost mut raw = raw_state_empty();
    proof {
        assert(assoc_map(relations@) =~= Map::<Seq<char>, StateRelation>::empty());
        assert(raw.relations =~= assoc_map(relations@));
        assert(raw.name =~= name@);
        assert(conditions_from(*cond_factory, raw.conditions, conditions@));
    }
    loop
        invariant_except_break
            map_entries_spec(events@, pos as int, raw_state_empty()) == map_entries_spec(
                events@,
                p as int,
                raw,
            ),
        invariant
            pos <= p <= len,
            len == events@.len(),
            str_keys_sorted(relations@),
            forall|k: Seq<char>| #[trigger]
                assoc_map(relations@).contains_key(k) ==> has_name(models(existing_states@), k),
            raw.name == name@,
            raw.relations == assoc_map(relations@),
            conditions_from(*cond_factory, raw.conditions, conditions@),
        ensures
            pos < p <= len,
            str_keys_sorted(relations@),
            forall|k: Seq<char>| #[trigger]
                assoc_map(relations@).contains_key(k) ==> has_name(models(existing_states@), k),
            map_entries_spec(events@, pos as int, raw_state_empty()) == Some((raw, p as int)),
            raw.name == name@,
            raw.relations == assoc_map(relations@),
            conditions_from(*cond_factory, raw.conditions, conditions@),
        decreases len - p,
    {
        if p == len {
            return Err(YamlError::UnexpectedEvent);
        }
        let ghost p_key = p as int;
        let ghost raw_before = raw;
        // Try to extract the key of the entry
        let key = match &events[p] {
            YamlEvent::MappingEnd => {
                p = p + 1;
                proof {
                    assert(map_entries_spec(events@, pos as int, raw_state_empty()) == Some((
                        raw,
                        p as int,
                    )));
                }
                break ;
            },
            YamlEvent::Scalar(key) => key,
            _ => {
                return Err(YamlError::UnexpectedEvent);
            },
        };
        p = p + 1;
        // Identify the entry and carry out the associated action
        if is_keyword(key, "name") {
            if p == len {
                return Err(YamlError::UnexpectedEvent);
            }
            match &events[p] {
                YamlEvent::Scalar(value) => {
                    name = value.clone();
                    proof {
                        raw = RawState { name: value@, ..raw };
                        assert(events@[p as int]->Scalar_0 == *value);
                        assert(map_entries_spec(events@, p_key, raw_before)
                            == map_entries_spec(events@, p + 1, raw));
                    }
                    p = p + 1;
                },
                _ => {
                    return Err(YamlError::UnexpectedEvent);
                },
            }
        } else if is_keyword(key, "conditions") {
            let (strs, p2) = match parse_string_seq::<F::Error>(events, p) {
                Ok(out) => out,
                Err(e) => {
                    return Err(e);
                },
            };
            let ghost nv2 = str_views(strs@);
            let ghost cond_base = raw.conditions;
            proof {
                let out = string_list_spec(events@, p as int)->Some_0;
                raw = RawState { conditions: raw.conditions + nv2, ..raw };
                assert(raw =~= (RawState {
                    conditions: raw_before.conditions + out.0,
                    ..raw_before
                }));
                assert(map_entries_spec(events@, p_key, raw_before) == map_entries_spec(
                    events@,
                    p2 as int,
                    raw,
                ));
                assert(cond_base + nv2.take(0) =~= cond_base);
            }
            let count = strs.len();
            let mut n: usize = 0;
            while n < count
                invariant
                    n <= count,
                    count == strs@.len(),
                    nv2 == str_views(strs@),
                    raw.conditions == cond_base + nv2,
                    map_entries_spec(events@, pos as int, raw_state_empty())
                        == map_entries_spec(events@, p2 as int, raw),
                    conditions_from(*cond_factory, cond_base + nv2.take(n as int), conditions@),
                decreases count - n,
            {
                match cond_factory.parse_condition(strs[n].as_str()) {
                    Ok(cond) => {
                        let ghost prev = conditions@;
                        conditions.push(cond);
                        proof {
                            let cur = cond_base + nv2.take(n + 1);
                            let prev_strs = cond_base + nv2.take(n as int);
                            assert(nv2[n as int] == strs@[n as int]@);
                            assert(cur =~= prev_strs.push(nv2[n as int]));
                            assert forall|j: int| 0 <= j < cur.len() implies (
                            match parse_atom_spec(#[trigger] cur[j]) {
                                Some(atom) => cond_factory.make_post(
                                    atom.0,
                                    atom.1,
                                    atom.2,
                                    Ok(conditions@[j]),
                                ),
                                None => false,
                            }) by {
                                if j < cur.len() - 1 {
                                    assert(cur[j] == prev_strs[j]);
                                    assert(conditions@[j] == prev[j]);
                                } else {
                                    assert(cur[j] == strs@[n as int]@);
                                    assert(conditions@[j] == cond);
                                }
                            }
                        }
                    },
                    Err(e) => {
                        proof {
                            match map_entries_spec(events@, pos as int, raw_state_empty()) {
                                Some(sr) => {
                                    lemma_map_entries_conditions_prefix(events@, p2 as int, raw);
                                    assert(sr.0.conditions.len() >= raw.conditions.len());
                                    let jj = cond_base.len() + n;
                                    assert(raw.conditions[jj as int] == nv2[n as int]);
                                    assert(sr.0.conditions.take(raw.conditions.len() as int)[
                                        jj as int] == sr.0.conditions[jj as int]);
                                    assert(sr.0.conditions[jj as int] == nv2[n as int]);
                                    assert(nv2[n as int] == strs@[n as int]@);
                                    assert(factory_rejected(
                                        *cond_factory,
                                        sr.0.conditions,
                                        e,
                                    )) by {
                                        assert(0 <= jj < sr.0.conditions.len() && (
                                        match parse_atom_spec(sr.0.conditions[jj as int]) {
                                            Some(atom) => cond_factory.make_post(
                                                atom.0,
                                                atom.1,
                                                atom.2,
                                                Err(e),
                                            ),
                                            None => true,
                                        }));
                                    }
                                },
                                None => {},
                            }
                        }
                        return Err(YamlError::Condition(e));
                    },
                }
                n = n + 1;
            }
            proof {
                assert(nv2.take(count as int) =~= nv2);
                assert(cond_base + nv2.take(count as int) =~= raw.conditions);
            }
            p = p2;
        } else if is_keyword(key, "overrides") {
            let p2 = match parse_state_relations::<C, F::Error>(
                &mut relations,
                events,
                p,
                existing_states,
                StateRelation::Overrides,
            ) {
                Ok(p2) => p2,
                Err(e) => {
                    proof {
                        if e is UnknownState {
                            let out = string_list_spec(events@, p as int)->Some_0;
                            let raw_next = RawState {
                                relations: with_named_relations(
                                    raw.relations,
                                    out.0,
                                    StateRelation::Overrides,
                                ),
                                ..raw
                            };
                            lemma_with_named_relations_keys(
                                raw.relations,
                                out.0,
                                StateRelation::Overrides,
                            );
                            let j = choose|j: int| #![auto]
                                0 <= j < out.0.len() && !has_name(
                                    models(existing_states@),
                                    out.0[j],
                                );
                            assert(raw_next.relations.contains_key(out.0[j]));
                            assert(map_entries_spec(events@, p_key, raw_before)
                                == map_entries_spec(events@, out.1, raw_next));
                            lemma_map_entries_keys_monotone(events@, out.1, raw_next);
                        }
                    }
                    return Err(e);
                },
            };
            proof {
                let out = string_list_spec(events@, p as int)->Some_0;
                raw =
                RawState {
                    relations: with_named_relations(
                        raw.relations,
                        out.0,
                        StateRelation::Overrides,
                    ),
                    ..raw
                };
                assert(raw.relations == assoc_map(relations@));
                assert(map_entries_spec(events@, p_key, raw_before) == map_entries_spec(
                    events@,
                    p2 as int,
                    raw,
                ));
            }
            p = p2;
        } else if is_keyword(key, "extends") {
            let p2 = match parse_state_relations::<C, F::Error>(
                &mut relations,
                events,
                p,
                existing_states,
                StateRelation::Extends,
            ) {
                Ok(p2) => p2,
                Err(e) => {
                    proof {
                        if e is UnknownState {
                            let out = string_list_spec(events@, p as int)->Some_0;
                            let raw_next = RawState {
                                relations: with_named_relations(
                                    raw.relations,
                                    out.0,
                                    StateRelation::Extends,
                                ),
                                ..raw
                            };
                            lemma_with_named_relations_keys(
                                raw.relations,
                                out.0,
                                StateRelation::Extends,
                            );
                            let j = choose|j: int| #![auto]
                                0 <= j < out.0.len() && !has_name(
                                    models(existing_states@),
                                    out.0[j],
                                );
                            assert(raw_next.relations.contains_key(out.0[j]));
                            assert(map_entries_spec(events@, p_key, raw_before)
                                == map_entries_spec(events@, out.1, raw_next));
                            lemma_map_entries_keys_monotone(events@, out.1, raw_next);
                        }
                    }
                    return Err(e);
                },
            };
            proof {
                let out = string_list_spec(events@, p as int)->Some_0;
                raw =
                RawState {
                    relations: with_named_relations(raw.relations, out.0, StateRelation::Extends),
                    ..raw
                };
                assert(raw.relations == assoc_map(relations@));
                assert(map_entries_spec(events@, p_key, raw_before) == map_entries_spec(
                    events@,
                    p2 as int,
                    raw,
                ));
            }
            p = p2;
        } else {
            return Err(YamlError::UnexpectedEvent);
        }
    }
    let mut retval = IssueState::new(name);
    retval.conditions = conditions;
    retval.relations = relations;
    proof {
        assert(state_matches_raw(*cond_factory, raw, retval@));
    }
    Ok((retval, p))
}

/// Build issue states from the events of a YAML document or stream.
///
/// This is the verified grammar behind [`parse_issue_states`], operating
/// on the already-tokenized event list: the produced states carry, in
/// document order, exactly the content [`doc_states_spec`] reads off the
/// events, with each condition made by the factory from its condition
/// string.  Every relation target of the produced states names a state
/// earlier in the document order.
pub fn states_from_events<C, F>(events: &Vec<YamlEvent>, cond_factory: &F) -> (r: Result<
    IssueStateVec<C>,
    YamlError<F::Error>,
>) where C: Condition, F: ConditionFactory<C>
    ensures
        r matches Ok(states) ==> {
            &&& forall|i: int| 0 <= i < states@.len() ==> (*states@[i]).wf()
            &&& targets_earlier(models(states@))
            &&& doc_states_spec(events@) matches Some(raws)
            &&& states_match_raws(*cond_factory, raws, models(states@))
        },
        (r matches Err(e) && e is UnexpectedEvent) ==> doc_states_spec(events@) is None,
        (r matches Err(e) && e is UnknownState) ==> !(doc_states_spec(events@) matches Some(raws)
            && raws_targets_earlier(raws)),
        r matches Err(YamlError::Condition(ce)) ==> (doc_states_spec(events@) matches Some(raws)
            ==> exists|i: int| #![auto]
            0 <= i < raws.len() && factory_rejected(*cond_factory, raws[i].conditions, ce)),
        r matches Err(e) ==> e is UnexpectedEvent || e is UnknownState || e is Condition,
        (doc_states_spec(events@) matches Some(raws) && raws_targets_earlier(raws) && (forall|
            i: int,
        | 0 <= i < raws.len() ==> raws[i].conditions.len() == 0)) ==> r is Ok,
{
    let len = events.len();
    let mut pos: usize = 0;
    // Skip the beginning of the document
    loop
        invariant
            pos <= len,
            len == events@.len(),
            preamble_end(events@, 0) == preamble_end(events@, pos as int),
        ensures
            pos <= len,
            len == events@.len(),
            preamble_end(events@, 0) == pos as int,
        decreases len - pos,
    {
        if pos == len {
            break ;
        }
        match &events[pos] {
            YamlEvent::StreamStart => {
                pos = pos + 1;
            },
            YamlEvent::DocumentStart => {
                pos = pos + 1;
            },
            _ => {
                break ;
            },
        }
    }
    // Identify the start of the sequence
    if pos == len {
        let states: IssueStateVec<C> = Vec::new();
        proof {
            assert(models(states@) =~= Seq::<StateModel<C>>::empty());
        }
        return Ok(states);
    }
    match &events[pos] {
        YamlEvent::StreamEnd => {
            let states: IssueStateVec<C> = Vec::new();
            proof {
                assert(models(states@) =~= Seq::<StateModel<C>>::empty());
            }
            return Ok(states);
        },
        YamlEvent::DocumentEnd => {
            let states: IssueStateVec<C> = Vec::new();
            proof {
                assert(models(states@) =~= Seq::<StateModel<C>>::empty());
            }
            return Ok(states);
        },
        YamlEvent::SequenceStart => {},
        _ => {
            return Err(YamlError::UnexpectedEvent);
        },
    };
    pos = pos + 1;
    let mut retval: IssueStateVec<C> = Vec::new();
    let ghost mut raws = Seq::<RawState>::empty();
    proof {
        assert(models(retval@) =~= Seq::<StateModel<C>>::empty());
        assert(doc_states_spec(events@) == states_list_spec(events@, pos as int, raws));
    }
    // Parse individual issue states as items of the sequence
    loop
        invariant_except_break
            doc_states_spec(events@) == states_list_spec(events@, pos as int, raws),
        invariant
            pos <= len,
            len == events@.len(),
            forall|i: int| 0 <= i < retval@.len() ==> (*retval@[i]).wf(),
            targets_earlier(models(retval@)),
            states_match_raws(*cond_factory, raws, models(retval@)),
        ensures
            forall|i: int| 0 <= i < retval@.len() ==> (*retval@[i]).wf(),
            targets_earlier(models(retval@)),
            doc_states_spec(events@) matches Some(out) && out == raws,
            states_match_raws(*cond_factory, raws, models(retval@)),
        decreases len - pos,
    {
        if pos == len {
            return Err(YamlError::UnexpectedEvent);
        }
        let ghost old_models = models(retval@);
        let ghost old_raws = raws;
        let state: IssueState<C> = match &events[pos] {
            YamlEvent::SequenceEnd => {
                proof {
                    assert(states_list_spec(events@, pos as int, raws) == Some(raws));
                }
                pos = pos + 1;
                break ;  // We hit the end of the sequence
            },
            YamlEvent::Scalar(name) => {
                let state = IssueState::new(name.clone());
                proof {
                    raws = raws.push(RawState { name: name@, ..raw_state_empty() });
                    assert(states_list_spec(events@, pos as int, old_raws)
                        == states_list_spec(events@, pos + 1, raws));
                }
                pos = pos + 1;
                state
            },
            YamlEvent::MappingStart => {
                match parse_issue_state_map(events, pos + 1, &retval, cond_factory) {
                    Ok((state, p2)) => {
                        proof {
                            let sr = map_entries_spec(
                                events@,
                                pos + 1,
                                raw_state_empty(),
                            )->Some_0;
                            raws = raws.push(sr.0);
                            assert(states_list_spec(events@, pos as int, old_raws)
                                == states_list_spec(events@, p2 as int, raws));
                        }
                        pos = p2;
                        state
                    },
                    Err(e) => {
                        proof {
                            if e is Condition {
                                match doc_states_spec(events@) {
                                    Some(raws_full) => {
                                        match map_entries_spec(
                                            events@,
                                            pos + 1,
                                            raw_state_empty(),
                                        ) {
                                            None => {
                                                assert(false);
                                            },
                                            Some(sr) => {
                                                lemma_map_entries_advance(
                                                    events@,
                                                    pos + 1,
                                                    raw_state_empty(),
                                                );
                                                lemma_states_list_prefix(
                                                    events@,
                                                    sr.1,
                                                    raws.push(sr.0),
                                                );
                                                let idx = raws.len() as int;
                                                assert(raws_full.take(idx + 1) == raws.push(
                                                    sr.0,
                                                ));
                                                assert(raws_full.take(idx + 1)[idx] == raws_full[
                                                    idx
                                                ]);
                                                assert(raws_full[idx] == sr.0);
                                                assert(raws_full[idx].conditions.len() > 0);
                                                match &e {
                                                    YamlError::Condition(ce) => {
                                                        assert(factory_rejected(
                                                            *cond_factory,
                                                            raws_full[idx].conditions,
                                                            *ce,
                                                        ));
                                                    },
                                                    _ => {},
                                                }
                                            },
                                        }
                                    },
                                    None => {},
                                }
                            }
                            if e is UnknownState {
                                match doc_states_spec(events@) {
                                    Some(raws_full) => {
                                        match map_entries_spec(
                                            events@,
                                            pos + 1,
                                            raw_state_empty(),
                                        ) {
                                            None => {
                                                assert(false);
                                            },
                                            Some(sr) => {
                                                let k = choose|k: Seq<char>| #![auto]
                                                    sr.0.relations.contains_key(k) && !has_name(
                                                        models(retval@),
                                                        k,
                                                    );
                                                lemma_map_entries_advance(
                                                    events@,
                                                    pos + 1,
                                                    raw_state_empty(),
                                                );
                                                lemma_states_list_prefix(
                                                    events@,
                                                    sr.1,
                                                    raws.push(sr.0),
                                                );
                                                let idx = raws.len() as int;
                                                assert(raws_full.take(idx + 1) == raws.push(
                                                    sr.0,
                                                ));
                                                assert(raws_full.take(idx + 1)[idx] == raws_full[
                                                    idx
                                                ]);
                                                assert(raws_full[idx] == sr.0);
                                                if raws_targets_earlier(raws_full) {
                                                    assert(raws_full[idx].relations.contains_key(
                                                        k,
                                                    ));
                                                    let j = choose|j: int| #![trigger raws_full[j]]
                                                        0 <= j < idx && raws_full[j].name == k;
                                                    assert(raws_full.take(idx + 1)[j]
                                                        == raws_full[j]);
                                                    assert(raws[j] == raws_full[j]);
                                                    assert(state_matches_raw(
                                                        *cond_factory,
                                                        raws[j],
                                                        models(retval@)[j],
                                                    ));
                                                    assert(models(retval@)[j].name == k);
                                                    assert(has_name(models(retval@), k));
                                                    assert(false);
                                                }
                                            },
                                        }
                                    },
                                    None => {},
                                }
                            }
                        }
                        return Err(e);
                    },
                }
            },
            _ => {
                return Err(YamlError::UnexpectedEvent);
            },
        };
        let ghost sm = state@;
        let ghost raw_new = raws.last();
        proof {
            assert(state_matches_raw(*cond_factory, raw_new, sm)) by {
                if sm.conditions.len() == 0 && raw_new.conditions.len() == 0 {
                    assert(conditions_from(*cond_factory, raw_new.conditions, sm.conditions));
                }
            }
        }
        retval.push(Arc::new(state));
        proof {
            let nm = models(retval@);
            assert(nm =~= old_models.push(sm));
            assert forall|i: int, k: Seq<char>|
                0 <= i < nm.len() && #[trigger] nm[i].relations.contains_key(k) implies has_name(
                nm.take(i),
                k,
            ) by {
                if i < nm.len() - 1 {
                    assert(old_models[i].relations.contains_key(k));
                    assert(has_name(old_models.take(i), k));
                    let j = choose|j: int| #![trigger old_models.take(i)[j]]
                        0 <= j < i && old_models.take(i)[j].name == k;
                    assert(nm.take(i)[j].name == k);
                } else {
                    assert(sm.relations.contains_key(k));
                    assert(has_name(old_models, k));
                    let j = choose|j: int| #![trigger old_models[j]]
                        0 <= j < old_models.len() && old_models[j].name == k;
                    assert(nm.take(i)[j].name == k);
                }
            }
            assert forall|i: int| 0 <= i < raws.len() implies #[trigger] state_matches_raw(
                *cond_factory,
                raws[i],
                nm[i],
            ) by {
                if i < raws.len() - 1 {
                    assert(raws[i] == old_raws[i] && nm[i] == old_models[i]);
                    assert(state_matches_raw(*cond_factory, old_raws[i], old_models[i]));
                }
            }
        }
    }
    Ok(retval)
}

/// Parse issue states from a YAML document or stream
///
/// The function expects the `parser` used for parsing the document as
/// well as a factory `cond_factory` for parsing the user-provided
/// condition type.
///
/// Both `StreamStart` and `DocumentStart` events will be skipped.
/// Afterwards, the function will expect a sequence of nodes representing
/// an issue state each, as specified elsewhere.
///
/// The produced catalog satisfies the dependency order the resolution
/// engine relies on: every relation target of one of its states names a
/// state appearing strictly earlier.  What the catalog holds for a given
/// event stream is pinned down by [`states_from_events`]; since the
/// events themselves come out of yaml-rust's tokenizer, this function can
/// only promise that its catalog is the faithful parse of some
/// well-formed event stream.
///
/// # Note:
///
/// The parser is drained to the end of its stream; events following the
/// sequence of issue states are read and discarded.
pub fn parse_issue_states<T, C, F>(parser: &mut yaml_rust::parser::Parser<T>, cond_factory: F) -> (r: Result<IssueStateSet<C>, YamlError<F::Error>>) where
    T: Iterator<Item = char>,
    C: Condition,
    F: ConditionFactory<C>,

    ensures
        r matches Ok(set) ==> {
            &&& set.wf()
            &&& targets_earlier(set@)
            &&& crate::resolution::dependency_ordered(set@)
            &&& (exists|evs: Seq<YamlEvent>|
                #[trigger] doc_states_spec(evs) matches Some(raws) && states_match_raws(
                    cond_factory,
                    raws,
                    set@,
                ))
        },
{
    let events = match read_events::<T, F::Error>(parser) {
        Ok(events) => events,
        Err(e) => {
            return Err(e);
        },
    };
    let states = match states_from_events::<C, F>(&events, &cond_factory) {
        Ok(states) => states,
        Err(e) => {
            return Err(e);
        },
    };
    proof {
        lemma_targets_earlier_ordered(models(states@));
        let raws = doc_states_spec(events@)->Some_0;
        assert(doc_states_spec(events@) matches Some(out) && states_match_raws(
            cond_factory,
            out,
            models(states@),
        ));
    }
    Ok(IssueStateSet::from(states))
}

} // verus!
