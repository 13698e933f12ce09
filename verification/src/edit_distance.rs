//! Which texts start within a few edits of a query.

use levenshtein_automata::{Distance, LevenshteinAutomatonBuilder, DFA};
use vstd::prelude::*;

verus! {

/// The automaton that a query is made into.
#[verifier::external_type_specification]
#[verifier::external_body]
pub struct ExDfa(DFA);

/// For each text the distance that an automaton gives it, none where it is
/// above the automaton's limit.
pub uninterp spec fn distances_in(dfa: DFA) -> Map<Seq<u8>, Option<u8>>;

/// For each text its distance from a query, none above a limit: that of the
/// start of the text that is nearest to the query.
pub uninterp spec fn prefix_distances(query: Seq<char>, limit: u8) -> Map<Seq<u8>, Option<u8>>;

/// The automaton for texts that start within `limit` edits of `query`.
///
/// Calls `LevenshteinAutomatonBuilder::new`, where a transposition counts as
/// one edit, and its `build_prefix_dfa`; what the automaton answers depends on
/// the query and the limit alone. The builder keeps a table of two to the power
/// of twice the limit and one entries for each of its shapes, and counts them in
/// 32 bits, which overflow above 15.
#[verifier::external_body]
pub(crate) fn prefix_dfa(query: &str, limit: u8) -> (dfa: DFA)
    requires
        limit <= 15,
    ensures
        distances_in(dfa) == prefix_distances(query@, limit),
{
    LevenshteinAutomatonBuilder::new(limit, true).build_prefix_dfa(query)
}

/// The distance that an automaton gives a text.
///
/// Calls `DFA::eval`, which feeds the automaton the bytes of the text and
/// returns the distance of the state it ends in: `Exact` within the limit,
/// else `AtLeast`, which gives none here.
#[verifier::external_body]
pub(crate) fn distance_of(dfa: &DFA, text: &[u8]) -> (r: Option<u8>)
    ensures
        r == distances_in(*dfa)[text@],
{
    match dfa.eval(text) {
        Distance::Exact(d) => Some(d),
        Distance::AtLeast(_) => None,
    }
}

} // verus!
