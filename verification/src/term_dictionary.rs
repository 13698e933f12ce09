//! A term dictionary over the suffix terms of a file: lookups and scans see
//! whole tokens only, continuation walks see any suffix.

use vstd::prelude::*;
use vstd::string::*;
use vstd::utf8::*;

use crate::bytes::{part, push_bytes, same_bytes};
use crate::dictionary_lookup::{SI0_PREFIX, SI_REST_PREFIX};
use crate::file::{ParentEntry, SfxFileReader};
use crate::file_walk;
use crate::suffix_terms;
use crate::text;
use crate::text::{str_copy, to_lower, utf8_text};
use crate::text_order;

verus! {

/// An automaton over bytes.
pub trait Automaton {
    /// A state.
    type State: Copy;

    /// The state before the first byte.
    spec fn first(&self) -> Self::State;

    /// Whether the automaton accepts in a state.
    spec fn accepts_in(&self, state: Self::State) -> bool;

    /// Whether the automaton may still accept from a state on.
    spec fn lives_in(&self, state: Self::State) -> bool;

    /// The state behind a byte.
    spec fn next(&self, state: Self::State, byte: u8) -> Self::State;

    /// The state before the first byte.
    fn start(&self) -> (r: Self::State)
        ensures
            r == self.first(),
    ;

    /// Whether the automaton accepts in a state.
    fn is_match(&self, state: &Self::State) -> (r: bool)
        ensures
            r == self.accepts_in(*state),
    ;

    /// Whether the automaton may still accept from a state on.
    fn can_match(&self, state: &Self::State) -> (r: bool)
        ensures
            r == self.lives_in(*state),
    ;

    /// The state behind a byte.
    fn accept(&self, state: &Self::State, byte: u8) -> (r: Self::State)
        ensures
            r == self.next(*state, byte),
    ;
}

/// The state behind a text.
pub open spec fn state_after<A: Automaton>(a: A, from: A::State, text: Seq<u8>) -> A::State
    decreases text.len(),
{
    if text.len() == 0 {
        from
    } else {
        a.next(state_after(a, from, text.drop_last()), text.last())
    }
}

/// Whether the automaton lives before each byte of a text.
pub open spec fn lives_along<A: Automaton>(a: A, from: A::State, text: Seq<u8>) -> bool
    decreases text.len(),
{
    text.len() == 0 || (lives_along(a, from, text.drop_last()) && a.lives_in(
        state_after(a, from, text.drop_last()),
    ))
}

/// Whether a walk that gives up where the automaton is dead accepts a text.
pub open spec fn accepted<A: Automaton>(a: A, from: A::State, text: Seq<u8>) -> bool {
    lives_along(a, from, text) && a.accepts_in(state_after(a, from, text))
}

/// The state behind a text, if the automaton lives before each of its bytes.
pub(crate) fn walk<A: Automaton>(a: &A, from: A::State, text: &[u8]) -> (r: Option<A::State>)
    ensures
        r is Some <==> lives_along(*a, from, text@),
        r matches Some(s) ==> s == state_after(*a, from, text@),
{
    let mut state = from;
    let mut i: usize = 0;
    assert(text@.take(0) =~= Seq::<u8>::empty());
    while i < text.len()
        invariant
            i <= text@.len(),
            state == state_after(*a, from, text@.take(i as int)),
            lives_along(*a, from, text@.take(i as int)),
        decreases text@.len() - i,
    {
        proof {
            assert(text@.take(i + 1).drop_last() =~= text@.take(i as int));
            assert(text@.take(i + 1).last() == text@[i as int]);
        }
        if !a.can_match(&state) {
            proof {
                assert(!lives_along(*a, from, text@.take(i + 1)));
                lemma_dead_stays(*a, from, text@, i + 1);
            }
            return None;
        }
        state = a.accept(&state, text[i]);
        i += 1;
    }
    assert(text@.take(text@.len() as int) =~= text@);
    Some(state)
}

proof fn lemma_dead_stays<A: Automaton>(a: A, from: A::State, text: Seq<u8>, k: int)
    requires
        0 <= k <= text.len(),
        !lives_along(a, from, text.take(k)),
    ensures
        !lives_along(a, from, text),
    decreases text.len() - k,
{
    if k == text.len() {
        assert(text.take(k) =~= text);
    } else {
        assert(text.take(k + 1).drop_last() =~= text.take(k));
        lemma_dead_stays(a, from, text, k + 1);
    }
}

/// Where an automaton behind a prefix byte is.
#[derive(Clone, Copy)]
pub enum PrefixByteState<S> {
    /// Before the prefix byte.
    ExpectingPrefix,
    /// Behind it, in a state of the inner automaton.
    Inner(S),
    /// Behind another byte.
    Dead,
}

/// An automaton that wants a prefix byte before what the inner one accepts.
pub struct PrefixByteAutomaton<'a, A: Automaton> {
    inner: &'a A,
    prefix_byte: u8,
}

impl<'a, A: Automaton> PrefixByteAutomaton<'a, A> {
    /// The automaton behind the prefix byte.
    pub closed spec fn inner(&self) -> A {
        *self.inner
    }

    /// The prefix byte.
    pub closed spec fn prefix(&self) -> u8 {
        self.prefix_byte
    }

    /// The automaton behind a prefix byte.
    pub fn new(inner: &'a A, prefix_byte: u8) -> (r: Self)
        ensures
            r.inner() == *inner,
            r.prefix() == prefix_byte,
    {
        PrefixByteAutomaton { inner, prefix_byte }
    }
}

impl<'a, A: Automaton> Automaton for PrefixByteAutomaton<'a, A> {
    type State = PrefixByteState<A::State>;

    open spec fn first(&self) -> PrefixByteState<A::State> {
        PrefixByteState::ExpectingPrefix
    }

    open spec fn accepts_in(&self, state: PrefixByteState<A::State>) -> bool {
        match state {
            PrefixByteState::Inner(s) => self.inner().accepts_in(s),
            _ => false,
        }
    }

    open spec fn lives_in(&self, state: PrefixByteState<A::State>) -> bool {
        match state {
            PrefixByteState::ExpectingPrefix => true,
            PrefixByteState::Inner(s) => self.inner().lives_in(s),
            PrefixByteState::Dead => false,
        }
    }

    open spec fn next(&self, state: PrefixByteState<A::State>, byte: u8) -> PrefixByteState<
        A::State,
    > {
        match state {
            PrefixByteState::ExpectingPrefix => if byte == self.prefix() {
                PrefixByteState::Inner(self.inner().first())
            } else {
                PrefixByteState::Dead
            },
            PrefixByteState::Inner(s) => PrefixByteState::Inner(self.inner().next(s, byte)),
            PrefixByteState::Dead => PrefixByteState::Dead,
        }
    }

    fn start(&self) -> (r: PrefixByteState<A::State>) {
        PrefixByteState::ExpectingPrefix
    }

    fn is_match(&self, state: &PrefixByteState<A::State>) -> (r: bool) {
        match state {
            PrefixByteState::Inner(s) => self.inner.is_match(s),
            _ => false,
        }
    }

    fn can_match(&self, state: &PrefixByteState<A::State>) -> (r: bool) {
        match state {
            PrefixByteState::ExpectingPrefix => true,
            PrefixByteState::Inner(s) => self.inner.can_match(s),
            PrefixByteState::Dead => false,
        }
    }

    fn accept(&self, state: &PrefixByteState<A::State>, byte: u8) -> (r: PrefixByteState<
        A::State,
    >) {
        match state {
            PrefixByteState::ExpectingPrefix => {
                if byte == self.prefix_byte {
                    PrefixByteState::Inner(self.inner.start())
                } else {
                    PrefixByteState::Dead
                }
            },
            PrefixByteState::Inner(s) => PrefixByteState::Inner(self.inner.accept(s, byte)),
            PrefixByteState::Dead => PrefixByteState::Dead,
        }
    }
}

/// An automaton that wants a prefix byte and then runs the inner one from a
/// given state; it accepts wherever the inner one lives.
pub struct PrefixByteContinuationAutomaton<'a, A: Automaton> {
    inner: &'a A,
    start_state: A::State,
    prefix_byte: u8,
}

impl<'a, A: Automaton> PrefixByteContinuationAutomaton<'a, A> {
    /// The automaton behind the prefix byte.
    pub closed spec fn inner(&self) -> A {
        *self.inner
    }

    /// The state it starts from.
    pub closed spec fn from(&self) -> A::State {
        self.start_state
    }

    /// The prefix byte.
    pub closed spec fn prefix(&self) -> u8 {
        self.prefix_byte
    }

    /// The automaton behind a prefix byte, from a state on.
    pub fn new(inner: &'a A, start_state: A::State, prefix_byte: u8) -> (r: Self)
        ensures
            r.inner() == *inner,
            r.from() == start_state,
            r.prefix() == prefix_byte,
    {
        PrefixByteContinuationAutomaton { inner, start_state, prefix_byte }
    }
}

impl<'a, A: Automaton> Automaton for PrefixByteContinuationAutomaton<'a, A> {
    type State = PrefixByteState<A::State>;

    open spec fn first(&self) -> PrefixByteState<A::State> {
        PrefixByteState::ExpectingPrefix
    }

    open spec fn accepts_in(&self, state: PrefixByteState<A::State>) -> bool {
        self.lives_in(state)
    }

    open spec fn lives_in(&self, state: PrefixByteState<A::State>) -> bool {
        match state {
            PrefixByteState::ExpectingPrefix => true,
            PrefixByteState::Inner(s) => self.inner().lives_in(s),
            PrefixByteState::Dead => false,
        }
    }

    open spec fn next(&self, state: PrefixByteState<A::State>, byte: u8) -> PrefixByteState<
        A::State,
    > {
        match state {
            PrefixByteState::ExpectingPrefix => if byte == self.prefix() {
                PrefixByteState::Inner(self.from())
            } else {
                PrefixByteState::Dead
            },
            PrefixByteState::Inner(s) => PrefixByteState::Inner(self.inner().next(s, byte)),
            PrefixByteState::Dead => PrefixByteState::Dead,
        }
    }

    fn start(&self) -> (r: PrefixByteState<A::State>) {
        PrefixByteState::ExpectingPrefix
    }

    fn is_match(&self, state: &PrefixByteState<A::State>) -> (r: bool) {
        self.can_match(state)
    }

    fn can_match(&self, state: &PrefixByteState<A::State>) -> (r: bool) {
        match state {
            PrefixByteState::ExpectingPrefix => true,
            PrefixByteState::Inner(s) => self.inner.can_match(s),
            PrefixByteState::Dead => false,
        }
    }

    fn accept(&self, state: &PrefixByteState<A::State>, byte: u8) -> (r: PrefixByteState<
        A::State,
    >) {
        match state {
            PrefixByteState::ExpectingPrefix => {
                if byte == self.prefix_byte {
                    PrefixByteState::Inner(self.start_state)
                } else {
                    PrefixByteState::Dead
                }
            },
            PrefixByteState::Inner(s) => PrefixByteState::Inner(self.inner.accept(s, byte)),
            PrefixByteState::Dead => PrefixByteState::Dead,
        }
    }
}

proof fn lemma_prefix_run<'a, A: Automaton>(w: PrefixByteAutomaton<'a, A>, key: Seq<u8>)
    requires
        key.len() > 0,
    ensures
        state_after(w, w.first(), key) == (if key[0] == w.prefix() {
            PrefixByteState::Inner(state_after(w.inner(), w.inner().first(), key.skip(1)))
        } else {
            PrefixByteState::Dead
        }),
        key[0] == w.prefix() ==> (lives_along(w, w.first(), key) <==> lives_along(
            w.inner(),
            w.inner().first(),
            key.skip(1),
        )),
    decreases key.len(),
{
    let h = key.drop_last();
    if key.len() == 1 {
        assert(h =~= Seq::<u8>::empty());
        assert(key.skip(1) =~= Seq::<u8>::empty());
        assert(state_after(w, w.first(), h) == w.first());
        assert(lives_along(w, w.first(), h));
    } else {
        lemma_prefix_run(w, h);
        assert(h[0] == key[0]);
        assert(key.skip(1).drop_last() =~= h.skip(1));
        assert(key.skip(1).last() == key.last());
    }
}

/// Behind a prefix byte an automaton accepts the keys that start with the byte
/// and go on as the automaton accepts.
pub proof fn prefix_byte_selects_its_partition<'a, A: Automaton>(
    w: PrefixByteAutomaton<'a, A>,
    key: Seq<u8>,
)
    requires
        key.len() > 0,
    ensures
        accepted(w, w.first(), key) <==> key[0] == w.prefix() && accepted(
            w.inner(),
            w.inner().first(),
            key.skip(1),
        ),
{
    lemma_prefix_run(w, key);
}

proof fn lemma_continuation_run<'a, A: Automaton>(
    w: PrefixByteContinuationAutomaton<'a, A>,
    key: Seq<u8>,
)
    requires
        key.len() > 0,
    ensures
        state_after(w, w.first(), key) == (if key[0] == w.prefix() {
            PrefixByteState::Inner(state_after(w.inner(), w.from(), key.skip(1)))
        } else {
            PrefixByteState::Dead
        }),
        key[0] == w.prefix() ==> (lives_along(w, w.first(), key) <==> lives_along(
            w.inner(),
            w.from(),
            key.skip(1),
        )),
    decreases key.len(),
{
    let h = key.drop_last();
    if key.len() == 1 {
        assert(h =~= Seq::<u8>::empty());
        assert(key.skip(1) =~= Seq::<u8>::empty());
        assert(state_after(w, w.first(), h) == w.first());
        assert(lives_along(w, w.first(), h));
    } else {
        lemma_continuation_run(w, h);
        assert(h[0] == key[0]);
        assert(key.skip(1).drop_last() =~= h.skip(1));
        assert(key.skip(1).last() == key.last());
    }
}

/// Whether an automaton lives through a text and behind it.
pub open spec fn survives<A: Automaton>(a: A, from: A::State, text: Seq<u8>) -> bool {
    lives_along(a, from, text) && a.lives_in(state_after(a, from, text))
}

/// A continuation accepts the keys that start with its byte and that the
/// automaton lives through and behind.
pub proof fn continuation_selects_what_survives<'a, A: Automaton>(
    w: PrefixByteContinuationAutomaton<'a, A>,
    key: Seq<u8>,
)
    requires
        key.len() > 0,
    ensures
        accepted(w, w.first(), key) <==> key[0] == w.prefix() && survives(
            w.inner(),
            w.from(),
            key.skip(1),
        ),
{
    lemma_continuation_run(w, key);
}

/// The terms of an index in the order of their ordinals, with what is kept of
/// each.
pub struct TermTable<T> {
    /// The terms.
    pub terms: Vec<Vec<u8>>,
    /// What is kept of each.
    pub infos: Vec<T>,
}

/// The bytes that were looked up are no text.
#[derive(Debug, Clone, Copy, PartialEq, Eq, Structural)]
pub struct NotText;

/// A term that a continuation walk ended in.
#[derive(Debug, Clone, Copy)]
pub struct ContinuationMatch<S> {
    /// The ordinal of the token.
    pub raw_ordinal: u64,
    /// Where in the token the suffix starts.
    pub si: u16,
    /// The state of the automaton behind the suffix.
    pub end_state: S,
    /// Whether the automaton accepts there.
    pub is_accepting: bool,
}

/// The first parent from `i` on that is a whole token with this very term.
pub open spec fn exact_from(
    parents: Seq<ParentEntry>,
    terms: Seq<Vec<u8>>,
    key: Seq<u8>,
    i: int,
) -> Option<u64>
    decreases parents.len() - i,
{
    if i >= parents.len() {
        None
    } else if parents[i].si == 0 && parents[i].raw_ordinal < terms.len()
        && terms[parents[i].raw_ordinal as int]@ == key {
        Some(parents[i].raw_ordinal)
    } else {
        exact_from(parents, terms, key, i + 1)
    }
}

/// The first parent from `i` on that is a whole token.
pub open spec fn whole_from(parents: Seq<ParentEntry>, i: int) -> Option<u64>
    decreases parents.len() - i,
{
    if i >= parents.len() {
        None
    } else if parents[i].si == 0 {
        Some(parents[i].raw_ordinal)
    } else {
        whole_from(parents, i + 1)
    }
}

/// The parents of a text in lower case.
pub open spec fn parents_of_text(terms: Seq<(Seq<u8>, Seq<ParentEntry>)>, key: Seq<u8>) -> Seq<
    ParentEntry,
> {
    let lower = text::lowered(decode_utf8(key));
    suffix_terms::parents_of(terms, file_walk::key_of(SI0_PREFIX, lower)) + suffix_terms::parents_of(terms, file_walk::key_of(SI_REST_PREFIX, lower))
}

/// The term that a key stands for, with its first parent: none without parents
/// or where the key holds no text.
pub open spec fn listing(t: (Seq<u8>, Seq<ParentEntry>)) -> Option<(Seq<char>, u64)> {
    if t.1.len() > 0 && t.0.len() > 1 && valid_utf8(t.0.skip(1)) {
        Some((decode_utf8(t.0.skip(1)), t.1[0].raw_ordinal))
    } else {
        None
    }
}

/// The terms that keys stand for, with their first parents.
pub open spec fn listed(terms: Seq<(Seq<u8>, Seq<ParentEntry>)>) -> Seq<(Seq<char>, u64)>
    decreases terms.len(),
{
    if terms.len() == 0 {
        Seq::empty()
    } else {
        match listing(terms.last()) {
            Some(l) => listed(terms.drop_last()).push(l),
            None => listed(terms.drop_last()),
        }
    }
}

/// Terms with their ordinals.
pub open spec fn numbered(found: Seq<(String, u64)>) -> Seq<(Seq<char>, u64)> {
    Seq::new(found.len(), |i: int| (found[i].0@, found[i].1))
}

/// A filter by an automaton behind the byte of whole tokens.
pub open spec fn taken_by<A: Automaton>(a: A) -> spec_fn((Seq<u8>, Seq<ParentEntry>)) -> bool {
    |t: (Seq<u8>, Seq<ParentEntry>)|
        t.0.len() > 0 && t.0[0] == SI0_PREFIX && accepted(a, a.first(), t.0.skip(1))
}

/// A filter by bounds: from `lo` up to `hi`.
pub open spec fn between(lo: Seq<u8>, hi: Seq<u8>) -> spec_fn(
    (Seq<u8>, Seq<ParentEntry>),
) -> bool {
    |t: (Seq<u8>, Seq<ParentEntry>)| !text_order::lex_lt(t.0, lo) && text_order::lex_lt(t.0, hi)
}

/// The key that a scan stops before: that of its bound, or else of the first
/// suffix that is no whole token.
pub open spec fn scan_end(lt: Option<Seq<u8>>) -> Seq<u8> {
    match lt {
        Some(b) => seq![SI0_PREFIX] + b,
        None => seq![SI_REST_PREFIX],
    }
}

/// The whole tokens from `ge` up to `lt`.
pub open spec fn scanned(
    terms: Seq<(Seq<u8>, Seq<ParentEntry>)>,
    ge: Seq<u8>,
    lt: Option<Seq<u8>>,
) -> Seq<(Seq<u8>, Seq<ParentEntry>)> {
    terms.filter(between(seq![SI0_PREFIX] + ge, scan_end(lt)))
}

/// What a walk that reaches a term makes of its parents.
pub open spec fn continued<A: Automaton>(a: A, from: A::State, t: (Seq<u8>, Seq<ParentEntry>)) -> Seq<
    ContinuationMatch<A::State>,
> {
    let end = state_after(a, from, t.0.skip(1));
    Seq::new(
        t.1.len(),
        |i: int|
            ContinuationMatch {
                raw_ordinal: t.1[i].raw_ordinal,
                si: t.1[i].si,
                end_state: end,
                is_accepting: a.accepts_in(end),
            },
    )
}

/// What a continuation walk over a partition gives.
pub open spec fn continuations<A: Automaton>(
    terms: Seq<(Seq<u8>, Seq<ParentEntry>)>,
    partition: u8,
    a: A,
    from: A::State,
) -> Seq<ContinuationMatch<A::State>>
    decreases terms.len(),
{
    if terms.len() == 0 {
        Seq::empty()
    } else {
        let t = terms.last();
        continuations(terms.drop_last(), partition, a, from) + (if t.0.len() > 0 && t.0[0]
            == partition && survives(a, from, t.0.skip(1)) {
            continued(a, from, t)
        } else {
            Seq::empty()
        })
    }
}

/// What a continuation walk gives: over the suffixes that start a token, and
/// unless `si_zero_only` over those that start later in one.
pub open spec fn all_continuations<A: Automaton>(
    terms: Seq<(Seq<u8>, Seq<ParentEntry>)>,
    a: A,
    from: A::State,
    si_zero_only: bool,
) -> Seq<ContinuationMatch<A::State>> {
    continuations(terms, SI0_PREFIX, a, from) + (if si_zero_only {
        Seq::empty()
    } else {
        continuations(terms, SI_REST_PREFIX, a, from)
    })
}

/// Whether the table has an entry for each term.
pub open spec fn is_table<T>(t: TermTable<T>) -> bool {
    t.terms@.len() == t.infos@.len()
}

/// A term dictionary over the suffix terms of a file.
pub struct SfxTermDictionary<'a, T> {
    sfx_reader: &'a SfxFileReader<'a>,
    termdict: &'a TermTable<T>,
}

impl<'a, T: Copy> SfxTermDictionary<'a, T> {
    /// The file is open and the table has an entry for each term.
    pub closed spec fn wf(&self) -> bool {
        self.sfx_reader.wf() && is_table(*self.termdict)
    }

    /// The file.
    pub closed spec fn reader(&self) -> SfxFileReader<'a> {
        *self.sfx_reader
    }

    /// The table.
    pub closed spec fn table(&self) -> TermTable<T> {
        *self.termdict
    }

    /// The suffix terms.
    pub closed spec fn terms(&self) -> Seq<(Seq<u8>, Seq<ParentEntry>)> {
        self.sfx_reader.terms()
    }

    /// Whether the table has the first parents of these terms.
    pub open spec fn knows(&self, found: Seq<(Seq<char>, u64)>) -> bool {
        forall|i: int| 0 <= i < found.len() ==> (#[trigger] found[i]).1 < self.table().infos@.len()
    }

    /// Terms with what the table keeps of them.
    pub open spec fn informed(&self, found: Seq<(Seq<char>, u64)>, out: Seq<(String, T)>) -> bool {
        &&& out.len() == found.len()
        &&& forall|i: int|
            0 <= i < out.len() ==> (#[trigger] out[i]).0@ == found[i].0 && out[i].1
                == self.table().infos@[found[i].1 as int]
    }

    /// A dictionary over an open file and the table of its terms.
    pub fn new(sfx_reader: &'a SfxFileReader<'a>, termdict: &'a TermTable<T>) -> (r: Self)
        requires
            sfx_reader.wf(),
            is_table(*termdict),
        ensures
            r.wf(),
            r.reader() == *sfx_reader,
            r.table() == *termdict,
            r.terms() == sfx_reader.terms(),
    {
        SfxTermDictionary { sfx_reader, termdict }
    }

    /// Number of terms of whole tokens.
    pub fn num_terms(&self) -> (r: u32)
        requires
            self.wf(),
            suffix_terms::starting(self.terms(), seq![SI0_PREFIX]).len() <= u32::MAX,
        ensures
            r == suffix_terms::starting(self.terms(), seq![SI0_PREFIX]).len(),
    {
        let mut prefix: Vec<u8> = Vec::new();
        prefix.push(SI0_PREFIX);
        assert(prefix@ =~= seq![SI0_PREFIX]);
        let (from, to) = self.sfx_reader.fst().prefix_range(prefix.as_slice());
        (to - from) as u32
    }

    /// The ordinal of a term, case and all.
    pub fn term_ord(&self, key: &[u8]) -> (r: Result<Option<u64>, NotText>)
        requires
            self.wf(),
        ensures
            r is Ok <==> valid_utf8(key@),
            r matches Ok(o) ==> o == exact_from(
                parents_of_text(self.terms(), key@),
                self.table().terms@,
                key@,
                0,
            ),
    {
        let parents = match self.lower_parents(key) {
            None => {
                return Err(NotText);
            },
            Some(p) => p,
        };
        let ghost p = parents@;
        let ghost t = self.termdict.terms@;
        let mut i: usize = 0;
        while i < parents.len()
            invariant
                i <= p.len(),
                p == parents@,
                p == parents_of_text(self.terms(), key@),
                valid_utf8(key@),
                t == self.termdict.terms@,
                exact_from(p, t, key@, 0) == exact_from(p, t, key@, i as int),
            decreases p.len() - i,
        {
            let parent = parents[i];
            if parent.si == 0 && parent.raw_ordinal < self.termdict.terms.len() as u64 {
                let term = &self.termdict.terms[parent.raw_ordinal as usize];
                if same_bytes(term.as_slice(), key) {
                    return Ok(Some(parent.raw_ordinal));
                }
            }
            i += 1;
        }
        Ok(None)
    }

    /// The parents of the bytes in lower case, if they are a text.
    fn lower_parents(&self, key: &[u8]) -> (r: Option<Vec<ParentEntry>>)
        requires
            self.wf(),
        ensures
            r is Some <==> valid_utf8(key@),
            r matches Some(p) ==> p@ == parents_of_text(self.terms(), key@),
    {
        match utf8_text(key) {
            None => None,
            Some(t) => {
                proof {
                    encode_utf8_decode_utf8(t@);
                }
                let lower = to_lower(t);
                Some(self.sfx_reader.resolve_suffix(lower.as_str()))
            },
        }
    }

    /// What the table keeps of a term, case and all.
    pub fn get(&self, key: &[u8]) -> (r: Result<Option<T>, NotText>)
        requires
            self.wf(),
        ensures
            r is Ok <==> valid_utf8(key@),
            r is Ok ==> (match exact_from(
                parents_of_text(self.terms(), key@),
                self.table().terms@,
                key@,
                0,
            ) {
                Some(o) => r->Ok_0 == Some(self.table().infos@[o as int]),
                None => r->Ok_0 is None,
            }),
    {
        match self.term_ord(key) {
            Err(e) => Err(e),
            Ok(None) => Ok(None),
            Ok(Some(o)) => {
                proof {
                    found_term_is_the_one_looked_up(
                        parents_of_text(self.terms(), key@),
                        self.table().terms@,
                        key@,
                        0,
                    );
                }
                let n: usize = self.termdict.infos.len();
                assert(o < n);
                Ok(Some(self.termdict.infos[o as usize]))
            },
        }
    }

    /// What the table keeps of an ordinal.
    pub fn term_info_from_ord(&self, term_ord: u64) -> (r: T)
        requires
            self.wf(),
            term_ord < self.table().infos@.len(),
        ensures
            r == self.table().infos@[term_ord as int],
    {
        let n: usize = self.termdict.infos.len();
        assert(term_ord < n);
        self.termdict.infos[term_ord as usize]
    }

    /// The ordinal of the first whole token with these letters in any case.
    pub fn get_ordinal(&self, key: &[u8]) -> (r: Result<Option<u64>, NotText>)
        requires
            self.wf(),
        ensures
            r is Ok <==> valid_utf8(key@),
            r matches Ok(o) ==> o == whole_from(parents_of_text(self.terms(), key@), 0),
    {
        let parents = match self.lower_parents(key) {
            None => {
                return Err(NotText);
            },
            Some(p) => p,
        };
        let ghost p = parents@;
        let mut i: usize = 0;
        while i < parents.len()
            invariant
                i <= p.len(),
                p == parents@,
                p == parents_of_text(self.terms(), key@),
                valid_utf8(key@),
                whole_from(p, 0) == whole_from(p, i as int),
            decreases p.len() - i,
        {
            if parents[i].si == 0 {
                return Ok(Some(parents[i].raw_ordinal));
            }
            i += 1;
        }
        Ok(None)
    }

    fn push_listing(&self, out: &mut Vec<(String, u64)>, i: usize)
        requires
            self.wf(),
            i < self.terms().len(),
        ensures
            numbered(final(out)@) == (match listing(self.terms()[i as int]) {
                Some(l) => numbered(old(out)@).push(l),
                None => numbered(old(out)@),
            }),
    {
        let terms = self.sfx_reader.fst();
        let key = terms.key(i);
        let parents = terms.parents(i);
        if parents.len() > 0 && key.len() > 1 {
            let rest = part(key, 1, key.len());
            assert(rest@ =~= key@.skip(1));
            match utf8_text(rest) {
                Some(t) => {
                    proof {
                        encode_utf8_decode_utf8(t@);
                    }
                    out.push((str_copy(t), parents[0].raw_ordinal));
                    assert(numbered(out@) =~= numbered(old(out)@).push(
                        listing(self.terms()[i as int])->0,
                    ));
                },
                None => {},
            }
        }
    }

    /// The whole tokens that an automaton accepts, with their ordinals.
    pub fn search_automaton_ordinals<A: Automaton>(&self, automaton: &A) -> (out: Vec<
        (String, u64),
    >)
        requires
            self.wf(),
        ensures
            numbered(out@) == listed(self.terms().filter(taken_by(*automaton))),
    {
        let ghost all = self.terms();
        let ghost keep = taken_by(*automaton);
        let wrapper = PrefixByteAutomaton::new(automaton, SI0_PREFIX);
        let terms = self.sfx_reader.fst();
        let mut out: Vec<(String, u64)> = Vec::new();
        let mut i: usize = 0;
        proof {
            terms.lemma_ascending();
            reveal(Seq::filter);
            assert(all.take(0).filter(keep) =~= Seq::empty());
            assert(numbered(out@) =~= listed(all.take(0).filter(keep)));
        }
        let n: usize = terms.len();
        while i < n
            invariant
                i <= n,
                n == all.len(),
                all == self.terms(),
                terms@ == all,
                terms.wf(),
                suffix_terms::ascending(all),
                self.wf(),
                keep == taken_by(*automaton),
                wrapper.inner() == *automaton,
                wrapper.prefix() == SI0_PREFIX,
                numbered(out@) == listed(all.take(i as int).filter(keep)),
            decreases n - i,
        {
            let ghost kept = all.take(i as int).filter(keep);
            let ghost t = all[i as int];
            proof {
                reveal(Seq::filter);
                assert(all.take(i + 1).drop_last() =~= all.take(i as int));
                assert(all.take(i + 1).last() == t);
                prefix_byte_selects_its_partition(wrapper, t.0);
            }
            let key = terms.key(i);
            let ends = walk(&wrapper, wrapper.start(), key);
            let hit = match ends {
                Some(s) => wrapper.is_match(&s),
                None => false,
            };
            assert(hit == keep(t));
            if hit {
                self.push_listing(&mut out, i);
                assert(all.take(i + 1).filter(keep) == kept.push(t));
                assert(kept.push(t).drop_last() =~= kept);
                assert(numbered(out@) == listed(kept.push(t)));
            } else {
                assert(all.take(i + 1).filter(keep) == kept);
            }
            i += 1;
        }
        assert(all.take(all.len() as int) =~= all);
        out
    }

    fn inform(&self, found: Vec<(String, u64)>) -> (out: Vec<(String, T)>)
        requires
            self.wf(),
            self.knows(numbered(found@)),
        ensures
            self.informed(numbered(found@), out@),
    {
        let ghost f = numbered(found@);
        let mut out: Vec<(String, T)> = Vec::new();
        let mut i: usize = 0;
        while i < found.len()
            invariant
                i <= found@.len(),
                f == numbered(found@),
                self.wf(),
                self.knows(f),
                out@.len() == i,
                forall|k: int|
                    0 <= k < i ==> (#[trigger] out@[k]).0@ == f[k].0 && out@[k].1
                        == self.table().infos@[f[k].1 as int],
            decreases found@.len() - i,
        {
            let (t, o) = (str_copy(found[i].0.as_str()), found[i].1);
            assert(f[i as int].1 == o);
            let n: usize = self.termdict.infos.len();
            assert(o < n);
            out.push((t, self.termdict.infos[o as usize]));
            i += 1;
        }
        out
    }

    /// The whole tokens that an automaton accepts, with what the table keeps
    /// of them.
    pub fn search_automaton<A: Automaton>(&self, automaton: &A) -> (out: Vec<(String, T)>)
        requires
            self.wf(),
            self.knows(listed(self.terms().filter(taken_by(*automaton)))),
        ensures
            self.informed(listed(self.terms().filter(taken_by(*automaton))), out@),
    {
        self.inform(self.search_automaton_ordinals(automaton))
    }

    /// The whole tokens from `ge` up to `lt`, with their ordinals.
    pub fn range_scan_ordinals(&self, ge: &[u8], lt: Option<&[u8]>) -> (out: Vec<(String, u64)>)
        requires
            self.wf(),
        ensures
            numbered(out@) == listed(
                scanned(
                    self.terms(),
                    ge@,
                    match lt {
                        Some(b) => Some(b@),
                        None => None,
                    },
                ),
            ),
    {
        let ghost all = self.terms();
        let ghost bound = match lt {
            Some(b) => Some(b@),
            None => None,
        };
        let mut lo: Vec<u8> = Vec::new();
        lo.push(SI0_PREFIX);
        push_bytes(&mut lo, ge);
        assert(lo@ =~= seq![SI0_PREFIX] + ge@);
        let mut hi: Vec<u8> = Vec::new();
        match lt {
            Some(b) => {
                hi.push(SI0_PREFIX);
                push_bytes(&mut hi, b);
            },
            None => {
                hi.push(SI_REST_PREFIX);
            },
        }
        assert(hi@ =~= scan_end(bound));
        let terms = self.sfx_reader.fst();
        let from: usize = terms.first_from(lo.as_slice());
        let end: usize = terms.first_from(hi.as_slice());
        let to: usize = if end < from {
            from
        } else {
            end
        };
        proof {
            assert forall|i: int| 0 <= i < all.len() implies (between(lo@, hi@)(#[trigger] all[i])
                <==> from <= i < to) by {}
            suffix_terms::lemma_filter_run(all, between(lo@, hi@), from as int, to as int);
        }
        let mut out: Vec<(String, u64)> = Vec::new();
        let mut i: usize = from;
        assert(numbered(out@) =~= listed(all.subrange(from as int, i as int)));
        while i < to
            invariant
                from <= i <= to <= all.len(),
                all == self.terms(),
                self.wf(),
                numbered(out@) == listed(all.subrange(from as int, i as int)),
            decreases to - i,
        {
            proof {
                assert(all.subrange(from as int, i + 1).drop_last() =~= all.subrange(
                    from as int,
                    i as int,
                ));
                assert(all.subrange(from as int, i + 1).last() == all[i as int]);
            }
            self.push_listing(&mut out, i);
            i += 1;
        }
        out
    }

    /// The whole tokens from `ge` up to `lt`, with what the table keeps of
    /// them.
    pub fn range_scan(&self, ge: &[u8], lt: Option<&[u8]>) -> (out: Vec<(String, T)>)
        requires
            self.wf(),
            self.knows(
                listed(
                    scanned(
                        self.terms(),
                        ge@,
                        match lt {
                            Some(b) => Some(b@),
                            None => None,
                        },
                    ),
                ),
            ),
        ensures
            self.informed(
                listed(
                    scanned(
                        self.terms(),
                        ge@,
                        match lt {
                            Some(b) => Some(b@),
                            None => None,
                        },
                    ),
                ),
                out@,
            ),
    {
        self.inform(self.range_scan_ordinals(ge, lt))
    }

    /// All whole tokens, with what the table keeps of them.
    pub fn stream_all(&self) -> (out: Vec<(String, T)>)
        requires
            self.wf(),
            self.knows(listed(scanned(self.terms(), Seq::empty(), None))),
        ensures
            self.informed(listed(scanned(self.terms(), Seq::empty(), None)), out@),
    {
        let none: Vec<u8> = Vec::new();
        assert(none@ =~= Seq::<u8>::empty());
        self.range_scan(none.as_slice(), None)
    }

    fn push_continuations<A: Automaton>(
        &self,
        out: &mut Vec<ContinuationMatch<A::State>>,
        partition: u8,
        automaton: &A,
        start_state: A::State,
    )
        requires
            self.wf(),
        ensures
            final(out)@ == old(out)@ + continuations(
                self.terms(),
                partition,
                *automaton,
                start_state,
            ),
    {
        let ghost all = self.terms();
        let ghost before = out@;
        let wrapper = PrefixByteContinuationAutomaton::new(automaton, start_state, partition);
        let terms = self.sfx_reader.fst();
        proof {
            terms.lemma_ascending();
            assert(all.take(0) =~= Seq::empty());
            assert(out@ =~= before + continuations(all.take(0), partition, *automaton, start_state));
        }
        let n: usize = terms.len();
        let mut i: usize = 0;
        while i < n
            invariant
                i <= n,
                n == all.len(),
                all == self.terms(),
                terms@ == all,
                terms.wf(),
                suffix_terms::ascending(all),
                wrapper.inner() == *automaton,
                wrapper.from() == start_state,
                wrapper.prefix() == partition,
                out@ == before + continuations(all.take(i as int), partition, *automaton, start_state),
            decreases n - i,
        {
            let ghost t = all[i as int];
            let ghost sofar = out@;
            proof {
                assert(all.take(i + 1).drop_last() =~= all.take(i as int));
                assert(all.take(i + 1).last() == t);
                continuation_selects_what_survives(wrapper, t.0);
                lemma_continuation_run(wrapper, t.0);
            }
            let key = terms.key(i);
            let ends = walk(&wrapper, wrapper.start(), key);
            let parents = terms.parents(i);
            match ends {
                Some(s) => {
                    if wrapper.is_match(&s) {
                        match s {
                            PrefixByteState::Inner(end) => {
                                assert(survives(*automaton, start_state, t.0.skip(1)));
                                assert(end == state_after(*automaton, start_state, t.0.skip(1)));
                                let is_accepting = automaton.is_match(&end);
                                let ghost made = continued(*automaton, start_state, t);
                                let mut k: usize = 0;
                                assert(out@ =~= sofar + made.take(0));
                                while k < parents.len()
                                    invariant
                                        k <= parents@.len(),
                                        parents@ == t.1,
                                        made == continued(*automaton, start_state, t),
                                        made.len() == parents@.len(),
                                        end == state_after(*automaton, start_state, t.0.skip(1)),
                                        is_accepting == automaton.accepts_in(end),
                                        out@ == sofar + made.take(k as int),
                                    decreases parents@.len() - k,
                                {
                                    out.push(
                                        ContinuationMatch {
                                            raw_ordinal: parents[k].raw_ordinal,
                                            si: parents[k].si,
                                            end_state: end,
                                            is_accepting,
                                        },
                                    );
                                    assert(made.take(k + 1) =~= made.take(k as int).push(
                                        made[k as int],
                                    ));
                                    k += 1;
                                    assert(out@ =~= sofar + made.take(k as int));
                                }
                                assert(made.take(k as int) =~= made);
                            },
                            _ => {},
                        }
                    }
                },
                None => {},
            }
            i += 1;
            assert(out@ =~= before + continuations(
                all.take(i as int),
                partition,
                *automaton,
                start_state,
            ));
        }
        assert(all.take(all.len() as int) =~= all);
    }

    /// The suffixes that an automaton lives through and behind, from a state
    /// on: those that start a token, and unless `si_zero_only` those that start
    /// later in one.
    pub fn search_continuation<A: Automaton>(
        &self,
        automaton: &A,
        start_state: A::State,
        si_zero_only: bool,
    ) -> (out: Vec<ContinuationMatch<A::State>>)
        requires
            self.wf(),
        ensures
            out@ == all_continuations(self.terms(), *automaton, start_state, si_zero_only),
    {
        let mut out: Vec<ContinuationMatch<A::State>> = Vec::new();
        self.push_continuations(&mut out, SI0_PREFIX, automaton, start_state);
        if !si_zero_only {
            self.push_continuations(&mut out, SI_REST_PREFIX, automaton, start_state);
        }
        assert(out@ =~= all_continuations(self.terms(), *automaton, start_state, si_zero_only));
        out
    }

    /// The file.
    pub fn sfx_reader(&self) -> (r: &SfxFileReader<'a>)
        ensures
            *r == self.reader(),
    {
        self.sfx_reader
    }

    /// The table.
    pub fn termdict(&self) -> (r: &'a TermTable<T>)
        ensures
            *r == self.table(),
    {
        self.termdict
    }
}

/// A term that is found is the very term that was looked up.
pub proof fn found_term_is_the_one_looked_up(
    parents: Seq<ParentEntry>,
    terms: Seq<Vec<u8>>,
    key: Seq<u8>,
    i: int,
)
    requires
        0 <= i,
    ensures
        exact_from(parents, terms, key, i) matches Some(o) ==> o < terms.len() && terms[o as int]@
            == key,
    decreases parents.len() - i,
{
    if i < parents.len() {
        found_term_is_the_one_looked_up(parents, terms, key, i + 1);
    }
}

} // verus!
