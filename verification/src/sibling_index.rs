//! Merging the links of several segments: a link is between texts, and a text
//! has a new ordinal in the merged segment.

use vstd::prelude::*;
use vstd::string::*;
use vstd::utf8::*;

use crate::bytes;
use crate::bytes::push_bytes;
use crate::collector_v3;
use crate::key_table::KeyIndex;
use crate::sibling_table;
use crate::sibling_table::{SiblingEntry, SiblingTableReader, SiblingTableWriter};
use crate::termtexts;
use crate::termtexts::TermTextsReader;

verus! {

/// The keys of tokens by ordinal.
pub open spec fn token_keys(texts: Seq<Seq<u8>>) -> Seq<(u64, Seq<u8>)> {
    Seq::new(texts.len(), |i: int| (0u64, texts[i]))
}

/// The ordinal of a text among tokens.
pub open spec fn ordinal_of(tokens: Seq<Seq<u8>>, text: Seq<u8>) -> Option<u32> {
    if tokens.contains(text) {
        Some(tokens.index_of(text) as u32)
    } else {
        None
    }
}

/// Finds the ordinal of a text.
pub struct TokenIndex {
    index: KeyIndex,
    texts: Ghost<Seq<Seq<u8>>>,
}

impl TokenIndex {
    /// The texts by ordinal, as bytes.
    pub closed spec fn tokens(&self) -> Seq<Seq<u8>> {
        self.texts@
    }

    /// Every text is found under its ordinal.
    pub closed spec fn wf(&self) -> bool {
        self.index.wf() && self.index.keys() == token_keys(self.texts@)
    }

    /// There are not more texts than can be numbered.
    pub proof fn lemma_count(&self)
        requires
            self.wf(),
        ensures
            self.tokens().len() <= u32::MAX,
            self.tokens().no_duplicates(),
    {
        self.index.lemma_distinct();
        let k = self.index.keys();
        assert(k.len() == self.texts@.len());
        assert forall|i: int, j: int|
            0 <= i < self.texts@.len() && 0 <= j < self.texts@.len() && i != j implies self.texts@[i]
            != self.texts@[j] by {
            assert(k[i] != k[j]);
        }
    }

    /// The tokens, each once, by ordinal.
    pub fn new(tokens: &Vec<String>) -> (r: Self)
        requires
            collector_v3::texts_of(tokens@).no_duplicates(),
            tokens@.len() < u32::MAX,
        ensures
            r.wf(),
            r.tokens() == collector_v3::texts_of(tokens@),
    {
        let ghost all = collector_v3::texts_of(tokens@);
        let mut index = KeyIndex::new();
        let mut i: usize = 0;
        assert(token_keys(all.take(0)) =~= Seq::<(u64, Seq<u8>)>::empty());
        while i < tokens.len()
            invariant
                i <= tokens@.len(),
                tokens@.len() < u32::MAX,
                all == collector_v3::texts_of(tokens@),
                all.len() == tokens@.len(),
                all.no_duplicates(),
                index.wf(),
                index.keys() == token_keys(all.take(i as int)),
            decreases tokens@.len() - i,
        {
            let b = tokens[i].as_str().as_bytes();
            proof {
                if index.keys().contains((0u64, b@)) {
                    let j = choose|j: int|
                        0 <= j < index.keys().len() && index.keys()[j] == (0u64, b@);
                    assert(all[j] == all[i as int]);
                }
            }
            let _ = index.push(0, b);
            assert(token_keys(all.take(i + 1)) =~= token_keys(all.take(i as int)).push(
                (0u64, all[i as int]),
            ));
            i += 1;
        }
        assert(all.take(i as int) =~= all);
        TokenIndex { index, texts: Ghost(all) }
    }

    /// The ordinal of a text, if it is a token.
    pub fn get(&self, text: &str) -> (r: Option<u32>)
        requires
            self.wf(),
        ensures
            r == ordinal_of(self.tokens(), encode_utf8(text@)),
    {
        let r = self.index.find(0, text.as_bytes());
        proof {
            let t = encode_utf8(text@);
            let k = self.index.keys();
            self.lemma_count();
            if self.texts@.contains(t) {
                let j = self.texts@.index_of(t);
                assert(k[j] == (0u64, t));
                assert(k.contains((0u64, t)));
            }
            if r is Some {
                let i = r->0 as int;
                assert(k[i] == (0u64, t));
                assert(self.texts@[i] == t);
                assert(self.texts@.contains(t));
                let j = self.texts@.index_of(t);
                assert(self.texts@[j] == t);
            }
        }
        r
    }
}

/// The new ordinal of a source's ordinal: that of its text.
pub open spec fn renamed(texts: Seq<u8>, tokens: Seq<Seq<u8>>, ordinal: u32) -> Option<u32> {
    match termtexts::text_in(texts, ordinal) {
        Some(t) => ordinal_of(tokens, encode_utf8(t)),
        None => None,
    }
}

/// The links from `a` to the first `n` siblings, renamed.
pub open spec fn renamed_links(
    texts: Seq<u8>,
    tokens: Seq<Seq<u8>>,
    a: u32,
    siblings: Seq<SiblingEntry>,
    n: int,
) -> Seq<(u32, u32, u16)>
    decreases n,
{
    if n <= 0 {
        Seq::empty()
    } else {
        let before = renamed_links(texts, tokens, a, siblings, n - 1);
        match renamed(texts, tokens, siblings[n - 1].next_ordinal) {
            Some(b) => before.push((a, b, siblings[n - 1].gap_len)),
            None => before,
        }
    }
}

/// The links of the first `n` ordinals of a source, renamed.
pub open spec fn source_links(
    table: Seq<u8>,
    texts: Seq<u8>,
    tokens: Seq<Seq<u8>>,
    n: int,
) -> Seq<(u32, u32, u16)>
    decreases n,
{
    if n <= 0 {
        Seq::empty()
    } else {
        let before = source_links(table, texts, tokens, n - 1);
        let o = (n - 1) as u32;
        match renamed(texts, tokens, o) {
            Some(a) => {
                let s = sibling_table::siblings_in(table, o);
                before + renamed_links(texts, tokens, a, s, s.len() as int)
            },
            None => before,
        }
    }
}

/// The larger of two numbers.
pub open spec fn larger(a: u32, b: u32) -> u32 {
    if a < b {
        b
    } else {
        a
    }
}

/// The largest new ordinal among the first `n` siblings, or `m`.
pub open spec fn max_sibling(
    texts: Seq<u8>,
    tokens: Seq<Seq<u8>>,
    siblings: Seq<SiblingEntry>,
    n: int,
    m: u32,
) -> u32
    decreases n,
{
    if n <= 0 {
        m
    } else {
        let before = max_sibling(texts, tokens, siblings, n - 1, m);
        match renamed(texts, tokens, siblings[n - 1].next_ordinal) {
            Some(b) => larger(before, b),
            None => before,
        }
    }
}

/// The largest new ordinal among the first `n` ordinals of a source and their
/// siblings, or `m`.
pub open spec fn max_source(
    table: Seq<u8>,
    texts: Seq<u8>,
    tokens: Seq<Seq<u8>>,
    n: int,
    m: u32,
) -> u32
    decreases n,
{
    if n <= 0 {
        m
    } else {
        let before = max_source(table, texts, tokens, n - 1, m);
        let o = (n - 1) as u32;
        match renamed(texts, tokens, o) {
            Some(a) => {
                let s = sibling_table::siblings_in(table, o);
                max_sibling(texts, tokens, s, s.len() as int, larger(before, a))
            },
            None => before,
        }
    }
}

/// Whether a source takes part: its links and its texts are there and open.
pub open spec fn takes_part(table: Option<Vec<u8>>, texts: Option<Vec<u8>>) -> bool {
    &&& table matches Some(t) && sibling_table::opens(t@)
    &&& texts is Some
    &&& termtexts::opens((texts->0)@)
}

/// The links of the first `k` sources, renamed.
pub open spec fn all_renamed(
    tables: Seq<Option<Vec<u8>>>,
    texts: Seq<Option<Vec<u8>>>,
    tokens: Seq<Seq<u8>>,
    k: int,
) -> Seq<(u32, u32, u16)>
    decreases k,
{
    if k <= 0 {
        Seq::empty()
    } else {
        let before = all_renamed(tables, texts, tokens, k - 1);
        if takes_part(tables[k - 1], texts[k - 1]) {
            let t = (tables[k - 1]->0)@;
            before + source_links(t, (texts[k - 1]->0)@, tokens, sibling_table::count_in(t) as int)
        } else {
            before
        }
    }
}

/// The largest new ordinal of the first `k` sources.
pub open spec fn max_renamed(
    tables: Seq<Option<Vec<u8>>>,
    texts: Seq<Option<Vec<u8>>>,
    tokens: Seq<Seq<u8>>,
    k: int,
) -> u32
    decreases k,
{
    if k <= 0 {
        0
    } else {
        let before = max_renamed(tables, texts, tokens, k - 1);
        if takes_part(tables[k - 1], texts[k - 1]) {
            let t = (tables[k - 1]->0)@;
            max_source(
                t,
                (texts[k - 1]->0)@,
                tokens,
                sibling_table::count_in(t) as int,
                before,
            )
        } else {
            before
        }
    }
}

/// The merged links.
pub struct SiblingIndex {
    data: Vec<u8>,
}

impl Default for SiblingIndex {
    fn default() -> (r: Self)
        ensures
            r.file() == Seq::<u8>::empty(),
    {
        Self::new()
    }
}

fn rename(tt: &TermTextsReader<'_>, index: &TokenIndex, ordinal: u32) -> (r: Option<u32>)
    requires
        tt.wf(),
        termtexts::ordered(tt.bytes()),
        index.wf(),
    ensures
        r == renamed(tt.bytes(), index.tokens(), ordinal),
        r matches Some(o) ==> o < index.tokens().len(),
{
    match tt.text(ordinal) {
        Some(t) => {
            let r = index.get(t);
            proof {
                index.lemma_count();
                if r is Some {
                    let j = index.tokens().index_of(encode_utf8(t@));
                    assert(index.tokens()[j] == encode_utf8(t@));
                }
            }
            r
        },
        None => None,
    }
}

/// Puts the links of one source in the table, and keeps the largest ordinal.
fn merge_source(
    sib: &SiblingTableReader<'_>,
    tt: &TermTextsReader<'_>,
    index: &TokenIndex,
    links: &mut Vec<(u32, u32, u16)>,
    max: u32,
) -> (r: u32)
    requires
        sib.wf(),
        tt.wf(),
        termtexts::ordered(tt.bytes()),
        index.wf(),
        max == 0 || max < index.tokens().len(),
    ensures
        r == max_source(
            sib.bytes(),
            tt.bytes(),
            index.tokens(),
            sibling_table::count_in(sib.bytes()) as int,
            max,
        ),
        r == 0 || r < index.tokens().len(),
        final(links)@ == old(links)@ + source_links(
            sib.bytes(),
            tt.bytes(),
            index.tokens(),
            sibling_table::count_in(sib.bytes()) as int,
        ),
{
    let ghost s = sib.bytes();
    let ghost t = tt.bytes();
    let ghost tokens = index.tokens();
    let ghost first = links@;
    let n: u32 = sib.num_ordinals();
    let mut best: u32 = max;
    let mut o: u32 = 0;
    assert(first + source_links(s, t, tokens, 0) =~= first);
    while o < n
        invariant
            o <= n,
            n == sibling_table::count_in(s),
            sib.wf(),
            tt.wf(),
            termtexts::ordered(t),
            index.wf(),
            s == sib.bytes(),
            t == tt.bytes(),
            tokens == index.tokens(),
            best == max_source(s, t, tokens, o as int, max),
            best == 0 || best < tokens.len(),
            links@ == first + source_links(s, t, tokens, o as int),
        decreases n - o,
    {
        let ghost before = links@;
        match rename(tt, index, o) {
            Some(a) => {
                if a > best {
                    best = a;
                }
                let all = sib.siblings(o);
                let ghost m = best;
                let mut i: usize = 0;
                assert(before + renamed_links(t, tokens, a, all@, 0) =~= before);
                while i < all.len()
                    invariant
                        i <= all@.len(),
                        tt.wf(),
                        termtexts::ordered(t),
                        index.wf(),
                        t == tt.bytes(),
                        tokens == index.tokens(),
                        best == max_sibling(t, tokens, all@, i as int, m),
                        best == 0 || best < tokens.len(),
                        links@ == before + renamed_links(t, tokens, a, all@, i as int),
                    decreases all@.len() - i,
                {
                    let e = all[i];
                    match rename(tt, index, e.next_ordinal) {
                        Some(b) => {
                            if b > best {
                                best = b;
                            }
                            links.push((a, b, e.gap_len));
                        },
                        None => {},
                    }
                    i += 1;
                    assert(links@ =~= before + renamed_links(t, tokens, a, all@, i as int));
                }
            },
            None => {},
        }
        o += 1;
        assert(links@ =~= first + source_links(s, t, tokens, o as int));
    }
    best
}

impl SiblingIndex {
    /// The file.
    pub closed spec fn file(&self) -> Seq<u8> {
        self.data@
    }

    /// No links.
    pub fn new() -> (r: Self)
        ensures
            r.file() == Seq::<u8>::empty(),
    {
        SiblingIndex { data: Vec::new() }
    }

    /// Merges the links of the sources; one whose links or texts are missing
    /// or do not open gives none.
    pub fn merge_from_sources(
        &mut self,
        sources: &Vec<Option<Vec<u8>>>,
        source_termtexts: &Vec<Option<Vec<u8>>>,
        token_to_new_ord: &TokenIndex,
    )
        requires
            source_termtexts@.len() >= sources@.len(),
            token_to_new_ord.wf(),
            forall|i: int|
                0 <= i < sources@.len() && takes_part(
                    #[trigger] sources@[i],
                    source_termtexts@[i],
                ) ==> termtexts::ordered((source_termtexts@[i]->0)@),
            ({
                let tokens = token_to_new_ord.tokens();
                let n = sources@.len() as int;
                bytes::flat(
                    sibling_table::link_runs(
                        (max_renamed(sources@, source_termtexts@, tokens, n) + 1) as u32,
                        sibling_table::rows(all_renamed(sources@, source_termtexts@, tokens, n)),
                    ),
                ).len() <= u32::MAX
            }),
        ensures
            final(self).file() == sibling_table::table_bytes(
                (max_renamed(
                    sources@,
                    source_termtexts@,
                    token_to_new_ord.tokens(),
                    sources@.len() as int,
                ) + 1) as u32,
                all_renamed(
                    sources@,
                    source_termtexts@,
                    token_to_new_ord.tokens(),
                    sources@.len() as int,
                ),
            ),
    {
        let ghost tokens = token_to_new_ord.tokens();
        let mut links: Vec<(u32, u32, u16)> = Vec::new();
        let mut max: u32 = 0;
        let mut k: usize = 0;
        while k < sources.len()
            invariant
                k <= sources@.len(),
                source_termtexts@.len() >= sources@.len(),
                token_to_new_ord.wf(),
                tokens == token_to_new_ord.tokens(),
                forall|i: int|
                    0 <= i < sources@.len() && takes_part(
                        #[trigger] sources@[i],
                        source_termtexts@[i],
                    ) ==> termtexts::ordered((source_termtexts@[i]->0)@),
                max == max_renamed(sources@, source_termtexts@, tokens, k as int),
                max == 0 || max < tokens.len(),
                links@ == all_renamed(sources@, source_termtexts@, tokens, k as int),
            decreases sources@.len() - k,
        {
            match (&sources[k], &source_termtexts[k]) {
                (Some(src), Some(texts)) => {
                    match (
                        SiblingTableReader::open(src.as_slice()),
                        TermTextsReader::open(texts.as_slice()),
                    ) {
                        (Some(sib), Some(tt)) => {
                            assert(takes_part(sources@[k as int], source_termtexts@[k as int]));
                            max = merge_source(&sib, &tt, token_to_new_ord, &mut links, max);
                        },
                        _ => {},
                    }
                },
                _ => {},
            }
            k += 1;
        }
        proof {
            token_to_new_ord.lemma_count();
        }
        let mut table = SiblingTableWriter::new(max + 1);
        let mut i: usize = 0;
        assert(table.pairs() =~= links@.take(0));
        while i < links.len()
            invariant
                i <= links@.len(),
                table.num() == max + 1,
                table.pairs() == links@.take(i as int),
            decreases links@.len() - i,
        {
            let (a, b, gap) = links[i];
            table.add(a, b, gap);
            i += 1;
            assert(table.pairs() =~= links@.take(i as int));
        }
        assert(links@.take(i as int) =~= links@);
        self.data = table.serialize();
    }

    /// The file.
    pub fn serialize(&self) -> (out: Vec<u8>)
        ensures
            out@ == self.file(),
    {
        let mut out: Vec<u8> = Vec::new();
        push_bytes(&mut out, self.data.as_slice());
        assert(out@ =~= self.data@);
        out
    }
}

/// Whether sibling `i` of a source, renamed, is `e`.
pub open spec fn named_so(
    texts: Seq<u8>,
    tokens: Seq<Seq<u8>>,
    siblings: Seq<SiblingEntry>,
    i: int,
    e: SiblingEntry,
) -> bool {
    &&& renamed(texts, tokens, siblings[i].next_ordinal) == Some(e.next_ordinal)
    &&& siblings[i].gap_len == e.gap_len
}

/// Whether one of the siblings of ordinal `o` of a source is `e` when both ends
/// are renamed, the ordinal to `a`.
pub open spec fn links_at(
    table: Seq<u8>,
    texts: Seq<u8>,
    tokens: Seq<Seq<u8>>,
    o: int,
    a: u32,
    e: SiblingEntry,
) -> bool {
    &&& renamed(texts, tokens, o as u32) == Some(a)
    &&& exists|i: int|
        0 <= i < sibling_table::siblings_in(table, o as u32).len() && #[trigger] named_so(
            texts,
            tokens,
            sibling_table::siblings_in(table, o as u32),
            i,
            e,
        )
}

/// Whether a source that takes part links a text of new ordinal `a` to the one
/// of `e`, at its gap.
pub open spec fn source_links_them(
    tables: Seq<Option<Vec<u8>>>,
    texts: Seq<Option<Vec<u8>>>,
    tokens: Seq<Seq<u8>>,
    k: int,
    o: int,
    a: u32,
    e: SiblingEntry,
) -> bool {
    &&& takes_part(tables[k], texts[k])
    &&& 0 <= o < sibling_table::count_in((tables[k]->0)@)
    &&& links_at((tables[k]->0)@, (texts[k]->0)@, tokens, o, a, e)
}

proof fn lemma_renamed_links(
    texts: Seq<u8>,
    tokens: Seq<Seq<u8>>,
    a: u32,
    siblings: Seq<SiblingEntry>,
    n: int,
    x: u32,
    e: SiblingEntry,
)
    requires
        0 <= n <= siblings.len(),
    ensures
        renamed_links(texts, tokens, a, siblings, n).contains((x, e.next_ordinal, e.gap_len)) <==> x
            == a && exists|i: int|
            0 <= i < n && #[trigger] named_so(texts, tokens, siblings, i, e),
    decreases n,
{
    if n > 0 {
        let row = (x, e.next_ordinal, e.gap_len);
        let before = renamed_links(texts, tokens, a, siblings, n - 1);
        let all = renamed_links(texts, tokens, a, siblings, n);
        lemma_renamed_links(texts, tokens, a, siblings, n - 1, x, e);
        if all.contains(row) {
            let j = choose|j: int| 0 <= j < all.len() && all[j] == row;
            if j < before.len() {
                assert(before[j] == row);
                assert(before.contains(row));
            } else {
                assert(named_so(texts, tokens, siblings, n - 1, e));
            }
        }
        if x == a && exists|i: int| 0 <= i < n && #[trigger] named_so(texts, tokens, siblings, i, e) {
            let i = choose|i: int| 0 <= i < n && #[trigger] named_so(texts, tokens, siblings, i, e);
            if i < n - 1 {
                assert(before.contains(row));
                let j = choose|j: int| 0 <= j < before.len() && before[j] == row;
                assert(all[j] == row);
            } else {
                assert(all[before.len() as int] == row);
            }
        }
    }
}

proof fn lemma_source_links(
    table: Seq<u8>,
    texts: Seq<u8>,
    tokens: Seq<Seq<u8>>,
    n: int,
    a: u32,
    e: SiblingEntry,
)
    requires
        0 <= n <= u32::MAX,
    ensures
        source_links(table, texts, tokens, n).contains((a, e.next_ordinal, e.gap_len)) <==> exists|
            o: int,
        | 0 <= o < n && #[trigger] links_at(table, texts, tokens, o, a, e),
    decreases n,
{
    if n > 0 {
        let row = (a, e.next_ordinal, e.gap_len);
        let o = (n - 1) as u32;
        let before = source_links(table, texts, tokens, n - 1);
        let all = source_links(table, texts, tokens, n);
        lemma_source_links(table, texts, tokens, n - 1, a, e);
        let s = sibling_table::siblings_in(table, o);
        let own = match renamed(texts, tokens, o) {
            Some(x) => renamed_links(texts, tokens, x, s, s.len() as int),
            None => Seq::empty(),
        };
        if renamed(texts, tokens, o) is Some {
            lemma_renamed_links(
                texts,
                tokens,
                renamed(texts, tokens, o)->0,
                s,
                s.len() as int,
                a,
                e,
            );
        }
        assert(all =~= before + own);
        lemma_in_either(before, own, row);
        assert(own.contains(row) <==> links_at(table, texts, tokens, n - 1, a, e));
        if before.contains(row) {
            let p = choose|p: int| 0 <= p < n - 1 && #[trigger] links_at(table, texts, tokens, p, a, e);
            assert(0 <= p < n && links_at(table, texts, tokens, p, a, e));
        }
        if exists|p: int| 0 <= p < n && #[trigger] links_at(table, texts, tokens, p, a, e) {
            let p = choose|p: int| 0 <= p < n && #[trigger] links_at(table, texts, tokens, p, a, e);
            if p < n - 1 {
                assert(before.contains(row));
            }
        }
    }
}

proof fn lemma_in_either<A>(x: Seq<A>, y: Seq<A>, a: A)
    ensures
        (x + y).contains(a) <==> x.contains(a) || y.contains(a),
{
    if (x + y).contains(a) {
        let i = choose|i: int| 0 <= i < (x + y).len() && (x + y)[i] == a;
        if i < x.len() {
            assert(x[i] == a);
        } else {
            assert(y[i - x.len()] == a);
        }
    }
    if x.contains(a) {
        let i = choose|i: int| 0 <= i < x.len() && x[i] == a;
        assert((x + y)[i] == a);
    }
    if y.contains(a) {
        let i = choose|i: int| 0 <= i < y.len() && y[i] == a;
        assert((x + y)[x.len() + i] == a);
    }
}

proof fn lemma_all_renamed(
    tables: Seq<Option<Vec<u8>>>,
    texts: Seq<Option<Vec<u8>>>,
    tokens: Seq<Seq<u8>>,
    n: int,
    a: u32,
    e: SiblingEntry,
)
    ensures
        all_renamed(tables, texts, tokens, n).contains((a, e.next_ordinal, e.gap_len)) <==> exists|
            k: int,
            o: int,
        | 0 <= k < n && #[trigger] source_links_them(tables, texts, tokens, k, o, a, e),
    decreases n,
{
    if n > 0 {
        let row = (a, e.next_ordinal, e.gap_len);
        let before = all_renamed(tables, texts, tokens, n - 1);
        let all = all_renamed(tables, texts, tokens, n);
        lemma_all_renamed(tables, texts, tokens, n - 1, a, e);
        let t = (tables[n - 1]->0)@;
        let x = (texts[n - 1]->0)@;
        let count = sibling_table::count_in(t) as int;
        let own = if takes_part(tables[n - 1], texts[n - 1]) {
            source_links(t, x, tokens, count)
        } else {
            Seq::empty()
        };
        lemma_source_links(t, x, tokens, count, a, e);
        assert(all =~= before + own);
        lemma_in_either(before, own, row);
        if own.contains(row) {
            let o = choose|o: int| 0 <= o < count && #[trigger] links_at(t, x, tokens, o, a, e);
            assert(source_links_them(tables, texts, tokens, n - 1, o, a, e));
        }
        if before.contains(row) {
            let (k, o) = choose|k: int, o: int|
                0 <= k < n - 1 && #[trigger] source_links_them(tables, texts, tokens, k, o, a, e);
            assert(0 <= k < n && source_links_them(tables, texts, tokens, k, o, a, e));
        }
        if exists|k: int, o: int|
            0 <= k < n && #[trigger] source_links_them(tables, texts, tokens, k, o, a, e) {
            let (k, o) = choose|k: int, o: int|
                0 <= k < n && #[trigger] source_links_them(tables, texts, tokens, k, o, a, e);
            if k < n - 1 {
                assert(before.contains(row));
            } else {
                assert(links_at(t, x, tokens, o, a, e));
                assert(own.contains(row));
            }
        }
    }
}

proof fn lemma_max_sibling(
    texts: Seq<u8>,
    tokens: Seq<Seq<u8>>,
    siblings: Seq<SiblingEntry>,
    n: int,
    m: u32,
)
    requires
        tokens.len() <= u32::MAX,
        m == 0 || m < tokens.len(),
    ensures
        m <= max_sibling(texts, tokens, siblings, n, m),
        max_sibling(texts, tokens, siblings, n, m) == 0 || max_sibling(texts, tokens, siblings, n, m)
            < tokens.len(),
    decreases n,
{
    if n > 0 {
        lemma_max_sibling(texts, tokens, siblings, n - 1, m);
        lemma_new_ordinal(texts, tokens, siblings[n - 1].next_ordinal);
    }
}

proof fn lemma_new_ordinal(texts: Seq<u8>, tokens: Seq<Seq<u8>>, ordinal: u32)
    requires
        tokens.len() <= u32::MAX,
    ensures
        renamed(texts, tokens, ordinal) matches Some(o) ==> o < tokens.len(),
{
    if renamed(texts, tokens, ordinal) is Some {
        let t = encode_utf8(termtexts::text_in(texts, ordinal)->0);
        assert(tokens.contains(t));
        let j = tokens.index_of(t);
        assert(tokens[j] == t);
    }
}

proof fn lemma_max_source(
    table: Seq<u8>,
    texts: Seq<u8>,
    tokens: Seq<Seq<u8>>,
    n: int,
    m: u32,
    o: int,
)
    requires
        tokens.len() <= u32::MAX,
        m == 0 || m < tokens.len(),
        n <= u32::MAX,
    ensures
        m <= max_source(table, texts, tokens, n, m),
        max_source(table, texts, tokens, n, m) == 0 || max_source(table, texts, tokens, n, m)
            < tokens.len(),
        0 <= o < n ==> (renamed(texts, tokens, o as u32) matches Some(a) ==> a <= max_source(
            table,
            texts,
            tokens,
            n,
            m,
        )),
    decreases n,
{
    if n > 0 {
        lemma_max_source(table, texts, tokens, n - 1, m, o);
        let p = (n - 1) as u32;
        lemma_new_ordinal(texts, tokens, p);
        if renamed(texts, tokens, p) is Some {
            let s = sibling_table::siblings_in(table, p);
            let before = max_source(table, texts, tokens, n - 1, m);
            lemma_max_sibling(
                texts,
                tokens,
                s,
                s.len() as int,
                larger(before, renamed(texts, tokens, p)->0),
            );
        }
    }
}

proof fn lemma_max_renamed(
    tables: Seq<Option<Vec<u8>>>,
    texts: Seq<Option<Vec<u8>>>,
    tokens: Seq<Seq<u8>>,
    n: int,
    k: int,
    o: int,
)
    requires
        tokens.len() <= u32::MAX,
    ensures
        max_renamed(tables, texts, tokens, n) == 0 || max_renamed(tables, texts, tokens, n)
            < tokens.len(),
        0 <= k < n && takes_part(tables[k], texts[k]) && 0 <= o < sibling_table::count_in(
            (tables[k]->0)@,
        ) ==> (renamed((texts[k]->0)@, tokens, o as u32) matches Some(a) ==> a <= max_renamed(
            tables,
            texts,
            tokens,
            n,
        )),
    decreases n,
{
    if n > 0 {
        lemma_max_renamed(tables, texts, tokens, n - 1, k, o);
        if takes_part(tables[n - 1], texts[n - 1]) {
            let t = (tables[n - 1]->0)@;
            lemma_max_source(
                t,
                (texts[n - 1]->0)@,
                tokens,
                sibling_table::count_in(t) as int,
                max_renamed(tables, texts, tokens, n - 1),
                o,
            );
        }
    }
}

/// Law: a merged file gives a link between two new ordinals, each once and in
/// order, exactly where a source that takes part has it between their texts.
pub proof fn merged_links_are_those_of_the_sources(
    tables: Seq<Option<Vec<u8>>>,
    texts: Seq<Option<Vec<u8>>>,
    tokens: Seq<Seq<u8>>,
    a: u32,
    e: SiblingEntry,
)
    requires
        tokens.len() <= u32::MAX,
        bytes::flat(
            sibling_table::link_runs(
                (max_renamed(tables, texts, tokens, tables.len() as int) + 1) as u32,
                sibling_table::rows(all_renamed(tables, texts, tokens, tables.len() as int)),
            ),
        ).len() <= u32::MAX,
    ensures
        ({
            let n = tables.len() as int;
            let file = sibling_table::table_bytes(
                (max_renamed(tables, texts, tokens, n) + 1) as u32,
                all_renamed(tables, texts, tokens, n),
            );
            &&& sibling_table::opens(file)
            &&& sibling_table::siblings_in(file, a).no_duplicates()
            &&& sibling_table::links_ascend(sibling_table::siblings_in(file, a))
            &&& sibling_table::siblings_in(file, a).contains(e) <==> exists|k: int, o: int|
                0 <= k < n && #[trigger] source_links_them(tables, texts, tokens, k, o, a, e)
        }),
{
    let n = tables.len() as int;
    let pairs = all_renamed(tables, texts, tokens, n);
    let max = max_renamed(tables, texts, tokens, n);
    lemma_max_renamed(tables, texts, tokens, n, 0, 0);
    let num = (max + 1) as u32;
    sibling_table::written_siblings_read_back(num, pairs, a);
    sibling_table::recorded_links_are_the_rows(pairs, a, e);
    sibling_table::written_links_ascend(pairs, a);
    lemma_all_renamed(tables, texts, tokens, n, a, e);
    if exists|k: int, o: int|
        0 <= k < n && #[trigger] source_links_them(tables, texts, tokens, k, o, a, e) {
        let (k, o) = choose|k: int, o: int|
            0 <= k < n && #[trigger] source_links_them(tables, texts, tokens, k, o, a, e);
        lemma_max_renamed(tables, texts, tokens, n, k, o);
        assert(a < num);
    }
}

} // verus!
