//! The texts that were given ids since the last commits, by commit epoch.
//!
//! A commit forgets whole epochs: what was minted before it began belongs to
//! the segments it publishes.

use vstd::prelude::*;

use crate::key_table::KeyIndex;

verus! {

/// The texts of one epoch: field and key of each, and its id.
#[verifier::ext_equal]
pub struct Epoch {
    /// The number of the epoch.
    pub number: u64,
    /// Field and key of each text.
    pub keys: Seq<(u64, Seq<u8>)>,
    /// The ids.
    pub ids: Seq<u64>,
}

impl Epoch {
    /// The id of a text.
    pub open spec fn id_of(self, field_id: u32, key: Seq<u8>) -> Option<u64> {
        if self.keys.contains((field_id as u64, key)) {
            Some(self.ids[self.keys.index_of((field_id as u64, key))])
        } else {
            None
        }
    }

    /// With a text.
    pub open spec fn with(self, field_id: u32, key: Seq<u8>, id: u64) -> Epoch {
        Epoch {
            keys: self.keys.push((field_id as u64, key)),
            ids: self.ids.push(id),
            ..self
        }
    }
}

/// An epoch without texts.
pub open spec fn empty_epoch(number: u64) -> Epoch {
    Epoch { number, keys: Seq::empty(), ids: Seq::empty() }
}

/// The id of a text, from the last epoch that has it.
pub open spec fn pending_id(epochs: Seq<Epoch>, field_id: u32, key: Seq<u8>) -> Option<u64>
    decreases epochs.len(),
{
    if epochs.len() == 0 {
        None
    } else {
        match epochs.last().id_of(field_id, key) {
            Some(id) => Some(id),
            None => pending_id(epochs.drop_last(), field_id, key),
        }
    }
}

/// The epochs with a text in the epoch `number`, which is the last.
pub open spec fn with_pending(
    epochs: Seq<Epoch>,
    number: u64,
    field_id: u32,
    key: Seq<u8>,
    id: u64,
) -> Seq<Epoch> {
    if epochs.len() > 0 && epochs.last().number == number {
        epochs.drop_last().push(epochs.last().with(field_id, key, id))
    } else {
        epochs.push(empty_epoch(number).with(field_id, key, id))
    }
}

/// Which epochs are at or after `number`.
pub open spec fn from_epoch(number: u64) -> spec_fn(Epoch) -> bool {
    |e: Epoch| e.number >= number
}

/// How many texts the epochs hold.
pub open spec fn pending_count(epochs: Seq<Epoch>) -> int
    decreases epochs.len(),
{
    if epochs.len() == 0 {
        0
    } else {
        pending_count(epochs.drop_last()) + epochs.last().keys.len()
    }
}

/// A text that was given an id is found with it.
pub proof fn minted_text_is_found(
    epochs: Seq<Epoch>,
    number: u64,
    field_id: u32,
    key: Seq<u8>,
    id: u64,
)
    requires
        epochs.len() > 0 ==> epochs.last().ids.len() == epochs.last().keys.len(),
        pending_id(epochs, field_id, key) is None,
    ensures
        pending_id(with_pending(epochs, number, field_id, key, id), field_id, key) == Some(id),
{
    let after = with_pending(epochs, number, field_id, key, id);
    let e = after.last();
    let k = (field_id as u64, key);
    assert(e.keys[e.keys.len() - 1] == k);
    assert(e.keys.contains(k));
    let i = e.keys.index_of(k);
    if i < e.keys.len() - 1 {
        assert(epochs.last().keys[i] == k);
        assert(epochs.last().keys.contains(k));
    }
}

/// A text keeps its id when another one is minted.
pub proof fn minting_keeps_other_texts(
    epochs: Seq<Epoch>,
    number: u64,
    field_id: u32,
    key: Seq<u8>,
    id: u64,
    field_id2: u32,
    key2: Seq<u8>,
)
    requires
        epochs.len() > 0 ==> epochs.last().ids.len() == epochs.last().keys.len()
            && epochs.last().keys.no_duplicates(),
        field_id != field_id2 || key != key2,
    ensures
        pending_id(with_pending(epochs, number, field_id, key, id), field_id2, key2) == pending_id(
            epochs,
            field_id2,
            key2,
        ),
{
    let after = with_pending(epochs, number, field_id, key, id);
    let e = after.last();
    let k = (field_id2 as u64, key2);
    if epochs.len() > 0 && epochs.last().number == number {
        let d = epochs.last();
        assert(after.drop_last() =~= epochs.drop_last());
        if d.keys.contains(k) {
            let i = d.keys.index_of(k);
            assert(e.keys[i] == k);
            let j = e.keys.index_of(k);
            assert(d.keys[j] == k);
        } else if e.keys.contains(k) {
            let j = e.keys.index_of(k);
            assert(d.keys[j] == k);
        }
    } else {
        assert(after.drop_last() =~= epochs);
        if e.keys.contains(k) {
            let j = e.keys.index_of(k);
            assert(e.keys[j] == k);
        }
    }
}

/// A commit forgets no text of the epochs from its own on.
pub proof fn forgetting_keeps_later_texts(
    epochs: Seq<Epoch>,
    number: u64,
    field_id: u32,
    key: Seq<u8>,
)
    ensures
        ({
            let kept = epochs.filter(from_epoch(number));
            &&& forall|i: int| 0 <= i < kept.len() ==> (#[trigger] kept[i]).number >= number
            &&& forall|i: int|
                0 <= i < epochs.len() && (#[trigger] epochs[i]).number >= number ==> kept.contains(
                    epochs[i],
                )
            &&& (epochs.len() > 0 && epochs.last().number >= number
                && epochs.last().id_of(field_id, key) is Some) ==> pending_id(kept, field_id, key)
                == pending_id(epochs, field_id, key)
        }),
{
    let kept = epochs.filter(from_epoch(number));
    assert forall|i: int| 0 <= i < kept.len() implies (#[trigger] kept[i]).number >= number by {
        epochs.lemma_filter_pred(from_epoch(number), i);
    }
    assert forall|i: int| 0 <= i < epochs.len() && (#[trigger] epochs[i]).number >= number implies kept.contains(
    epochs[i]) by {
        epochs.lemma_filter_contains(from_epoch(number), i);
    }
    if epochs.len() > 0 && epochs.last().number >= number {
        reveal(Seq::filter);
        assert(kept.last() == epochs.last());
    }
}

struct PendingEpoch {
    epoch: u64,
    index: KeyIndex,
    ids: Vec<u64>,
}

impl PendingEpoch {
    spec fn wf(&self) -> bool {
        self.index.wf() && self.ids@.len() == self.index.keys().len()
    }

    spec fn model(&self) -> Epoch {
        Epoch { number: self.epoch, keys: self.index.keys(), ids: self.ids@ }
    }

    fn new(epoch: u64) -> (r: Self)
        ensures
            r.wf(),
            r.model() == empty_epoch(epoch),
    {
        let r = PendingEpoch { epoch, index: KeyIndex::new(), ids: Vec::new() };
        assert(r.model() =~= empty_epoch(epoch));
        r
    }

    fn get(&self, field_id: u32, key: &[u8]) -> (r: Option<u64>)
        requires
            self.wf(),
        ensures
            r == self.model().id_of(field_id, key@),
    {
        match self.index.find(field_id as u64, key) {
            Some(i) => {
                proof {
                    let k = (field_id as u64, key@);
                    self.index.lemma_distinct();
                    let j = self.index.keys().index_of(k);
                    assert(self.index.keys()[j] == k);
                    assert(j == i);
                }
                Some(self.ids[i as usize])
            },
            None => None,
        }
    }

    fn insert(&mut self, field_id: u32, key: &[u8], id: u64)
        requires
            old(self).wf(),
            old(self).model().keys.len() < u32::MAX,
            old(self).model().id_of(field_id, key@) is None,
        ensures
            final(self).wf(),
            final(self).model() == old(self).model().with(field_id, key@, id),
    {
        let n: u32 = self.index.push(field_id as u64, key);
        self.ids.push(id);
        assert(self.model() =~= old(self).model().with(field_id, key@, id));
    }
}

/// The pending texts.
pub struct PendingTexts {
    epochs: Vec<PendingEpoch>,
}

impl PendingTexts {
    /// The epochs that hold texts, the last being minted into.
    pub closed spec fn epochs(&self) -> Seq<Epoch> {
        Seq::new(self.epochs@.len(), |i: int| self.epochs@[i].model())
    }

    /// Every text has an id, and is found in its epoch.
    pub closed spec fn wf(&self) -> bool {
        forall|i: int| 0 <= i < self.epochs@.len() ==> (#[trigger] self.epochs@[i]).wf()
    }

    /// In an epoch every text stands once and has an id.
    pub proof fn lemma_epochs(&self)
        requires
            self.wf(),
        ensures
            forall|i: int|
                0 <= i < self.epochs().len() ==> (#[trigger] self.epochs()[i]).ids.len()
                    == self.epochs()[i].keys.len() && self.epochs()[i].keys.no_duplicates(),
    {
        assert forall|i: int| 0 <= i < self.epochs().len() implies (#[trigger] self.epochs()[i]).ids.len()
            == self.epochs()[i].keys.len() && self.epochs()[i].keys.no_duplicates() by {
            assert(self.epochs@[i].wf());
            self.epochs@[i].index.lemma_distinct();
        }
    }

    /// No texts.
    pub fn new() -> (r: Self)
        ensures
            r.wf(),
            r.epochs() == Seq::<Epoch>::empty(),
    {
        let r = PendingTexts { epochs: Vec::new() };
        assert(r.epochs() =~= Seq::<Epoch>::empty());
        r
    }

    /// The id of a text, if it is pending.
    pub fn get(&self, field_id: u32, key: &[u8]) -> (r: Option<u64>)
        requires
            self.wf(),
        ensures
            r == pending_id(self.epochs(), field_id, key@),
    {
        let ghost all = self.epochs();
        let mut n: usize = self.epochs.len();
        assert(all.take(n as int) =~= all);
        while n > 0
            invariant
                n <= self.epochs@.len(),
                self.wf(),
                all == self.epochs(),
                all.len() == self.epochs@.len(),
                pending_id(all, field_id, key@) == pending_id(all.take(n as int), field_id, key@),
            decreases n,
        {
            let ghost t = all.take(n as int);
            assert(t.last() == self.epochs@[n - 1].model());
            assert(t.drop_last() =~= all.take(n - 1));
            assert(self.epochs@[n - 1].wf());
            match self.epochs[n - 1].get(field_id, key) {
                Some(id) => {
                    return Some(id);
                },
                None => {},
            }
            n -= 1;
        }
        None
    }

    /// Records the id of a text that is not pending, in the epoch `epoch`.
    pub fn insert(&mut self, epoch: u64, field_id: u32, key: &[u8], id: u64)
        requires
            old(self).wf(),
            pending_id(old(self).epochs(), field_id, key@) is None,
            old(self).epochs().len() > 0 ==> old(self).epochs().last().keys.len() < u32::MAX,
        ensures
            final(self).wf(),
            final(self).epochs() == with_pending(old(self).epochs(), epoch, field_id, key@, id),
    {
        let ghost before = self.epochs();
        let n: usize = self.epochs.len();
        if n == 0 || self.epochs[n - 1].epoch != epoch {
            let mut e = PendingEpoch::new(epoch);
            e.insert(field_id, key, id);
            self.epochs.push(e);
        } else {
            assert(self.epochs@[n - 1].wf());
            assert(before.last() == self.epochs@[n - 1].model());
            self.epochs[n - 1].insert(field_id, key, id);
        }
        proof {
            assert(self.epochs() =~= with_pending(before, epoch, field_id, key@, id));
            assert forall|i: int| 0 <= i < self.epochs@.len() implies (#[trigger] self.epochs@[i]).wf() by {
                if i < n {
                    assert(old(self).epochs@[i].wf());
                }
            }
        }
    }

    /// Forgets the epochs before `epoch`.
    pub fn forget_before(&mut self, epoch: u64)
        requires
            old(self).wf(),
        ensures
            final(self).wf(),
            final(self).epochs() == old(self).epochs().filter(from_epoch(epoch)),
    {
        let ghost all = self.epochs();
        let mut rest: Vec<PendingEpoch> = Vec::new();
        std::mem::swap(&mut rest, &mut self.epochs);
        let mut kept: Vec<PendingEpoch> = Vec::new();
        let ghost source = rest@;
        let ghost n = source.len() as int;
        proof {
            assert(all.subrange(n, n) =~= Seq::<Epoch>::empty());
            reveal(Seq::filter);
        }
        while rest.len() > 0
            invariant
                n == source.len(),
                all == Seq::new(source.len(), |i: int| source[i].model()),
                rest@ == source.take(rest@.len() as int),
                rest@.len() <= n,
                forall|i: int| 0 <= i < source.len() ==> (#[trigger] source[i]).wf(),
                forall|i: int| 0 <= i < kept@.len() ==> (#[trigger] kept@[i]).wf(),
                Seq::new(kept@.len(), |i: int| kept@[kept@.len() - 1 - i].model()) == all.subrange(
                    rest@.len() as int,
                    n,
                ).filter(from_epoch(epoch)),
                self.epochs@.len() == 0,
            decreases rest@.len(),
        {
            let ghost k = rest@.len() as int;
            let ghost before = kept@;
            let e = rest.pop().unwrap();
            proof {
                assert(e == source[k - 1]);
                let one = seq![e.model()];
                let tail = all.subrange(k, n);
                assert(all.subrange(k - 1, n) =~= one + tail);
                Seq::filter_distributes_over_add(one, tail, from_epoch(epoch));
                reveal(Seq::filter);
                assert(one.drop_last() =~= Seq::<Epoch>::empty());
                one.drop_last().lemma_filter_len(from_epoch(epoch));
                assert(one.last() == e.model());
                assert(one.filter(from_epoch(epoch)) =~= if e.epoch >= epoch {
                    one
                } else {
                    Seq::<Epoch>::empty()
                });
                assert(rest@ =~= source.take(k - 1));
            }
            if e.epoch >= epoch {
                kept.push(e);
                assert(Seq::new(kept@.len(), |i: int| kept@[kept@.len() - 1 - i].model()) =~= seq![
                    e.model(),
                ] + Seq::new(before.len(), |i: int| before[before.len() - 1 - i].model()));
            }
            assert(Seq::new(kept@.len(), |i: int| kept@[kept@.len() - 1 - i].model()) =~= all.subrange(
                rest@.len() as int,
                n,
            ).filter(from_epoch(epoch)));
        }
        let ghost back = kept@;
        assert(all.subrange(0, n) =~= all);
        while kept.len() > 0
            invariant
                kept@ == back.take(kept@.len() as int),
                kept@.len() <= back.len(),
                forall|i: int| 0 <= i < back.len() ==> (#[trigger] back[i]).wf(),
                self.epochs@.len() == back.len() - kept@.len(),
                forall|i: int|
                    0 <= i < self.epochs@.len() ==> #[trigger] self.epochs@[i] == back[back.len() - 1
                        - i],
            decreases kept@.len(),
        {
            let ghost k = kept@.len() as int;
            let e = kept.pop().unwrap();
            self.epochs.push(e);
            assert(kept@ =~= back.take(k - 1));
        }
        assert(self.epochs() =~= all.filter(from_epoch(epoch)));
    }

    /// Number of pending texts.
    pub fn len(&self) -> (n: usize)
        requires
            pending_count(self.epochs()) <= usize::MAX,
        ensures
            n == pending_count(self.epochs()),
    {
        let ghost all = self.epochs();
        let mut n: usize = 0;
        let mut k: usize = 0;
        assert(all.take(0) =~= Seq::<Epoch>::empty());
        while k < self.epochs.len()
            invariant
                k <= self.epochs@.len(),
                all == self.epochs(),
                all.len() == self.epochs@.len(),
                pending_count(all) <= usize::MAX,
                n == pending_count(all.take(k as int)),
            decreases self.epochs@.len() - k,
        {
            proof {
                let t = all.take(k + 1);
                assert(t.drop_last() =~= all.take(k as int));
                assert(t.last() == self.epochs@[k as int].model());
                lemma_count_mono(all, k + 1);
            }
            n = n + self.epochs[k].index.len();
            k += 1;
        }
        assert(all.take(k as int) =~= all);
        n
    }
}

proof fn lemma_count_mono(epochs: Seq<Epoch>, k: int)
    requires
        0 <= k <= epochs.len(),
    ensures
        pending_count(epochs.take(k)) <= pending_count(epochs),
    decreases epochs.len(),
{
    if k < epochs.len() {
        lemma_count_mono(epochs.drop_last(), k);
        assert(epochs.drop_last().take(k) =~= epochs.take(k));
    } else {
        assert(epochs.take(k) =~= epochs);
    }
}

} // verus!
