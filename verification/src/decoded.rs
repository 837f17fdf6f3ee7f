//! A bounded cache of decoded blocks.

use crate::sharing::share;
use crate::types::{lawful, tells, Height};
use std::collections::VecDeque;
use std::sync::Arc;
use vstd::prelude::*;

verus! {

broadcast use vstd::std_specs::vecdeque::group_vec_dequeue_axioms;

/// A decoded block, with what it is found by.
pub struct Entry<C, D, B> {
    pub commitment: C,
    pub digest: D,
    pub block: Arc<B>,
    pub bytes: usize,
    pub height: Height,
    pub finalized: bool,
}

/// The encoded size of all entries together.
pub open spec fn total<C, D, B>(entries: Seq<Entry<C, D, B>>) -> nat
    decreases entries.len(),
{
    if entries.len() == 0 {
        0
    } else {
        total(entries.drop_last()) + entries.last().bytes as nat
    }
}

/// What a cache holds, oldest first, and its two limits.
#[verifier::ext_equal]
pub ghost struct Cache<C, D, B> {
    pub entries: Seq<Entry<C, D, B>>,
    pub max_entries: nat,
    pub max_bytes: nat,
}

/// The entry at the index is the first for which the question is answered by yes. The
/// question may be one to which an entry has more than one answer.
pub open spec fn first<C, D, B>(
    entries: Seq<Entry<C, D, B>>,
    asked: spec_fn(Entry<C, D, B>, bool) -> bool,
    index: int,
) -> bool {
    &&& 0 <= index < entries.len()
    &&& asked(entries[index], true)
    &&& forall|i: int| 0 <= i < index ==> asked(#[trigger] entries[i], false)
}

/// The question is answered by no for each of the entries.
pub open spec fn missing<C, D, B>(
    entries: Seq<Entry<C, D, B>>,
    asked: spec_fn(Entry<C, D, B>, bool) -> bool,
) -> bool {
    forall|i: int| 0 <= i < entries.len() ==> asked(#[trigger] entries[i], false)
}

/// The block is that of the first entry for which the question is answered by yes, or
/// there is no such entry.
pub open spec fn found<C, D, B>(
    entries: Seq<Entry<C, D, B>>,
    asked: spec_fn(Entry<C, D, B>, bool) -> bool,
    block: Option<Arc<B>>,
) -> bool {
    match block {
        Some(block) => exists|i: int|
            #[trigger] first(entries, asked, i) && block == entries[i].block,
        None => missing(entries, asked),
    }
}

/// Whether the entry is that of the commitment, which `==` on commitments answers.
pub open spec fn has_commitment<C: PartialEq, D, B>(commitment: C) -> spec_fn(
    Entry<C, D, B>,
    bool,
) -> bool {
    |entry: Entry<C, D, B>, answer: bool| tells(entry.commitment, commitment, answer)
}

/// Whether the entry is that of the digest, which `==` on digests answers.
pub open spec fn has_digest<C, D: PartialEq, B>(digest: D) -> spec_fn(
    Entry<C, D, B>,
    bool,
) -> bool {
    |entry: Entry<C, D, B>, answer: bool| tells(entry.digest, digest, answer)
}

/// Whether the entry is that of the finalized block at the height.
pub open spec fn has_height<C, D, B>(height: Height) -> spec_fn(Entry<C, D, B>, bool) -> bool {
    |entry: Entry<C, D, B>, answer: bool|
        answer == (entry.finalized && entry.height@ == height@)
}

/// The entry outlives pruning: below a height, or down to what is finalized.
pub open spec fn survives<C, D, B>(height: Option<Height>) -> spec_fn(Entry<C, D, B>) -> bool {
    |entry: Entry<C, D, B>|
        match height {
            Some(height) => entry.height@ >= height@,
            None => entry.finalized,
        }
}

impl<C: PartialEq, D, B> Cache<C, D, B> {
    /// Both limits are kept, and no commitment is held twice: `==` told each apart from
    /// every later one.
    pub open spec fn wf(self) -> bool {
        &&& self.entries.len() <= self.max_entries
        &&& total(self.entries) <= self.max_bytes
        &&& forall|i: int, j: int|
            0 <= i < j < self.entries.len() ==> tells(
                #[trigger] self.entries[i].commitment,
                #[trigger] self.entries[j].commitment,
                false,
            )
    }

    /// Without its `evicted` oldest entries, there is room for another of the size.
    pub open spec fn room(self, evicted: int, bytes: nat) -> bool {
        &&& 0 <= evicted <= self.entries.len()
        &&& self.entries.len() - evicted < self.max_entries
        &&& total(self.entries.skip(evicted)) + bytes <= self.max_bytes
    }

    /// The number is the least that makes room for another entry of the size.
    pub open spec fn least_room(self, evicted: int, bytes: nat) -> bool {
        &&& self.room(evicted, bytes)
        &&& forall|i: int| 0 <= i < evicted ==> !#[trigger] self.room(i, bytes)
    }

    /// An entry of the size bypasses the cache.
    pub open spec fn bypassed(self, bytes: nat) -> bool {
        self.max_entries == 0 || bytes > self.max_bytes
    }

    /// The cache after an entry was read. A known commitment keeps its entry, which
    /// becomes finalized if it is read so; a new one goes last, and as many of the oldest
    /// leave as it takes.
    pub open spec fn inserted(self, entry: Entry<C, D, B>, after: Self) -> bool {
        let known = has_commitment::<C, D, B>(entry.commitment);
        &&& after.max_entries == self.max_entries
        &&& after.max_bytes == self.max_bytes
        &&& if self.bypassed(entry.bytes as nat) {
            after.entries == self.entries
        } else {
            ||| exists|i: int| #[trigger]
                first(self.entries, known, i) && after.entries == self.entries.update(
                    i,
                    Entry {
                        finalized: self.entries[i].finalized || entry.finalized,
                        ..self.entries[i]
                    },
                )
            ||| missing(self.entries, known) && exists|k: int| #[trigger]
                self.least_room(k, entry.bytes as nat) && after.entries == self.entries.skip(
                    k,
                ).push(entry)
        }
    }

    /// The cache without what does not survive pruning.
    pub open spec fn pruned(self, height: Option<Height>) -> Self {
        Cache { entries: self.entries.filter(survives(height)), ..self }
    }
}

/// FIFO cache for successfully decoded archive reads. Full commitments are compared
/// on commitment lookups.
///
/// Encoded bytes are a retention weight, not a measurement of allocated heap. Both
/// the number of blocks and their total encoded size are bounded. Blocks larger
/// than the budget bypass the cache without evicting useful entries.
pub struct DecodedBlocks<C, D, B> {
    entries: VecDeque<Entry<C, D, B>>,
    bytes: usize,
    max_entries: usize,
    max_bytes: usize,
}

impl<C, D, B> View for DecodedBlocks<C, D, B> {
    type V = Cache<C, D, B>;

    closed spec fn view(&self) -> Cache<C, D, B> {
        Cache {
            entries: self.entries@,
            max_entries: self.max_entries as nat,
            max_bytes: self.max_bytes as nat,
        }
    }
}

impl<C: Eq, D: Eq, B> DecodedBlocks<C, D, B> {
    /// The charged size is that of the entries, and the model is well formed.
    pub closed spec fn wf(&self) -> bool {
        &&& self@.wf()
        &&& self.bytes == total(self.entries@)
    }

    /// Returns an empty cache with the two limits.
    pub fn new(max_entries: usize, max_bytes: usize) -> (cache: Self)
        ensures
            cache.wf(),
            cache@ == (Cache {
                entries: Seq::<Entry<C, D, B>>::empty(),
                max_entries: max_entries as nat,
                max_bytes: max_bytes as nat,
            }),
    {
        DecodedBlocks { entries: VecDeque::new(), bytes: 0, max_entries, max_bytes }
    }

    /// Returns the number of blocks held.
    pub fn len(&self) -> (len: usize)
        ensures
            len == self@.entries.len(),
    {
        self.entries.len()
    }

    /// Returns the encoded size of all blocks held.
    pub fn total_bytes(&self) -> (bytes: usize)
        requires
            self.wf(),
        ensures
            bytes == total(self@.entries),
    {
        self.bytes
    }

    /// Returns the block with exactly this commitment.
    pub fn by_commitment(&self, commitment: &C) -> (block: Option<Arc<B>>)
        ensures
            found(self@.entries, has_commitment(*commitment), block),
    {
        let mut i: usize = 0;
        while i < self.entries.len()
            invariant
                forall|j: int|
                    0 <= j < i ==> has_commitment(*commitment)(#[trigger] self@.entries[j], false),
            decreases self.entries.len() - i,
        {
            if self.entries[i].commitment == *commitment {
                assert(first(self@.entries, has_commitment(*commitment), i as int));
                return Some(share(&self.entries[i].block));
            }
            i = i + 1;
        }
        None
    }

    /// Returns the oldest block with this digest.
    pub fn by_digest(&self, digest: &D) -> (block: Option<Arc<B>>)
        ensures
            found(self@.entries, has_digest(*digest), block),
    {
        let mut i: usize = 0;
        while i < self.entries.len()
            invariant
                forall|j: int|
                    0 <= j < i ==> has_digest(*digest)(#[trigger] self@.entries[j], false),
            decreases self.entries.len() - i,
        {
            if self.entries[i].digest == *digest {
                assert(first(self@.entries, has_digest(*digest), i as int));
                return Some(share(&self.entries[i].block));
            }
            i = i + 1;
        }
        None
    }

    /// Returns the oldest finalized block at this height.
    pub fn by_height(&self, height: Height) -> (block: Option<Arc<B>>)
        ensures
            found(self@.entries, has_height(height), block),
    {
        let mut i: usize = 0;
        while i < self.entries.len()
            invariant
                forall|j: int| 0 <= j < i ==> has_height(height)(#[trigger] self@.entries[j], false),
            decreases self.entries.len() - i,
        {
            if self.entries[i].finalized && self.entries[i].height.get() == height.get() {
                assert(first(self@.entries, has_height(height), i as int));
                return Some(share(&self.entries[i].block));
            }
            i = i + 1;
        }
        None
    }

    /// Drops the blocks below the height, or all that are not finalized.
    pub fn prune(&mut self, height: Option<Height>)
        requires
            old(self).wf(),
        ensures
            final(self).wf(),
            final(self)@ == old(self)@.pruned(height),
    {
        let ghost all = self.entries@;
        let ghost wanted = survives::<C, D, B>(height);
        let mut kept: VecDeque<Entry<C, D, B>> = VecDeque::new();
        let mut bytes: usize = 0;
        let ghost mut seen: int = 0;
        proof {
            reveal(Seq::filter);
            assert(all.take(0) =~= Seq::empty());
            assert(all.skip(0) =~= all);
        }
        loop
            invariant
                wanted == survives::<C, D, B>(height),
                0 <= seen <= all.len(),
                self.entries@ == all.skip(seen),
                kept@ == all.take(seen).filter(wanted),
                bytes == total(kept@),
                total(all) <= usize::MAX,
                self.max_entries == old(self).max_entries,
                self.max_bytes == old(self).max_bytes,
            ensures
                seen == all.len(),
            decreases all.len() - seen,
        {
            match self.entries.pop_front() {
                None => {
                    break;
                },
                Some(entry) => {
                    proof {
                        assert(entry == all[seen]);
                        assert(all.take(seen + 1).drop_last() =~= all.take(seen));
                        assert(all.skip(seen).subrange(1, all.len() - seen) =~= all.skip(seen + 1));
                        reveal(Seq::filter);
                        lemma_total_push(kept@, entry);
                        lemma_total_filter(all.take(seen + 1), wanted);
                        lemma_total_take(all, seen + 1);
                        seen = seen + 1;
                    }
                    let keep = match height {
                        Some(height) => entry.height.get() >= height.get(),
                        None => entry.finalized,
                    };
                    if keep {
                        bytes = bytes + entry.bytes;
                        kept.push_back(entry);
                    }
                },
            }
        }
        self.entries = kept;
        self.bytes = bytes;
        proof {
            assert(all.take(all.len() as int) =~= all);
            lemma_total_filter(all, wanted);
            lemma_filter_distinct(all, wanted);
        }
    }

    /// Holds the block, unless its commitment is held already, in which case the
    /// entry held becomes finalized if this one is. The oldest entries make room.
    pub fn insert(
        &mut self,
        commitment: C,
        digest: D,
        block: Arc<B>,
        bytes: usize,
        height: Height,
        finalized: bool,
    )
        requires
            old(self).wf(),
        ensures
            final(self).wf(),
            final(self)@.max_entries == old(self)@.max_entries,
            final(self)@.max_bytes == old(self)@.max_bytes,
            old(self)@.max_entries == 0 || bytes > old(self)@.max_bytes ==> final(self)@ == old(self)@,
            old(self)@.max_entries > 0 && bytes <= old(self)@.max_bytes ==> final(self)@.entries.len() > 0,
            old(self)@.inserted(
                Entry { commitment, digest, block, bytes, height, finalized },
                final(self)@,
            ),
    {
        let ghost before = self@;
        let ghost known = has_commitment::<C, D, B>(commitment);
        let ghost entry = Entry { commitment, digest, block, bytes, height, finalized };
        if self.max_entries == 0 || bytes > self.max_bytes {
            return ;
        }
        let mut i: usize = 0;
        while i < self.entries.len()
            invariant
                *self == *old(self),
                before == old(self)@,
                known == has_commitment::<C, D, B>(commitment),
                entry == (Entry { commitment, digest, block, bytes, height, finalized }),
                old(self).wf(),
                !before.bypassed(bytes as nat),
                forall|j: int| 0 <= j < i ==> known(#[trigger] before.entries[j], false),
            decreases self.entries.len() - i,
        {
            if self.entries[i].commitment == commitment {
                let ghost old_entry = self.entries@[i as int];
                if let Some(mut held) = self.entries.remove(i) {
                    held.finalized = held.finalized || finalized;
                    self.entries.insert(i, held);
                    proof {
                        let new_entry = Entry {
                            finalized: old_entry.finalized || finalized,
                            ..old_entry
                        };
                        assert(self.entries@ =~= before.entries.update(i as int, new_entry));
                        lemma_total_update(before.entries, i as int, new_entry);
                        assert(first(before.entries, known, i as int));
                    }
                }
                return ;
            }
            i = i + 1;
        }
        let ghost mut evicted: int = 0;
        proof {
            assert(before.entries.skip(0) =~= before.entries);
        }
        while self.entries.len() >= self.max_entries || bytes > self.max_bytes - self.bytes
            invariant
                0 <= evicted <= before.entries.len(),
                self.entries@ == before.entries.skip(evicted),
                self.bytes == total(self.entries@),
                self.bytes <= self.max_bytes,
                self.max_entries == before.max_entries,
                self.max_bytes == before.max_bytes,
                !before.bypassed(bytes as nat),
                forall|k: int| 0 <= k < evicted ==> !#[trigger] before.room(k, bytes as nat),
            decreases before.entries.len() - evicted,
        {
            proof {
                assert(!before.room(evicted, bytes as nat));
                if self.entries@.len() > 0 {
                    lemma_total_skip(self.entries@);
                }
                assert(self.entries@.len() > 0);
                assert(self.entries@.subrange(1, self.entries@.len() as int)
                    =~= self.entries@.skip(1));
                assert(before.entries.skip(evicted).skip(1) =~= before.entries.skip(evicted + 1));
            }
            if let Some(oldest) = self.entries.pop_front() {
                self.bytes = self.bytes - oldest.bytes;
            }
            proof {
                evicted = evicted + 1;
            }
        }
        proof {
            lemma_total_push(self.entries@, entry);
            assert(before.least_room(evicted, bytes as nat));
        }
        self.entries.push_back(Entry { commitment, digest, block, bytes, height, finalized });
        self.bytes = self.bytes + bytes;
        assert(self@.entries == before.entries.skip(evicted).push(entry));
        assert(self@.max_entries == before.max_entries);
    }
}

proof fn lemma_total_take<C, D, B>(entries: Seq<Entry<C, D, B>>, n: int)
    requires
        0 <= n <= entries.len(),
    ensures
        total(entries.take(n)) <= total(entries),
    decreases entries.len(),
{
    if n == entries.len() {
        assert(entries.take(n) =~= entries);
    } else {
        lemma_total_take(entries.drop_last(), n);
        assert(entries.drop_last().take(n) =~= entries.take(n));
    }
}

proof fn lemma_total_update<C, D, B>(
    entries: Seq<Entry<C, D, B>>,
    i: int,
    entry: Entry<C, D, B>,
)
    requires
        0 <= i < entries.len(),
        entry.bytes == entries[i].bytes,
    ensures
        total(entries.update(i, entry)) == total(entries),
    decreases entries.len(),
{
    if i == entries.len() - 1 {
        assert(entries.update(i, entry).drop_last() =~= entries.drop_last());
    } else {
        lemma_total_update(entries.drop_last(), i, entry);
        assert(entries.update(i, entry).drop_last() =~= entries.drop_last().update(i, entry));
    }
}

proof fn lemma_total_push<C, D, B>(entries: Seq<Entry<C, D, B>>, entry: Entry<C, D, B>)
    ensures
        total(entries.push(entry)) == total(entries) + entry.bytes,
{
    assert(entries.push(entry).drop_last() =~= entries);
}

proof fn lemma_total_skip<C, D, B>(entries: Seq<Entry<C, D, B>>)
    requires
        entries.len() > 0,
    ensures
        total(entries) == entries[0].bytes + total(entries.skip(1)),
    decreases entries.len(),
{
    if entries.len() == 1 {
        assert(entries.skip(1) =~= Seq::empty());
        assert(entries.drop_last() =~= Seq::empty());
    } else {
        lemma_total_skip(entries.drop_last());
        assert(entries.drop_last().skip(1) =~= entries.skip(1).drop_last());
    }
}

proof fn lemma_total_filter<C, D, B>(
    entries: Seq<Entry<C, D, B>>,
    wanted: spec_fn(Entry<C, D, B>) -> bool,
)
    ensures
        total(entries.filter(wanted)) <= total(entries),
        entries.filter(wanted).len() <= entries.len(),
    decreases entries.len(),
{
    reveal(Seq::filter);
    if entries.len() > 0 {
        lemma_total_filter(entries.drop_last(), wanted);
        let kept = entries.drop_last().filter(wanted);
        lemma_total_push(kept, entries.last());
    }
}

/// Filtering keeps any relation that holds between each entry and every later one.
proof fn lemma_filter_distinct<C: PartialEq, D, B>(
    entries: Seq<Entry<C, D, B>>,
    wanted: spec_fn(Entry<C, D, B>) -> bool,
)
    requires
        forall|i: int, j: int|
            0 <= i < j < entries.len() ==> tells(
                #[trigger] entries[i].commitment,
                #[trigger] entries[j].commitment,
                false,
            ),
    ensures
        forall|i: int, j: int|
            0 <= i < j < entries.filter(wanted).len() ==> tells(
                #[trigger] entries.filter(wanted)[i].commitment,
                #[trigger] entries.filter(wanted)[j].commitment,
                false,
            ),
    decreases entries.len(),
{
    reveal(Seq::filter);
    if entries.len() > 0 {
        let before = entries.drop_last();
        lemma_filter_distinct(before, wanted);
        let kept = before.filter(wanted);
        assert forall|i: int| 0 <= i < kept.len() implies tells(
            #[trigger] kept[i].commitment,
            entries.last().commitment,
            false,
        ) by {
            before.lemma_filter_contains_rev(wanted, kept[i]);
            let k = choose|k: int| 0 <= k < before.len() && before[k] == kept[i];
            assert(entries[k] == kept[i]);
        }
    }
}

/// A cache never holds more blocks or bytes than its limits, nor a commitment twice.
pub proof fn law_cache_is_bounded<C: Eq, D: Eq, B>(cache: DecodedBlocks<C, D, B>)
    requires
        cache.wf(),
    ensures
        cache@.wf(),
        cache@.entries.len() <= cache@.max_entries,
        total(cache@.entries) <= cache@.max_bytes,
        forall|i: int, j: int|
            0 <= i < j < cache@.entries.len() ==> tells(
                #[trigger] cache@.entries[i].commitment,
                #[trigger] cache@.entries[j].commitment,
                false,
            ),
{
}

/// At most one entry is held per commitment: any two differ, and `==` says so either
/// way around.
pub proof fn law_commitments_are_held_once<C: Eq, D: Eq, B>(cache: Cache<C, D, B>, i: int, j: int)
    requires
        cache.wf(),
        lawful::<C>(),
        0 <= i < cache.entries.len(),
        0 <= j < cache.entries.len(),
        i != j,
    ensures
        cache.entries[i].commitment != cache.entries[j].commitment,
        !tells(cache.entries[i].commitment, cache.entries[j].commitment, true),
{
    let (earlier, later) = if i < j {
        (i, j)
    } else {
        (j, i)
    };
    let a = cache.entries[earlier].commitment;
    let b = cache.entries[later].commitment;
    assert(tells(a, b, false));
    if tells(b, a, true) {
        assert(false);
    }
}

/// The same question, asked again of the same entries, finds the same block.
proof fn lemma_found_once<C: Eq, D: Eq, B>(
    entries: Seq<Entry<C, D, B>>,
    commitment: C,
    block: Option<Arc<B>>,
    again: Option<Arc<B>>,
)
    requires
        lawful::<C>(),
        found(entries, has_commitment(commitment), block),
        found(entries, has_commitment(commitment), again),
    ensures
        block == again,
{
    let known = has_commitment::<C, D, B>(commitment);
    if let Some(_) = block {
        let i = choose|i: int| #[trigger]
            first(entries, known, i) && block == Some(entries[i].block);
        assert(tells(entries[i].commitment, commitment, true));
        if let Some(_) = again {
            let j = choose|j: int| #[trigger]
                first(entries, known, j) && again == Some(entries[j].block);
            assert(tells(entries[j].commitment, commitment, true));
            if i < j {
                assert(known(entries[i], false));
            } else if j < i {
                assert(known(entries[j], false));
            }
        } else {
            assert(known(entries[i], false));
        }
    } else if let Some(_) = again {
        let j = choose|j: int| #[trigger] first(entries, known, j) && again == Some(entries[j].block);
        assert(tells(entries[j].commitment, commitment, true));
        assert(known(entries[j], false));
    }
}

/// What is found by a commitment once a block was read: what was held before, if
/// anything, and otherwise the block itself, unless nothing is held at all or it alone
/// is larger than the budget.
pub proof fn law_inserted_block_is_found<C: Eq, D: Eq, B>(
    before: Cache<C, D, B>,
    entry: Entry<C, D, B>,
    after: Cache<C, D, B>,
    held: Option<Arc<B>>,
    block: Option<Arc<B>>,
)
    requires
        lawful::<C>(),
        before.inserted(entry, after),
        found(before.entries, has_commitment(entry.commitment), held),
        found(after.entries, has_commitment(entry.commitment), block),
    ensures
        block == (match held {
            Some(held) => Some(held),
            None => if before.max_entries == 0 || entry.bytes > before.max_bytes {
                None
            } else {
                Some(entry.block)
            },
        }),
{
    let known = has_commitment::<C, D, B>(entry.commitment);
    if before.bypassed(entry.bytes as nat) {
        lemma_found_once(before.entries, entry.commitment, held, block);
    } else if missing(before.entries, known) && exists|k: int| #[trigger]
        before.least_room(k, entry.bytes as nat) && after.entries == before.entries.skip(k).push(
            entry,
        ) {
        lemma_found_once(before.entries, entry.commitment, held, None);
        let k = choose|k: int| #[trigger]
            before.least_room(k, entry.bytes as nat) && after.entries == before.entries.skip(
                k,
            ).push(entry);
        let last = after.entries.len() - 1;
        assert(after.entries[last] == entry);
        match block {
            None => {
                assert(known(after.entries[last], false));
            },
            Some(_) => {
                let i = choose|i: int| #[trigger]
                    first(after.entries, known, i) && block == Some(after.entries[i].block);
                assert(tells(after.entries[i].commitment, entry.commitment, true));
                if i < last {
                    assert(after.entries[i] == before.entries[i + k]);
                    assert(known(before.entries[i + k], false));
                }
            },
        }
    } else {
        let i = choose|i: int| #[trigger]
            first(before.entries, known, i) && after.entries == before.entries.update(
                i,
                Entry {
                    finalized: before.entries[i].finalized || entry.finalized,
                    ..before.entries[i]
                },
            );
        lemma_found_once(before.entries, entry.commitment, held, Some(before.entries[i].block));
        assert(known(after.entries[i], true));
        assert forall|j: int| 0 <= j < i implies known(#[trigger] after.entries[j], false) by {
            assert(known(before.entries[j], false));
        }
        assert(first(after.entries, known, i));
        lemma_found_once(after.entries, entry.commitment, block, Some(before.entries[i].block));
    }
}

/// The oldest entries leave first, none of them without need, and the others keep
/// their order.
pub proof fn law_oldest_entries_make_room<C: Eq, D: Eq, B>(
    before: Cache<C, D, B>,
    entry: Entry<C, D, B>,
    after: Cache<C, D, B>,
)
    requires
        lawful::<C>(),
        before.wf(),
        before.inserted(entry, after),
        before.max_entries > 0,
        entry.bytes <= before.max_bytes,
        found(before.entries, has_commitment(entry.commitment), None),
    ensures
        after.wf(),
        after.max_entries == before.max_entries,
        after.max_bytes == before.max_bytes,
        after.entries.len() <= before.max_entries,
        total(after.entries) <= before.max_bytes,
        before.entries.len() < before.max_entries && total(before.entries) + entry.bytes
            <= before.max_bytes ==> after.entries == before.entries.push(entry),
        after.entries.len() > 0,
        after.entries.last() == entry,
        after.entries.len() <= before.entries.len() + 1,
        after.entries.drop_last() == before.entries.skip(
            before.entries.len() + 1 - after.entries.len(),
        ),
        after.entries.len() < before.entries.len() + 1 ==> {
            let evicted = before.entries.len() + 1 - after.entries.len();
            ||| before.entries.len() - evicted + 1 >= before.max_entries
            ||| total(before.entries.skip(evicted - 1)) + entry.bytes > before.max_bytes
        },
{
    let k = lemma_evicted(before, entry, after);
    assert(after.entries.drop_last() =~= before.entries.skip(k));
    assert(before.entries.skip(0) =~= before.entries);
    if k > 0 {
        assert(!before.room(k - 1, entry.bytes as nat));
        assert(!before.room(0, entry.bytes as nat));
    }
    lemma_total_push(before.entries.skip(k), entry);
    lemma_told_apart(before, entry, after, k);
}

/// How many entries a block with a new commitment evicts.
proof fn lemma_evicted<C: Eq, D: Eq, B>(
    before: Cache<C, D, B>,
    entry: Entry<C, D, B>,
    after: Cache<C, D, B>,
) -> (k: int)
    requires
        lawful::<C>(),
        before.inserted(entry, after),
        before.max_entries > 0,
        entry.bytes <= before.max_bytes,
        missing(before.entries, has_commitment(entry.commitment)),
    ensures
        before.least_room(k, entry.bytes as nat),
        after.entries == before.entries.skip(k).push(entry),
        after.max_entries == before.max_entries,
        after.max_bytes == before.max_bytes,
{
    let known = has_commitment::<C, D, B>(entry.commitment);
    assert forall|i: int| !#[trigger] first(before.entries, known, i) by {
        if first(before.entries, known, i) {
            assert(known(before.entries[i], false));
            assert(tells(before.entries[i].commitment, entry.commitment, true));
        }
    }
    choose|k: int| #[trigger]
        before.least_room(k, entry.bytes as nat) && after.entries == before.entries.skip(k).push(
            entry,
        )
}

proof fn lemma_told_apart<C: Eq, D: Eq, B>(
    before: Cache<C, D, B>,
    entry: Entry<C, D, B>,
    after: Cache<C, D, B>,
    k: int,
)
    requires
        before.wf(),
        0 <= k <= before.entries.len(),
        after.entries == before.entries.skip(k).push(entry),
        missing(before.entries, has_commitment(entry.commitment)),
    ensures
        forall|i: int, j: int|
            0 <= i < j < after.entries.len() ==> tells(
                #[trigger] after.entries[i].commitment,
                #[trigger] after.entries[j].commitment,
                false,
            ),
{
    let known = has_commitment::<C, D, B>(entry.commitment);
    assert forall|i: int, j: int| 0 <= i < j < after.entries.len() implies tells(
        #[trigger] after.entries[i].commitment,
        #[trigger] after.entries[j].commitment,
        false,
    ) by {
        assert(after.entries[i] == before.entries[i + k]);
        if j < after.entries.len() - 1 {
            assert(after.entries[j] == before.entries[j + k]);
        } else {
            assert(known(before.entries[i + k], false));
        }
    }
}

/// A block that is read again is charged once, and keeps what was known of it: a
/// finalized one stays finalized.
pub proof fn law_known_block_is_charged_once<C: Eq, D: Eq, B>(
    before: Cache<C, D, B>,
    entry: Entry<C, D, B>,
    after: Cache<C, D, B>,
    held: Arc<B>,
)
    requires
        lawful::<C>(),
        before.inserted(entry, after),
        found(before.entries, has_commitment(entry.commitment), Some(held)),
    ensures
        after.entries.len() == before.entries.len(),
        total(after.entries) == total(before.entries),
        forall|i: int|
            0 <= i < before.entries.len() ==> {
                &&& (#[trigger] after.entries[i]).block == before.entries[i].block
                &&& after.entries[i].commitment == before.entries[i].commitment
                &&& after.entries[i].digest == before.entries[i].digest
                &&& after.entries[i].bytes == before.entries[i].bytes
                &&& after.entries[i].height == before.entries[i].height
                &&& before.entries[i].finalized ==> after.entries[i].finalized
                &&& after.entries[i].finalized && !before.entries[i].finalized ==> entry.finalized
                    && tells(before.entries[i].commitment, entry.commitment, true)
            },
        before.max_entries > 0 && entry.bytes <= before.max_bytes && entry.finalized ==> exists|
            i: int,
        |
            0 <= i < after.entries.len() && (#[trigger] after.entries[i]).finalized
                && after.entries[i].block == held && tells(
                after.entries[i].commitment,
                entry.commitment,
                true,
            ),
{
    let known = has_commitment::<C, D, B>(entry.commitment);
    if !before.bypassed(entry.bytes as nat) {
        if missing(before.entries, known) {
            lemma_found_once(before.entries, entry.commitment, Some(held), None);
        }
        let i = choose|i: int| #[trigger]
            first(before.entries, known, i) && after.entries == before.entries.update(
                i,
                Entry {
                    finalized: before.entries[i].finalized || entry.finalized,
                    ..before.entries[i]
                },
            );
        lemma_total_update(before.entries, i, after.entries[i]);
        lemma_found_once(
            before.entries,
            entry.commitment,
            Some(held),
            Some(before.entries[i].block),
        );
        assert(tells(after.entries[i].commitment, entry.commitment, true));
    }
}

/// A lookup finds the block of an entry for which the answer was yes, and for which it
/// was no of every older one, and finds none only where it was no of all.
pub proof fn law_lookups_find_the_oldest<C: Eq, D: Eq, B>(
    entries: Seq<Entry<C, D, B>>,
    asked: spec_fn(Entry<C, D, B>, bool) -> bool,
    block: Option<Arc<B>>,
)
    requires
        found(entries, asked, block),
    ensures
        block is None ==> forall|i: int|
            0 <= i < entries.len() ==> asked(#[trigger] entries[i], false),
        block matches Some(block) ==> exists|i: int|
            0 <= i < entries.len() && block == (#[trigger] entries[i]).block && asked(
                entries[i],
                true,
            ) && forall|j: int| 0 <= j < i ==> asked(#[trigger] entries[j], false),
{
    if let Some(_) = block {
        let i = choose|i: int| #[trigger]
            first(entries, asked, i) && block == Some(entries[i].block);
        assert(block == Some(entries[i].block));
    }
}

/// Which entry a lookup is about: one whose commitment, or digest, `==` says is equal, or
/// a finalized one whose height has the same number.
pub proof fn law_lookups_compare_what_they_name<C: Eq, D: Eq, B>(
    entry: Entry<C, D, B>,
    commitment: C,
    digest: D,
    height: Height,
    answer: bool,
)
    ensures
        has_commitment::<C, D, B>(commitment)(entry, answer) <==> call_ensures(
            <C as PartialEq>::eq,
            (&entry.commitment, &commitment),
            answer,
        ),
        has_digest::<C, D, B>(digest)(entry, answer) <==> call_ensures(
            <D as PartialEq>::eq,
            (&entry.digest, &digest),
            answer,
        ),
        has_height::<C, D, B>(height)(entry, true) <==> entry.finalized && entry.height@ == height@,
        has_height::<C, D, B>(height)(entry, false) <==> !(entry.finalized && entry.height@
            == height@),
{
}

/// A block with a new commitment and a new digest is found by its digest from then on,
/// and by its height where it is finalized and none was found there before. A block that
/// is not finalized changes no lookup by height to itself.
pub proof fn law_new_block_is_found_by_digest_and_height<C: Eq, D: Eq, B>(
    before: Cache<C, D, B>,
    entry: Entry<C, D, B>,
    after: Cache<C, D, B>,
    by_digest: Option<Arc<B>>,
    by_height: Option<Arc<B>>,
)
    requires
        lawful::<C>(),
        lawful::<D>(),
        before.wf(),
        before.inserted(entry, after),
        before.max_entries > 0,
        entry.bytes <= before.max_bytes,
        found(before.entries, has_commitment(entry.commitment), None),
        found(after.entries, has_digest(entry.digest), by_digest),
        found(after.entries, has_height(entry.height), by_height),
    ensures
        found(before.entries, has_digest(entry.digest), None) ==> by_digest == Some(entry.block),
        found(before.entries, has_height(entry.height), None) ==> by_height == (
        if entry.finalized {
            Some(entry.block)
        } else {
            None
        }),
{
    law_oldest_entries_make_room(before, entry, after);
    let k = before.entries.len() + 1 - after.entries.len();
    let last = after.entries.len() - 1;
    assert(after.entries[last] == entry);
    assert forall|i: int| 0 <= i < last implies #[trigger] after.entries[i]
        == before.entries[i + k] by {
        assert(after.entries.drop_last()[i] == before.entries.skip(k)[i]);
    }
    let digest = has_digest::<C, D, B>(entry.digest);
    let height = has_height::<C, D, B>(entry.height);
    if missing(before.entries, digest) {
        match by_digest {
            None => {
                assert(digest(after.entries[last], false));
            },
            Some(_) => {
                let i = choose|i: int| #[trigger]
                    first(after.entries, digest, i) && by_digest == Some(after.entries[i].block);
                assert(tells(after.entries[i].digest, entry.digest, true));
                if i < last {
                    assert(digest(before.entries[i + k], false));
                    assert(tells(after.entries[i].digest, entry.digest, false));
                }
            },
        }
    }
    if missing(before.entries, height) {
        match by_height {
            None => {
                assert(height(after.entries[last], false));
            },
            Some(_) => {
                let i = choose|i: int| #[trigger]
                    first(after.entries, height, i) && by_height == Some(after.entries[i].block);
                if i < last {
                    assert(height(before.entries[i + k], false));
                }
            },
        }
    }
}

/// A block, or the one held of the same commitment, is held once it was read, unless no
/// block may be held or it alone is larger than the budget: then nothing changes.
pub proof fn law_only_the_oversized_bypass<C: Eq, D: Eq, B>(
    before: Cache<C, D, B>,
    entry: Entry<C, D, B>,
    after: Cache<C, D, B>,
)
    requires
        before.inserted(entry, after),
    ensures
        before.max_entries == 0 || entry.bytes > before.max_bytes ==> after == before,
        before.max_entries > 0 && entry.bytes <= before.max_bytes ==> exists|i: int|
            0 <= i < after.entries.len() && ((#[trigger] after.entries[i]) == entry || tells(
                after.entries[i].commitment,
                entry.commitment,
                true,
            )),
{
    let known = has_commitment::<C, D, B>(entry.commitment);
    if before.max_entries > 0 && entry.bytes <= before.max_bytes {
        if exists|i: int| #[trigger]
            first(before.entries, known, i) && after.entries == before.entries.update(
                i,
                Entry {
                    finalized: before.entries[i].finalized || entry.finalized,
                    ..before.entries[i]
                },
            ) {
            let i = choose|i: int| #[trigger]
                first(before.entries, known, i) && after.entries == before.entries.update(
                    i,
                    Entry {
                        finalized: before.entries[i].finalized || entry.finalized,
                        ..before.entries[i]
                    },
                );
            assert(known(before.entries[i], true));
            assert(tells(after.entries[i].commitment, entry.commitment, true));
        } else {
            let k = choose|k: int| #[trigger]
                before.least_room(k, entry.bytes as nat) && after.entries == before.entries.skip(
                    k,
                ).push(entry);
            assert(after.entries[after.entries.len() - 1] == entry);
        }
    }
}

/// The encoded size of entries is the sum of theirs: nothing for none, that of the entry
/// for one, and both together for what is joined.
pub proof fn law_sizes_are_summed<C: Eq, D: Eq, B>(
    entry: Entry<C, D, B>,
    a: Seq<Entry<C, D, B>>,
    b: Seq<Entry<C, D, B>>,
)
    ensures
        total(Seq::<Entry<C, D, B>>::empty()) == 0,
        total(seq![entry]) == entry.bytes,
        total(a + b) == total(a) + total(b),
    decreases b.len(),
{
    assert(seq![entry].drop_last() =~= Seq::<Entry<C, D, B>>::empty());
    assert(total(seq![entry]) == total(seq![entry].drop_last()) + entry.bytes);
    if b.len() == 0 {
        assert(a + b =~= a);
    } else {
        assert((a + b).drop_last() =~= a + b.drop_last());
        law_sizes_are_summed(entry, a, b.drop_last());
    }
}

/// Pruning keeps exactly the entries at or above the height, or those that are finalized,
/// whatever else is known of them, each as it was and in order, and no limit changes.
pub proof fn law_pruning_keeps_exactly_what_survives<C: Eq, D: Eq, B>(
    cache: Cache<C, D, B>,
    height: Option<Height>,
)
    ensures
        cache.pruned(height).max_entries == cache.max_entries,
        cache.pruned(height).max_bytes == cache.max_bytes,
        forall|entry: Entry<C, D, B>| #[trigger]
            cache.pruned(height).entries.contains(entry) <==> cache.entries.contains(entry) && (
            match height {
                Some(height) => entry.height@ >= height@,
                None => entry.finalized,
            }),
        forall|i: int|
            #![trigger cache.entries[i]]
            0 <= i < cache.entries.len() && (match height {
                Some(height) => cache.entries[i].height@ >= height@,
                None => cache.entries[i].finalized,
            }) ==> {
                let older = cache.pruned(height).entries.take(
                    cache.entries.take(i).filter(survives(height)).len() as int,
                );
                &&& older == cache.entries.take(i).filter(survives(height))
                &&& older.len() < cache.pruned(height).entries.len()
                &&& cache.pruned(height).entries[older.len() as int] == cache.entries[i]
            },
{
    let kept = survives::<C, D, B>(height);
    assert forall|entry: Entry<C, D, B>| #[trigger]
        cache.pruned(height).entries.contains(entry) <==> cache.entries.contains(entry) && kept(
            entry,
        ) by {
        if cache.pruned(height).entries.contains(entry) {
            cache.entries.lemma_filter_contains_rev(kept, entry);
            let i = choose|i: int|
                0 <= i < cache.entries.filter(kept).len() && cache.entries.filter(kept)[i] == entry;
            cache.entries.lemma_filter_pred(kept, i);
        }
        if cache.entries.contains(entry) && kept(entry) {
            let i = choose|i: int| 0 <= i < cache.entries.len() && cache.entries[i] == entry;
            cache.entries.lemma_filter_contains(kept, i);
        }
    }
    assert forall|i: int|
        #![trigger cache.entries[i]]
        0 <= i < cache.entries.len() && kept(cache.entries[i]) implies {
        let older = cache.pruned(height).entries.take(
            cache.entries.take(i).filter(kept).len() as int,
        );
        &&& older == cache.entries.take(i).filter(kept)
        &&& older.len() < cache.pruned(height).entries.len()
        &&& cache.pruned(height).entries[older.len() as int] == cache.entries[i]
    } by {
        let older = cache.entries.take(i).filter(kept);
        let rest = cache.entries.skip(i);
        assert(cache.entries =~= cache.entries.take(i) + rest);
        Seq::filter_distributes_over_add(cache.entries.take(i), rest, kept);
        let one = seq![rest[0]];
        assert(rest =~= one + rest.skip(1));
        Seq::filter_distributes_over_add(one, rest.skip(1), kept);
        assert(one.filter(kept) =~= one) by {
            reveal(Seq::filter);
            assert(one.drop_last() =~= Seq::<Entry<C, D, B>>::empty());
            assert(one.drop_last().filter(kept) =~= Seq::<Entry<C, D, B>>::empty());
        }
        let whole = cache.entries.filter(kept);
        assert(whole =~= older + (one + rest.skip(1).filter(kept)));
        assert(whole.take(older.len() as int) =~= older);
        assert(whole[older.len() as int] == one[0]);
    }
}

/// Filtering finds the same block, where only what is kept can be found.
proof fn lemma_found_filter<C, D, B>(
    entries: Seq<Entry<C, D, B>>,
    kept: spec_fn(Entry<C, D, B>) -> bool,
    asked: spec_fn(Entry<C, D, B>, bool) -> bool,
    block: Option<Arc<B>>,
)
    requires
        forall|entry: Entry<C, D, B>| #[trigger] asked(entry, true) ==> kept(entry),
        forall|entry: Entry<C, D, B>| #[trigger] asked(entry, false) <==> !asked(entry, true),
    ensures
        found(entries.filter(kept), asked, block) <==> found(entries, asked, block),
    decreases entries.len(),
{
    reveal(Seq::filter);
    if entries.len() > 0 {
        let before = entries.drop_last();
        let last = entries.last();
        assert(entries =~= before.push(last));
        lemma_found_filter(before, kept, asked, block);
        lemma_found_filter(before, kept, asked, None);
        lemma_found_push(before, last, asked, block);
        lemma_found_push(before.filter(kept), last, asked, block);
    }
}

proof fn lemma_found_push<C, D, B>(
    entries: Seq<Entry<C, D, B>>,
    entry: Entry<C, D, B>,
    asked: spec_fn(Entry<C, D, B>, bool) -> bool,
    block: Option<Arc<B>>,
)
    requires
        forall|entry: Entry<C, D, B>| #[trigger] asked(entry, false) <==> !asked(entry, true),
    ensures
        found(entries.push(entry), asked, block) <==> if missing(entries, asked) {
            block == (if asked(entry, true) {
                Some(entry.block)
            } else {
                None
            })
        } else {
            found(entries, asked, block)
        },
{
    let pushed = entries.push(entry);
    let last = entries.len() as int;
    assert(pushed[last] == entry);
    assert(asked(entry, false) <==> !asked(entry, true));
    if missing(entries, asked) {
        assert forall|i: int| 0 <= i < last implies asked(#[trigger] pushed[i], false) by {
            assert(pushed[i] == entries[i]);
        }
        if asked(entry, true) {
            assert(first(pushed, asked, last));
        } else {
            assert(missing(pushed, asked));
        }
        if let Some(_) = block {
            if found(pushed, asked, block) {
                let i = choose|i: int| #[trigger]
                    first(pushed, asked, i) && block == Some(pushed[i].block);
                assert(asked(pushed[i], false) <==> !asked(pushed[i], true));
            }
        } else if asked(entry, true) && missing(pushed, asked) {
            assert(asked(pushed[last], false));
        }
    } else {
        let k = choose|k: int| 0 <= k < entries.len() && !asked(#[trigger] entries[k], false);
        assert(pushed[k] == entries[k]);
        assert(!missing(pushed, asked)) by {
            assert(!asked(pushed[k], false));
        }
        if let Some(_) = block {
            if found(pushed, asked, block) {
                let i = choose|i: int| #[trigger]
                    first(pushed, asked, i) && block == Some(pushed[i].block);
                assert(i <= k) by {
                    if i > k {
                        assert(asked(pushed[k], false));
                    }
                }
                assert forall|j: int| 0 <= j < i implies asked(#[trigger] entries[j], false) by {
                    assert(pushed[j] == entries[j]);
                }
                assert(first(entries, asked, i));
            }
            if found(entries, asked, block) {
                let i = choose|i: int| #[trigger]
                    first(entries, asked, i) && block == Some(entries[i].block);
                assert forall|j: int| 0 <= j < i implies asked(#[trigger] pushed[j], false) by {
                    assert(pushed[j] == entries[j]);
                }
                assert(pushed[i] == entries[i]);
                assert(first(pushed, asked, i));
            }
        }
    }
}

/// Pruning below a height changes no lookup of that height or a greater one, and
/// finds no block below it; pruning to what is finalized changes no lookup by height.
pub proof fn law_pruning_respects_height<C: Eq, D: Eq, B>(
    cache: Cache<C, D, B>,
    pruned_to: Option<Height>,
    height: Height,
    block: Option<Arc<B>>,
)
    ensures
        (pruned_to matches Some(floor) ==> height@ >= floor@) ==> (found(
            cache.pruned(pruned_to).entries,
            has_height(height),
            block,
        ) <==> found(cache.entries, has_height(height), block)),
        pruned_to matches Some(floor) && height@ < floor@ ==> found(
            cache.pruned(pruned_to).entries,
            has_height(height),
            None,
        ),
        total(cache.pruned(pruned_to).entries) <= total(cache.entries),
{
    let kept = survives::<C, D, B>(pruned_to);
    let wanted = has_height::<C, D, B>(height);
    lemma_total_filter(cache.entries, kept);
    if pruned_to matches Some(floor) ==> height@ >= floor@ {
        lemma_found_filter(cache.entries, kept, wanted, block);
    } else {
        let entries = cache.entries.filter(kept);
        assert forall|i: int| 0 <= i < entries.len() implies wanted(#[trigger] entries[i], false) by {
            cache.entries.lemma_filter_contains_rev(kept, entries[i]);
            cache.entries.lemma_filter_pred(kept, i);
        }
    }
}

/// Pruning twice is pruning once.
pub proof fn law_pruning_is_idempotent<C: Eq, D: Eq, B>(
    cache: Cache<C, D, B>,
    height: Option<Height>,
)
    ensures
        cache.pruned(height).pruned(height) == cache.pruned(height),
{
    let kept = survives::<C, D, B>(height);
    lemma_filter_both(cache.entries, kept, kept, kept);
}

/// Pruning below one height and then below another is pruning below the greater one.
pub proof fn law_pruning_twice_is_to_the_greater_height<C: Eq, D: Eq, B>(
    cache: Cache<C, D, B>,
    a: Height,
    b: Height,
)
    ensures
        cache.pruned(Some(a)).pruned(Some(b)) == cache.pruned(
            if a@ >= b@ {
                Some(a)
            } else {
                Some(b)
            },
        ),
{
    let greater = if a@ >= b@ {
        Some(a)
    } else {
        Some(b)
    };
    lemma_filter_both(cache.entries, survives(Some(a)), survives(Some(b)), survives(greater));
}

/// The order of two prunings does not matter, below heights or to what is finalized.
pub proof fn law_prunings_commute<C: Eq, D: Eq, B>(
    cache: Cache<C, D, B>,
    a: Option<Height>,
    b: Option<Height>,
)
    ensures
        cache.pruned(a).pruned(b) == cache.pruned(b).pruned(a),
{
    let first = survives::<C, D, B>(a);
    let second = survives::<C, D, B>(b);
    let both = |entry: Entry<C, D, B>| first(entry) && second(entry);
    lemma_filter_both(cache.entries, first, second, both);
    lemma_filter_both(cache.entries, second, first, both);
}

/// Filtering by two predicates in turn is filtering by both at once.
proof fn lemma_filter_both<C, D, B>(
    entries: Seq<Entry<C, D, B>>,
    first: spec_fn(Entry<C, D, B>) -> bool,
    second: spec_fn(Entry<C, D, B>) -> bool,
    both: spec_fn(Entry<C, D, B>) -> bool,
)
    requires
        forall|entry: Entry<C, D, B>| #[trigger] both(entry) <==> first(entry) && second(entry),
    ensures
        entries.filter(first).filter(second) == entries.filter(both),
    decreases entries.len(),
{
    reveal(Seq::filter);
    if entries.len() > 0 {
        let kept = entries.drop_last().filter(first);
        lemma_filter_both(entries.drop_last(), first, second, both);
        assert(kept.push(entries.last()).drop_last() =~= kept);
        assert(both(entries.last()) <==> first(entries.last()) && second(entries.last()));
    }
}

} // verus!
