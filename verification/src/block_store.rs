use vstd::prelude::*;

use crate::RemoveResult;
use crate::block_id::BlockId;

verus! {


/// The index at which `ids` holds `id`; meaningful only when `ids` holds it.
pub open spec fn spec_index_of(ids: Seq<u128>, id: u128) -> int {
    choose|i: int| 0 <= i < ids.len() && ids[i] == id
}

/// With distinct ids, the chosen index is the one index holding `id`.
proof fn lemma_index_of(ids: Seq<u128>, id: u128)
    requires
        ids.no_duplicates(),
        ids.contains(id),
    ensures
        0 <= spec_index_of(ids, id) < ids.len(),
        ids[spec_index_of(ids, id)] == id,
        forall|j: int| 0 <= j < ids.len() && ids[j] == id ==> j == spec_index_of(ids, id),
{
    let i = spec_index_of(ids, id);
    assert(0 <= i < ids.len() && ids[i] == id);
}

/// A block store held entirely in memory: a finite map from block ids to
/// block contents. It stands in for the lower, externally provided store the
/// node layer is built on.
pub struct InMemoryBlockStore {
    ids: Vec<u128>,
    blocks: Vec<Vec<u8>>,
}

impl View for InMemoryBlockStore {
    type V = Map<u128, Seq<u8>>;

    /// The stored blocks, as a map from id to contents.
    closed spec fn view(&self) -> Map<u128, Seq<u8>> {
        Map::new(
            |id: u128| self.ids@.contains(id),
            |id: u128| self.blocks@[spec_index_of(self.ids@, id)]@,
        )
    }
}

impl InMemoryBlockStore {
    /// Every block has one entry: ids are distinct and each has contents.
    pub closed spec fn wf(&self) -> bool {
        &&& self.ids@.no_duplicates()
        &&& self.ids@.len() == self.blocks@.len()
    }

    /// An empty store.
    pub fn new() -> (r: InMemoryBlockStore)
        ensures
            r.wf(),
            r@ == Map::<u128, Seq<u8>>::empty(),
    {
        let r = InMemoryBlockStore { ids: Vec::new(), blocks: Vec::new() };
        proof {
            assert(r@ =~= Map::<u128, Seq<u8>>::empty());
        }
        r
    }

    /// The position of `id` in the store's entry list.
    fn find_index(&self, id: u128) -> (r: Option<usize>)
        requires
            self.wf(),
        ensures
            r is Some <==> self@.dom().contains(id),
            r matches Some(i) ==> i < self.ids@.len() && self.ids@[i as int] == id && i
                == spec_index_of(self.ids@, id),
    {
        let n = self.ids.len();
        let mut i: usize = 0;
        while i < n
            invariant
                self.wf(),
                0 <= i <= n,
                n == self.ids@.len(),
                forall|k: int| 0 <= k < i ==> self.ids@[k] != id,
            decreases n - i,
        {
            if self.ids[i] == id {
                proof {
                    lemma_index_of(self.ids@, id);
                }
                return Some(i);
            }
            i = i + 1;
        }
        proof {
            assert(!self.ids@.contains(id));
        }
        None
    }

    /// Whether the store holds a block under `id`.
    pub fn exists_block(&self, id: &BlockId) -> (r: bool)
        requires
            self.wf(),
        ensures
            r <==> self@.dom().contains(id.value),
    {
        self.find_index(id.value).is_some()
    }

    /// The contents stored under `id`, if the store holds the block.
    pub fn load(&self, id: &BlockId) -> (r: Option<Vec<u8>>)
        requires
            self.wf(),
        ensures
            r is Some <==> self@.dom().contains(id.value),
            r matches Some(d) ==> d@ == self@[id.value],
    {
        match self.find_index(id.value) {
            Some(i) => Some(vstd::slice::slice_to_vec(self.blocks[i].as_slice())),
            None => None,
        }
    }

    /// Stores `data` under `id`, overwriting any block already there.
    pub fn store(&mut self, id: &BlockId, data: Vec<u8>)
        requires
            old(self).wf(),
        ensures
            final(self).wf(),
            final(self)@ == old(self)@.insert(id.value, data@),
    {
        match self.find_index(id.value) {
            Some(i) => {
                self.blocks[i] = data;
                proof {
                    lemma_index_of(self.ids@, id.value);
                    assert forall|k: u128| #[trigger] self@.dom().contains(k) implies self@[k]
                        == old(self)@.insert(id.value, data@)[k] by {
                        lemma_index_of(self.ids@, k);
                    }
                    assert(self@ =~= old(self)@.insert(id.value, data@));
                }
            },
            None => {
                self.ids.push(id.value);
                self.blocks.push(data);
                proof {
                    broadcast use vstd::seq_lib::group_seq_properties;

                    assert(self.ids@.drop_last() == old(self).ids@);
                    assert(self.ids@.no_duplicates());
                    assert forall|k: u128| #[trigger] self@.dom().contains(k) implies self@[k]
                        == old(self)@.insert(id.value, data@)[k] by {
                        lemma_index_of(self.ids@, k);
                        if k != id.value {
                            assert(old(self).ids@.contains(k));
                            lemma_index_of(old(self).ids@, k);
                        }
                    }
                    assert forall|k: u128| old(self)@.insert(id.value, data@).dom().contains(
                        k,
                    ) implies self@.dom().contains(k) by {
                        if k != id.value {
                            let j = spec_index_of(old(self).ids@, k);
                            assert(self.ids@[j] == k);
                        }
                        assert(self.ids@[self.ids@.len() - 1] == id.value);
                    }
                    assert(self@ =~= old(self)@.insert(id.value, data@));
                }
            },
        }
    }

    /// Stores `data` under the caller-chosen `id`; refuses an id already in
    /// use.
    pub fn try_create(&mut self, id: &BlockId, data: Vec<u8>) -> (r: bool)
        requires
            old(self).wf(),
        ensures
            final(self).wf(),
            r <==> !old(self)@.dom().contains(id.value),
            r ==> final(self)@ == old(self)@.insert(id.value, data@),
            !r ==> final(self)@ == old(self)@,
    {
        if self.exists_block(id) {
            false
        } else {
            self.store(id, data);
            true
        }
    }

    /// Stores `data` under a fresh id and returns that id.
    pub fn create(&mut self, data: Vec<u8>) -> (r: BlockId)
        requires
            old(self).wf(),
        ensures
            final(self).wf(),
            !old(self)@.dom().contains(r.value),
            final(self)@ == old(self)@.insert(r.value, data@),
    {
        let id = BlockId { value: self.fresh_id() };
        self.store(&id, data);
        id
    }

    /// An id the store does not hold yet: among the first `n + 1` ids, where
    /// `n` blocks are stored, one must be free.
    fn fresh_id(&self) -> (r: u128)
        requires
            self.wf(),
        ensures
            !self@.dom().contains(r),
    {
        let n = self.ids.len();
        let bound = n as u128;
        let mut c: u128 = 0;
        while c <= bound
            invariant
                self.wf(),
                n == self.ids@.len(),
                bound == n as u128,
                0 <= c <= bound + 1,
                forall|x: u128| x < c ==> self.ids@.contains(x),
            decreases bound + 1 - c,
        {
            if self.find_index(c).is_none() {
                return c;
            }
            c = c + 1;
        }
        proof {
            let below = Set::new(|x: u128| x < c);
            lemma_u128_below_len(c);
            vstd::seq_lib::seq_to_set_is_finite::<u128>(self.ids@);
            assert(below.subset_of(self.ids@.to_set())) by {
                assert forall|x: u128| below.contains(x) implies self.ids@.to_set().contains(
                    x,
                ) by {
                    assert(self.ids@.contains(x));
                }
            }
            vstd::set_lib::lemma_len_subset(below, self.ids@.to_set());
            self.ids@.lemma_cardinality_of_set();
            assert(false);
        }
        0
    }

    /// Removes the block under `id`, saying whether the store held one.
    pub fn remove(&mut self, id: &BlockId) -> (r: RemoveResult)
        requires
            old(self).wf(),
        ensures
            final(self).wf(),
            final(self)@ == old(self)@.remove(id.value),
            r == RemoveResult::SuccessfullyRemoved <==> old(self)@.dom().contains(id.value),
    {
        match self.find_index(id.value) {
            Some(i) => {
                self.ids.swap_remove(i);
                self.blocks.swap_remove(i);
                proof {
                    broadcast use vstd::seq_lib::group_seq_properties;

                    let pre = old(self).ids@;
                    assert(self.ids@ == pre.update(i as int, pre.last()).drop_last());
                    assert forall|j: int, k: int|
                        0 <= j < k < self.ids@.len() implies self.ids@[j] != self.ids@[k] by {
                        assert(pre.update(i as int, pre.last())[j] == self.ids@[j]);
                    }
                    assert(self.ids@.no_duplicates());
                    assert forall|k: u128| #[trigger] self@.dom().contains(k) implies old(
                        self,
                    )@.remove(id.value).dom().contains(k) && self@[k] == old(self)@.remove(
                        id.value,
                    )[k] by {
                        lemma_index_of(self.ids@, k);
                        let j = spec_index_of(self.ids@, k);
                        if j == i {
                            assert(pre.last() == k);
                            assert(pre[pre.len() - 1] == k);
                        } else {
                            assert(pre.update(i as int, pre.last())[j] == pre[j]);
                            assert(pre[j] == k);
                        }
                        assert(old(self).ids@.contains(k));
                        lemma_index_of(old(self).ids@, k);
                        assert(k != id.value);
                    }
                    assert forall|k: u128| old(self)@.remove(id.value).dom().contains(
                        k,
                    ) implies self@.dom().contains(k) by {
                        let j = spec_index_of(pre, k);
                        lemma_index_of(pre, k);
                        if j < i {
                            assert(self.ids@[j] == k);
                        } else if j == pre.len() - 1 {
                            assert(j != i);
                            assert(self.ids@[i as int] == k);
                        } else {
                            assert(self.ids@[j] == k);
                        }
                    }
                    assert(self@ =~= old(self)@.remove(id.value));
                }
                RemoveResult::SuccessfullyRemoved
            },
            None => {
                proof {
                    assert(self@ =~= old(self)@.remove(id.value));
                }
                RemoveResult::NotRemovedBecauseItDoesntExist
            },
        }
    }

    /// How many blocks the store holds.
    pub fn num_blocks(&self) -> (r: u64)
        requires
            self.wf(),
        ensures
            r == self@.dom().len(),
    {
        proof {
            self.ids@.unique_seq_to_set();
            assert(self@.dom() =~= self.ids@.to_set());
        }
        self.ids.len() as u64
    }

    /// The store keeps blocks in memory and tracks no capacity bound.
    pub fn estimate_num_free_bytes(&self) -> (r: u64)
        ensures
            r == u64::MAX,
    {
        u64::MAX
    }

    /// How many bytes of a physical block are usable. The in-memory store
    /// adds no bookkeeping overhead of its own, so all of them are.
    pub fn block_size_from_physical_block_size(&self, physical: u32) -> (r: u32)
        ensures
            r == physical,
    {
        physical
    }

    /// The ids of all stored blocks, each exactly once.
    pub fn all_block_ids(&self) -> (r: Vec<BlockId>)
        requires
            self.wf(),
        ensures
            r@.len() == self@.dom().len(),
            forall|k: int| 0 <= k < r@.len() ==> self@.dom().contains(#[trigger] r@[k].value),
            forall|id: u128| #[trigger] self@.dom().contains(id) ==> exists|k: int|
                0 <= k < r@.len() && r@[k].value == id,
            forall|j: int, k: int| 0 <= j < k < r@.len() ==> r@[j].value != r@[k].value,
    {
        proof {
            self.ids@.unique_seq_to_set();
            assert(self@.dom() =~= self.ids@.to_set());
        }
        let n = self.ids.len();
        let mut r: Vec<BlockId> = Vec::new();
        let mut i: usize = 0;
        while i < n
            invariant
                self.wf(),
                0 <= i <= n,
                n == self.ids@.len(),
                r@.len() == i,
                forall|k: int| 0 <= k < i ==> r@[k].value == self.ids@[k],
            decreases n - i,
        {
            r.push(BlockId { value: self.ids[i] });
            i = i + 1;
        }
        proof {
            assert forall|k: int| 0 <= k < r@.len() implies self@.dom().contains(
                #[trigger] r@[k].value,
            ) by {
                assert(self.ids@.contains(self.ids@[k]));
            }
            assert forall|j: int, k: int| 0 <= j < k < r@.len() implies r@[j].value
                != r@[k].value by {
                assert(self.ids@[j] != self.ids@[k]);
            }
            assert forall|id: u128| #[trigger] self@.dom().contains(id) implies exists|k: int|
                0 <= k < r@.len() && r@[k].value == id by {
                let j = spec_index_of(self.ids@, id);
                lemma_index_of(self.ids@, id);
                assert(r@[j].value == id);
            }
        }
        r
    }
}

/// There are exactly `n` ids below `n`.
pub proof fn lemma_u128_below_len(n: u128)
    ensures
        Set::new(|x: u128| x < n).finite(),
        Set::new(|x: u128| x < n).len() == n,
    decreases n,
{
    if n == 0 {
        assert(Set::new(|x: u128| x < 0) =~= Set::<u128>::empty());
    } else {
        lemma_u128_below_len((n - 1) as u128);
        assert(Set::new(|x: u128| x < n) =~= Set::new(|x: u128| x < (n - 1) as u128).insert(
            (n - 1) as u128,
        ));
    }
}

/// The store holds finitely many blocks, no more than an in-memory list can.
pub proof fn lemma_store_dom_bounded(s: &InMemoryBlockStore)
    requires
        s.wf(),
    ensures
        s@.dom().finite(),
        s@.dom().len() <= usize::MAX,
{
    s.ids@.unique_seq_to_set();
    vstd::std_specs::vec::axiom_spec_len(&s.ids);
    assert(s@.dom() =~= s.ids@.to_set());
}

} // verus!
