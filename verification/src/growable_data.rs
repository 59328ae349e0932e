use vstd::prelude::*;

verus! {

/// A byte buffer that remembers how many bytes of the enclosing allocation are
/// reserved before and after the visible region. Shrinking the visible region
/// enlarges the reserves; growing it consumes them, so a header can later be
/// prepended without reallocating.
///
/// Invariant: the underlying allocation always holds exactly
/// `prefix + len + suffix` bytes.
pub struct GrowableData {
    storage: Vec<u8>,
    prefix: usize,
    suffix: usize,
}

impl View for GrowableData {
    type V = Seq<u8>;

    /// The visible region of the buffer.
    closed spec fn view(&self) -> Seq<u8> {
        self.storage@.subrange(self.prefix as int, self.storage@.len() - self.suffix)
    }
}

impl GrowableData {
    /// The buffer is well formed: the reserves fit in the allocation.
    pub closed spec fn wf(&self) -> bool {
        self.prefix + self.suffix <= self.storage@.len()
    }

    pub closed spec fn spec_prefix(&self) -> nat {
        self.prefix as nat
    }

    pub closed spec fn spec_suffix(&self) -> nat {
        self.suffix as nat
    }

    /// The enclosing allocation: reserves and visible region together.
    pub closed spec fn spec_storage(&self) -> Seq<u8> {
        self.storage@
    }

    /// Wraps a raw byte vector with zero reserve on both sides.
    pub fn from_raw(data: Vec<u8>) -> (r: GrowableData)
        ensures
            r.wf(),
            r@ == data@,
            r.spec_storage() == data@,
            r.spec_prefix() == 0,
            r.spec_suffix() == 0,
    {
        let r = GrowableData { storage: data, prefix: 0, suffix: 0 };
        proof {
            assert(r@ =~= r.storage@);
        }
        r
    }

    pub fn available_prefix_bytes(&self) -> (r: usize)
        ensures
            r == self.spec_prefix(),
    {
        self.prefix
    }

    pub fn available_suffix_bytes(&self) -> (r: usize)
        ensures
            r == self.spec_suffix(),
    {
        self.suffix
    }

    pub fn len(&self) -> (r: usize)
        requires
            self.wf(),
        ensures
            r == self@.len(),
    {
        self.storage.len() - self.prefix - self.suffix
    }

    /// Shrinks the visible region by `delete_at_beginning + delete_at_end`
    /// bytes, moving them into the prefix and suffix reserves.
    pub fn into_subregion(self, delete_at_beginning: usize, delete_at_end: usize) -> (r:
        GrowableData)
        requires
            self.wf(),
            delete_at_beginning + delete_at_end <= self@.len(),
        ensures
            r.wf(),
            r.spec_storage() == self.spec_storage(),
            r.spec_prefix() == self.spec_prefix() + delete_at_beginning,
            r.spec_suffix() == self.spec_suffix() + delete_at_end,
            r@ == self@.subrange(
                delete_at_beginning as int,
                self@.len() - delete_at_end,
            ),
    {
        let n = self.storage.len();
        proof {
            assert(self@.len() == n - self.prefix - self.suffix);
        }
        let r = GrowableData {
            prefix: self.prefix + delete_at_beginning,
            suffix: self.suffix + delete_at_end,
            storage: self.storage,
        };
        proof {
            assert(r@ =~= self@.subrange(
                delete_at_beginning as int,
                self@.len() - delete_at_end,
            ));
        }
        r
    }

    /// Re-expands the visible region into the reserves; never reallocates.
    /// The newly revealed bytes hold whatever the enclosing allocation held
    /// there.
    pub fn grow_region(self, add_at_beginning: usize, add_at_end: usize) -> (r: GrowableData)
        requires
            self.wf(),
            add_at_beginning <= self.spec_prefix(),
            add_at_end <= self.spec_suffix(),
        ensures
            r.wf(),
            r.spec_storage() == self.spec_storage(),
            r.spec_prefix() == self.spec_prefix() - add_at_beginning,
            r.spec_suffix() == self.spec_suffix() - add_at_end,
            r@.len() == add_at_beginning + self@.len() + add_at_end,
            r@.subrange(add_at_beginning as int, add_at_beginning + self@.len()) == self@,
    {
        let r = GrowableData {
            prefix: self.prefix - add_at_beginning,
            suffix: self.suffix - add_at_end,
            storage: self.storage,
        };
        proof {
            assert(r@.subrange(add_at_beginning as int, add_at_beginning + self@.len()) =~= self@);
        }
        r
    }

    /// Gives up the reserves and returns the visible region.
    pub fn extract(self) -> (r: Vec<u8>)
        requires
            self.wf(),
        ensures
            r@ == self@,
    {
        let end = self.storage.len() - self.suffix;
        let visible = vstd::slice::slice_subrange(self.storage.as_slice(), self.prefix, end);
        vstd::slice::slice_to_vec(visible)
    }

    /// A copy of the visible region.
    pub fn to_vec(&self) -> (r: Vec<u8>)
        requires
            self.wf(),
        ensures
            r@ == self@,
    {
        let end = self.storage.len() - self.suffix;
        let visible = vstd::slice::slice_subrange(self.storage.as_slice(), self.prefix, end);
        vstd::slice::slice_to_vec(visible)
    }

    /// The byte at position `i` of the visible region.
    pub fn get(&self, i: usize) -> (r: u8)
        requires
            self.wf(),
            i < self@.len(),
        ensures
            r == self@[i as int],
    {
        let n = self.storage.len();
        proof {
            assert(self@.len() == n - self.prefix - self.suffix);
        }
        self.storage[self.prefix + i]
    }

    /// Overwrites the byte at position `i` of the visible region.
    pub fn set(&mut self, i: usize, value: u8)
        requires
            old(self).wf(),
            i < old(self)@.len(),
        ensures
            final(self).wf(),
            final(self)@ == old(self)@.update(i as int, value),
            final(self).spec_storage() == old(self).spec_storage().update(
                old(self).spec_prefix() + i,
                value,
            ),
            final(self).spec_prefix() == old(self).spec_prefix(),
            final(self).spec_suffix() == old(self).spec_suffix(),
    {
        let n = self.storage.len();
        proof {
            assert(self@.len() == n - self.prefix - self.suffix);
        }
        let idx = self.prefix + i;
        self.storage[idx] = value;
        proof {
            assert(self@ =~= old(self)@.update(i as int, value));
        }
    }
}

impl GrowableData {
    /// The visible region is a window into the allocation: the bytes between
    /// the prefix and suffix reserves. Shrinking and growing only move the
    /// window; the allocation itself is never touched.
    pub proof fn lemma_view_is_storage_window(&self)
        requires
            self.wf(),
        ensures
            self.spec_storage().len() == self.spec_prefix() + self@.len() + self.spec_suffix(),
            self@ == self.spec_storage().subrange(
                self.spec_prefix() as int,
                self.spec_storage().len() - self.spec_suffix(),
            ),
    {
    }
}

/// Growing a buffer back by exactly what an earlier shrink set aside restores
/// the original view: the same reserves and, byte for byte, the same visible
/// contents, because both steps leave the allocation untouched.
pub proof fn lemma_shrink_grow_round_trip(
    d: GrowableData,
    d2: GrowableData,
    d3: GrowableData,
    front: nat,
    back: nat,
)
    requires
        d.wf(),
        d2.wf(),
        d3.wf(),
        d2.spec_storage() == d.spec_storage(),
        d2.spec_prefix() == d.spec_prefix() + front,
        d2.spec_suffix() == d.spec_suffix() + back,
        d3.spec_storage() == d2.spec_storage(),
        d3.spec_prefix() == d2.spec_prefix() - front,
        d3.spec_suffix() == d2.spec_suffix() - back,
    ensures
        d3.spec_prefix() == d.spec_prefix(),
        d3.spec_suffix() == d.spec_suffix(),
        d3@ == d@,
{
    d.lemma_view_is_storage_window();
    d3.lemma_view_is_storage_window();
    assert(d3@ =~= d@);
}

} // verus!
