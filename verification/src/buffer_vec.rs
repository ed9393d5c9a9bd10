//! An append-only container of byte buffers kept in one contiguous allocation.

use vstd::prelude::*;

verus! {

/// A vector-like container of byte buffers. All buffers share one backing
/// `Vec<u8>`; `offsets[i]` is where buffer `i` starts.
#[derive(Debug)]
pub struct BufferVec {
    data: Vec<u8>,
    offsets: Vec<usize>,
}

/// End of buffer `i` inside the backing bytes.
pub open spec fn buffer_end(offsets: Seq<usize>, total: int, i: int) -> int {
    if i + 1 < offsets.len() {
        offsets[i + 1] as int
    } else {
        total
    }
}

/// The offsets start at zero, never decrease and stay inside the bytes, and
/// without a buffer there are no bytes.
pub open spec fn offsets_ordered(offsets: Seq<usize>, total: int) -> bool {
    &&& offsets.len() > 0 ==> offsets[0] == 0
    &&& offsets.len() == 0 ==> total == 0
    &&& forall|i: int| 0 <= i < offsets.len() ==> #[trigger] offsets[i] as int <= total
    &&& forall|i: int, j: int| 0 <= i <= j < offsets.len() ==> offsets[i] <= offsets[j]
}

impl View for BufferVec {
    type V = Seq<Seq<u8>>;

    closed spec fn view(&self) -> Seq<Seq<u8>> {
        Seq::new(
            self.offsets@.len(),
            |i: int|
                self.data@.subrange(
                    self.offsets@[i] as int,
                    buffer_end(self.offsets@, self.data@.len() as int, i),
                ),
        )
    }
}

impl BufferVec {
    #[verifier::type_invariant]
    spec fn well_formed(self) -> bool {
        offsets_ordered(self.offsets@, self.data@.len() as int)
    }

    /// An empty container: no buffers and no bytes.
    pub fn new() -> (r: Self)
        ensures
            r@ == Seq::<Seq<u8>>::empty(),
            r.spec_total_len() == 0,
    {
        let r = BufferVec { data: Vec::new(), offsets: Vec::new() };
        assert(r@ =~= Seq::<Seq<u8>>::empty());
        r
    }

    /// Number of buffers held.
    pub fn len(&self) -> (n: usize)
        ensures
            n == self@.len(),
    {
        self.offsets.len()
    }

    /// Whether no buffer is held.
    pub fn is_empty(&self) -> (b: bool)
        ensures
            b == (self@.len() == 0),
    {
        self.offsets.len() == 0
    }

    /// Total number of bytes over all buffers.
    pub fn total_len(&self) -> (n: usize)
        ensures
            n == self.spec_total_len(),
    {
        self.data.len()
    }

    /// Total number of bytes over all buffers.
    pub closed spec fn spec_total_len(&self) -> nat {
        self.data@.len()
    }

    /// Appends one buffer holding a copy of `buffer`.
    pub fn push(&mut self, buffer: &[u8])
        ensures
            final(self)@ == old(self)@.push(buffer@),
            final(self).spec_total_len() == old(self).spec_total_len() + buffer@.len(),
    {
        proof {
            use_type_invariant(&*self);
        }
        let ghost before = *self;
        let mut taken = BufferVec::new();
        std::mem::swap(self, &mut taken);
        let BufferVec { mut data, mut offsets } = taken;
        let start: usize = data.len();
        data.extend_from_slice(buffer);
        offsets.push(start);
        proof {
            assert(data@ =~= before.data@ + buffer@);
            assert(offsets@ =~= before.offsets@.push(start));
            assert forall|i: int, j: int| 0 <= i <= j < offsets@.len() implies offsets@[i]
                <= offsets@[j] by {
                if j < before.offsets@.len() {
                } else if i < before.offsets@.len() {
                    assert(before.offsets@[i] as int <= before.data@.len());
                }
            }
            assert forall|i: int| 0 <= i < offsets@.len() implies #[trigger] offsets@[i] as int
                <= data@.len() by {
                if i < before.offsets@.len() {
                    assert(before.offsets@[i] as int <= before.data@.len());
                }
            }
        }
        *self = BufferVec { data, offsets };
        assert(self@ =~= before@.push(buffer@)) by {
            assert forall|i: int| 0 <= i < self@.len() implies self@[i] =~= before@.push(
                buffer@,
            )[i] by {
                if i < before@.len() {
                    assert(before.offsets@[i] <= before.data@.len());
                    assert(buffer_end(before.offsets@, before.data@.len() as int, i)
                        <= before.data@.len());
                }
            }
        }
    }

    /// Borrows buffer `index`.
    pub fn get(&self, index: usize) -> (r: &[u8])
        requires
            index < self@.len(),
        ensures
            r@ == self@[index as int],
    {
        proof {
            use_type_invariant(self);
        }
        let count: usize = self.offsets.len();
        let start: usize = self.offsets[index];
        let end: usize = if index + 1 < count {
            self.offsets[index + 1]
        } else {
            self.data.len()
        };
        let r = vstd::slice::slice_subrange(self.data.as_slice(), start, end);
        r
    }
}

impl Clone for BufferVec {
    fn clone(&self) -> (r: Self)
        ensures
            r@ == self@,
    {
        proof {
            use_type_invariant(self);
        }
        let r = BufferVec { data: self.data.clone(), offsets: self.offsets.clone() };
        assert(r.data@ =~= self.data@);
        assert(r.offsets@ =~= self.offsets@);
        r
    }
}

} // verus!
