//! A growable buffer with the conventional amortized-growth policy, and a
//! writer/reader pair that shares one buffer through an `Arcu` cell.
//!
//! `SRawVec` models one allocation: a capacity, the committed prefix, and
//! the allocator handle it came from. All capacity arithmetic — doubling,
//! minimum block sizes, overflow checks against the largest byte size an
//! allocation may have — is the conventional dynamic-array discipline.

use crate::arc_log::{lemma_mask_bounds, spec_grown_cap, MAX_REF_COUNT};
use crate::arcu::{cell_valid, Arcu, ArcuHeap, ArcuModel};
use vstd::prelude::*;

verus! {

/// Largest byte size an allocation may have.
pub const MAX_ALLOC_BYTES: usize = !0usize >> 1;

/// How reserving more space can fail. The allocator collaborator itself has
/// no failure surface here, so every failure is a capacity overflow.
#[derive(Clone, Copy, PartialEq, Eq, Structural, Debug)]
pub enum TryReserveError {
    CapacityOverflow,
}

/// The allocator handle a buffer was made in: the abstract global allocator.
#[derive(Clone, Copy, Debug)]
pub struct SAlloc;

/// One allocation: `cap` slots, the first `len` committed. A zero-sized
/// element type never allocates and reports unbounded capacity.
pub struct SRawVec<T> {
    data: Vec<T>,
    cap: usize,
    alloc: SAlloc,
}

impl<T> View for SRawVec<T> {
    type V = Seq<T>;

    closed spec fn view(&self) -> Seq<T> {
        self.data@
    }
}

impl<T> SRawVec<T> {
    /// The buffer's bookkeeping is consistent: the committed prefix fits the
    /// capacity and the allocation's byte size is representable.
    pub closed spec fn wf(self) -> bool {
        if vstd::layout::size_of::<T>() == 0 {
            self.cap == 0
        } else {
            &&& self@.len() <= self.cap
            &&& self.cap * vstd::layout::size_of::<T>() <= MAX_ALLOC_BYTES as nat
        }
    }

    /// The capacity the buffer reports.
    pub closed spec fn spec_capacity(self) -> nat {
        if vstd::layout::size_of::<T>() == 0 {
            usize::MAX as nat
        } else {
            self.cap as nat
        }
    }

    /// An empty buffer of capacity zero; nothing is allocated.
    pub fn new() -> (r: SRawVec<T>)
        ensures
            r.wf(),
            r@ =~= Seq::<T>::empty(),
            r.spec_capacity() == (if vstd::layout::size_of::<T>() == 0 {
                usize::MAX as nat
            } else {
                0nat
            }),
    {
        SRawVec::new_in(SAlloc)
    }

    /// A buffer with exactly the requested capacity.
    pub fn with_capacity(capacity: usize) -> (r: SRawVec<T>)
        requires
            capacity * vstd::layout::size_of::<T>() <= MAX_ALLOC_BYTES,
        ensures
            r.wf(),
            r@ =~= Seq::<T>::empty(),
            r.spec_capacity() == (if vstd::layout::size_of::<T>() == 0 {
                usize::MAX as nat
            } else {
                capacity as nat
            }),
    {
        SRawVec::with_capacity_in(capacity, SAlloc)
    }

    /// Like `new`, naming the allocator.
    pub fn new_in(alloc: SAlloc) -> (r: SRawVec<T>)
        ensures
            r.wf(),
            r@ =~= Seq::<T>::empty(),
            r.spec_capacity() == (if vstd::layout::size_of::<T>() == 0 {
                usize::MAX as nat
            } else {
                0nat
            }),
    {
        proof {
            assert(0 * vstd::layout::size_of::<T>() == 0);
        }
        SRawVec { data: Vec::new(), cap: 0, alloc }
    }

    /// Like `with_capacity`, naming the allocator.
    pub fn with_capacity_in(capacity: usize, alloc: SAlloc) -> (r: SRawVec<T>)
        requires
            capacity * vstd::layout::size_of::<T>() <= MAX_ALLOC_BYTES,
        ensures
            r.wf(),
            r@ =~= Seq::<T>::empty(),
            r.spec_capacity() == (if vstd::layout::size_of::<T>() == 0 {
                usize::MAX as nat
            } else {
                capacity as nat
            }),
    {
        SRawVec::allocate_in(capacity, alloc)
    }

    /// Allocate a block of the requested capacity; zero-sized element types
    /// are never allocated for.
    fn allocate_in(capacity: usize, alloc: SAlloc) -> (r: SRawVec<T>)
        requires
            capacity * vstd::layout::size_of::<T>() <= MAX_ALLOC_BYTES,
        ensures
            r.wf(),
            r@ =~= Seq::<T>::empty(),
            r.spec_capacity() == (if vstd::layout::size_of::<T>() == 0 {
                usize::MAX as nat
            } else {
                capacity as nat
            }),
    {
        if core::mem::size_of::<T>() == 0 {
            SRawVec::new_in(alloc)
        } else {
            SRawVec { data: Vec::new(), cap: capacity, alloc }
        }
    }

    /// The committed length.
    pub fn len(&self) -> (n: usize)
        ensures
            n == self@.len(),
    {
        self.data.len()
    }

    /// The capacity: unbounded for zero-sized element types.
    pub fn capacity(&self) -> (n: usize)
        requires
            self.wf(),
        ensures
            n == self.spec_capacity(),
    {
        if core::mem::size_of::<T>() == 0 {
            usize::MAX
        } else {
            self.cap
        }
    }

    /// The allocator backing this buffer.
    pub fn allocator(&self) -> &SAlloc {
        &self.alloc
    }

    /// The allocator backing this buffer, mutably.
    pub fn allocator_mut(&mut self) -> &mut SAlloc {
        &mut self.alloc
    }

    /// Does the buffer need to grow to take `additional` more elements?
    pub fn needs_to_grow(&self, additional: usize) -> (r: bool)
        requires
            self.wf(),
        ensures
            r == (additional > self.spec_capacity() - self@.len()),
    {
        proof {
            if vstd::layout::size_of::<T>() != 0 {
                assert(self@.len() <= self.cap);
            } else {
                vstd::std_specs::vec::axiom_spec_len(&self.data);
            }
        }
        additional > self.capacity() - self.data.len()
    }

    /// How many elements fit in a block of `excess` bytes.
    pub fn capacity_from_bytes(excess: usize) -> (r: usize)
        requires
            vstd::layout::size_of::<T>() != 0,
        ensures
            r == excess as int / vstd::layout::size_of::<T>() as int,
    {
        excess / core::mem::size_of::<T>()
    }

    /// Grow to hold at least `len + additional` elements, with exponential
    /// growth: the new capacity is the doubled old one, or the required
    /// count, or the smallest block worth allocating, whichever is largest.
    /// Fails exactly when the element type is zero-sized (such a buffer can
    /// only be over-full), the required count overflows, or the grown
    /// block's byte size is unrepresentable.
    pub fn grow_amortized(&mut self, len: usize, additional: usize) -> (r: Result<
        (),
        TryReserveError,
    >)
        requires
            old(self).wf(),
            len == old(self)@.len(),
            additional > 0,
        ensures
            final(self).wf(),
            final(self)@ == old(self)@,
            ({
                let e = vstd::layout::size_of::<T>();
                let need = len + additional;
                if e == 0 {
                    r == Err::<(), TryReserveError>(TryReserveError::CapacityOverflow) && final(self).spec_capacity() == old(self).spec_capacity()
                } else if need > usize::MAX || spec_grown_cap::<T>(old(self).spec_capacity(), need as nat)
                    * e > MAX_ALLOC_BYTES {
                    r == Err::<(), TryReserveError>(TryReserveError::CapacityOverflow) && final(self).spec_capacity() == old(self).spec_capacity()
                } else {
                    r == Ok::<(), TryReserveError>(()) && final(self).spec_capacity()
                        == spec_grown_cap::<T>(old(self).spec_capacity(), need as nat)
                }
            }),
    {
        let elem_size = core::mem::size_of::<T>();
        if elem_size == 0 {
            // unbounded capacity: reaching here means the buffer is over-full
            return Err(TryReserveError::CapacityOverflow);
        }
        if additional > usize::MAX - len {
            return Err(TryReserveError::CapacityOverflow);
        }
        let required_cap = len + additional;
        proof {
            lemma_mask_bounds();
            assert(2 * (!0usize >> 1) <= !0usize) by (bit_vector);
            assert(self.cap * elem_size <= MAX_ALLOC_BYTES);
            assert(self.cap <= MAX_ALLOC_BYTES) by (nonlinear_arith)
                requires
                    self.cap * elem_size <= MAX_ALLOC_BYTES && elem_size >= 1,
            ;
        }
        let cap_doubled = if self.cap * 2 >= required_cap {
            self.cap * 2
        } else {
            required_cap
        };
        let min_non_zero_cap: usize = if elem_size == 1 {
            8
        } else if elem_size <= 1024 {
            4
        } else {
            1
        };
        let cap = if min_non_zero_cap >= cap_doubled {
            min_non_zero_cap
        } else {
            cap_doubled
        };
        proof {
            assert(cap as nat == spec_grown_cap::<T>(old(self).spec_capacity(), (len
                + additional) as nat));
        }
        // the grown block's byte size must be representable
        if cap > MAX_ALLOC_BYTES / elem_size {
            proof {
                assert(cap * elem_size > MAX_ALLOC_BYTES) by (nonlinear_arith)
                    requires
                        cap > MAX_ALLOC_BYTES / elem_size && elem_size >= 1 && MAX_ALLOC_BYTES
                            / elem_size == MAX_ALLOC_BYTES as int / elem_size as int,
                ;
            }
            return Err(TryReserveError::CapacityOverflow);
        }
        proof {
            assert(cap * elem_size <= MAX_ALLOC_BYTES) by (nonlinear_arith)
                requires
                    cap <= MAX_ALLOC_BYTES / elem_size && elem_size >= 1 && MAX_ALLOC_BYTES
                        / elem_size == MAX_ALLOC_BYTES as int / elem_size as int,
            ;
        }
        match alloc_guard(cap * elem_size) {
            Ok(_) => {},
            Err(e) => {
                return Err(e);
            },
        }
        self.cap = cap;
        Ok(())
    }

    /// Grow to hold exactly `len + additional` elements. Fails exactly as
    /// `grow_amortized` does, with the exact rather than the doubled count.
    pub fn grow_exact(&mut self, len: usize, additional: usize) -> (r: Result<(), TryReserveError>)
        requires
            old(self).wf(),
            len == old(self)@.len(),
        ensures
            final(self).wf(),
            final(self)@ == old(self)@,
            ({
                let e = vstd::layout::size_of::<T>();
                let need = len + additional;
                if e == 0 {
                    r == Err::<(), TryReserveError>(TryReserveError::CapacityOverflow) && final(self).spec_capacity() == old(self).spec_capacity()
                } else if need > usize::MAX || need * e > MAX_ALLOC_BYTES {
                    r == Err::<(), TryReserveError>(TryReserveError::CapacityOverflow) && final(self).spec_capacity() == old(self).spec_capacity()
                } else {
                    r == Ok::<(), TryReserveError>(()) && final(self).spec_capacity() == need
                }
            }),
    {
        let elem_size = core::mem::size_of::<T>();
        if elem_size == 0 {
            return Err(TryReserveError::CapacityOverflow);
        }
        if additional > usize::MAX - len {
            return Err(TryReserveError::CapacityOverflow);
        }
        let cap = len + additional;
        if cap > MAX_ALLOC_BYTES / elem_size {
            proof {
                assert(cap * elem_size > MAX_ALLOC_BYTES) by (nonlinear_arith)
                    requires
                        cap > MAX_ALLOC_BYTES / elem_size && elem_size >= 1 && MAX_ALLOC_BYTES
                            / elem_size == MAX_ALLOC_BYTES as int / elem_size as int,
                ;
            }
            return Err(TryReserveError::CapacityOverflow);
        }
        proof {
            assert(cap * elem_size <= MAX_ALLOC_BYTES) by (nonlinear_arith)
                requires
                    cap <= MAX_ALLOC_BYTES / elem_size && elem_size >= 1 && MAX_ALLOC_BYTES
                        / elem_size == MAX_ALLOC_BYTES as int / elem_size as int,
            ;
        }
        match alloc_guard(cap * elem_size) {
            Ok(_) => {},
            Err(e) => {
                return Err(e);
            },
        }
        self.cap = cap;
        Ok(())
    }

    /// Ensure room for `additional` more elements beyond `len`, growing
    /// amortized if needed.
    pub fn try_reserve(&mut self, len: usize, additional: usize) -> (r: Result<
        (),
        TryReserveError,
    >)
        requires
            old(self).wf(),
            len == old(self)@.len(),
            additional > 0,
        ensures
            final(self).wf(),
            final(self)@ == old(self)@,
            ({
                let e = vstd::layout::size_of::<T>();
                let need = len + additional;
                if additional > old(self).spec_capacity() - len && (e == 0 || need > usize::MAX
                    || spec_grown_cap::<T>(old(self).spec_capacity(), need as nat) * e
                    > MAX_ALLOC_BYTES) {
                    r == Err::<(), TryReserveError>(TryReserveError::CapacityOverflow) && final(self).spec_capacity() == old(self).spec_capacity()
                } else {
                    r == Ok::<(), TryReserveError>(()) && final(self).spec_capacity() >= len
                        + additional
                }
            }),
    {
        if self.needs_to_grow(additional) {
            let r = self.grow_amortized(len, additional);
            proof {
                if r is Ok {
                    crate::arc_log::lemma_grown_cap_suffices::<T>(
                        old(self).spec_capacity(),
                        (len + additional) as nat,
                    );
                }
            }
            r
        } else {
            Ok(())
        }
    }

    /// Ensure room for exactly `additional` more elements beyond `len`.
    pub fn try_reserve_exact(&mut self, len: usize, additional: usize) -> (r: Result<
        (),
        TryReserveError,
    >)
        requires
            old(self).wf(),
            len == old(self)@.len(),
        ensures
            final(self).wf(),
            final(self)@ == old(self)@,
            ({
                let e = vstd::layout::size_of::<T>();
                let need = len + additional;
                if additional > old(self).spec_capacity() - len && (e == 0 || need > usize::MAX
                    || need * e > MAX_ALLOC_BYTES) {
                    r == Err::<(), TryReserveError>(TryReserveError::CapacityOverflow) && final(self).spec_capacity() == old(self).spec_capacity()
                } else {
                    r == Ok::<(), TryReserveError>(()) && final(self).spec_capacity() >= len
                        + additional
                }
            }),
    {
        if self.needs_to_grow(additional) {
            self.grow_exact(len, additional)
        } else {
            Ok(())
        }
    }

    /// Room for one more element; a capacity overflow here is a programmer
    /// error, so it is excluded up front rather than reported.
    pub fn reserve_one(&mut self) -> (r: Result<(), TryReserveError>)
        requires
            old(self).wf(),
            old(self)@.len() < usize::MAX,
            vstd::layout::size_of::<T>() != 0 ==> spec_grown_cap::<T>(
                old(self).spec_capacity(),
                old(self)@.len() + 1,
            ) * vstd::layout::size_of::<T>() <= MAX_ALLOC_BYTES,
        ensures
            final(self).wf(),
            final(self)@ == old(self)@,
            r == Ok::<(), TryReserveError>(()),
            final(self).spec_capacity() >= old(self)@.len() + 1,
    {
        let len = self.data.len();
        let r = self.try_reserve(len, 1);
        proof {
            if vstd::layout::size_of::<T>() == 0 {
                lemma_mask_bounds();
                assert(!(1 > old(self).spec_capacity() - old(self)@.len()));
            }
        }
        match r {
            Ok(_) => Ok(()),
            Err(_) => {
                proof {
                    assert(false);
                }
                vstd::pervasive::unreached()
            },
        }
    }

    /// Room for the given elements; a capacity overflow is a programmer
    /// error, so it is excluded up front rather than reported.
    pub fn reserve(&mut self, elems: &[T]) -> (r: Result<(), TryReserveError>)
        requires
            old(self).wf(),
            elems@.len() > 0,
            old(self)@.len() + elems@.len() <= usize::MAX,
            vstd::layout::size_of::<T>() != 0 ==> spec_grown_cap::<T>(
                old(self).spec_capacity(),
                old(self)@.len() + elems@.len(),
            ) * vstd::layout::size_of::<T>() <= MAX_ALLOC_BYTES,
        ensures
            final(self).wf(),
            final(self)@ == old(self)@,
            r == Ok::<(), TryReserveError>(()),
            final(self).spec_capacity() >= old(self)@.len() + elems@.len(),
    {
        let len = self.data.len();
        let r = self.try_reserve(len, elems.len());
        proof {
            if vstd::layout::size_of::<T>() == 0 {
                lemma_mask_bounds();
            }
        }
        match r {
            Ok(_) => Ok(()),
            Err(_) => {
                proof {
                    assert(false);
                }
                vstd::pervasive::unreached()
            },
        }
    }

    /// Room for exactly `additional` elements beyond `len`; overflow is a
    /// programmer error and excluded up front.
    pub fn reserve_exact(&mut self, len: usize, additional: usize)
        requires
            old(self).wf(),
            len == old(self)@.len(),
            len + additional <= usize::MAX,
            vstd::layout::size_of::<T>() != 0 ==> (len + additional) * vstd::layout::size_of::<T>()
                <= MAX_ALLOC_BYTES,
            vstd::layout::size_of::<T>() == 0 ==> additional == 0,
        ensures
            final(self).wf(),
            final(self)@ == old(self)@,
            final(self).spec_capacity() >= len + additional,
    {
        let r = self.try_reserve_exact(len, additional);
        proof {
            if vstd::layout::size_of::<T>() == 0 {
                lemma_mask_bounds();
            }
        }
        match r {
            Ok(_) => {},
            Err(_) => {
                proof {
                    assert(false);
                }
            },
        }
    }

    /// Shrink the allocation to exactly `amount` slots; shrinking to zero
    /// deallocates entirely. The committed prefix must fit what remains.
    pub fn shrink_to_fit(&mut self, amount: usize)
        requires
            old(self).wf(),
            old(self)@.len() <= amount,
            amount <= old(self).spec_capacity(),
        ensures
            final(self).wf(),
            final(self)@ == old(self)@,
            final(self).spec_capacity() == (if vstd::layout::size_of::<T>() == 0 {
                usize::MAX as nat
            } else {
                amount as nat
            }),
    {
        let r = self.shrink(amount);
        proof {
            assert(r is Ok);
        }
    }

    /// Hand the allocation's tail back to the allocator, keeping exactly
    /// `amount` slots; the allocator collaborator cannot fail here.
    fn shrink(&mut self, amount: usize) -> (r: Result<(), TryReserveError>)
        requires
            old(self).wf(),
            old(self)@.len() <= amount,
            amount <= old(self).spec_capacity(),
        ensures
            final(self).wf(),
            final(self)@ == old(self)@,
            r == Ok::<(), TryReserveError>(()),
            final(self).spec_capacity() == (if vstd::layout::size_of::<T>() == 0 {
                usize::MAX as nat
            } else {
                amount as nat
            }),
    {
        proof {
            if vstd::layout::size_of::<T>() != 0 {
                let c = old(self).cap;
                let e = vstd::layout::size_of::<T>();
                assert(amount * e <= MAX_ALLOC_BYTES) by (nonlinear_arith)
                    requires
                        amount <= c && c * e <= MAX_ALLOC_BYTES as nat && e >= 1,
                ;
            }
        }
        if core::mem::size_of::<T>() != 0 {
            self.cap = amount;
        }
        Ok(())
    }
}

/// Nothing larger than the largest representable allocation may be
/// requested; below that bound every request is in range on either word
/// width.
pub fn alloc_guard(alloc_size: usize) -> (r: Result<(), TryReserveError>)
    ensures
        r == (if alloc_size > MAX_ALLOC_BYTES && vstd::layout::size_of::<usize>() < 8 {
            Err::<(), TryReserveError>(TryReserveError::CapacityOverflow)
        } else {
            Ok::<(), TryReserveError>(())
        }),
{
    if core::mem::size_of::<usize>() < 8 && alloc_size > MAX_ALLOC_BYTES {
        Err(TryReserveError::CapacityOverflow)
    } else {
        Ok(())
    }
}

// ------------------------------------------------------------------
// Writer and reader over a shared buffer.
// ------------------------------------------------------------------

/// The writing end: the single mutator of a buffer shared through an `Arcu`
/// cell.
pub struct SVecWriter<T> {
    data: Arcu<SRawVec<T>>,
}

/// The reading end: sees the writer's pushes as soon as they are committed.
pub struct SVecReader<T> {
    data: Arcu<SRawVec<T>>,
}

impl<T> SVecWriter<T> {
    /// The cell generation this writer works on.
    pub closed spec fn id(self) -> int {
        self.data.id()
    }

    /// The writer references a live generation holding a well-formed buffer.
    pub open spec fn valid(self, h: ArcuModel<SRawVec<T>>) -> bool {
        &&& cell_valid(h, self.id())
        &&& h.gens[self.id()].val.unwrap().wf()
    }

    /// The elements committed so far.
    pub open spec fn contents(self, h: ArcuModel<SRawVec<T>>) -> Seq<T> {
        h.gens[self.id()].val.unwrap()@
    }

    /// A writer over a fresh, empty buffer.
    pub fn new(heap: &mut ArcuHeap<SRawVec<T>>) -> (w: SVecWriter<T>)
        requires
            old(heap).inv(),
        ensures
            final(heap).inv(),
            w.valid(final(heap)@),
            w.contents(final(heap)@) =~= Seq::<T>::empty(),
            final(heap)@.gens[w.id()].val.unwrap().spec_capacity() == (if vstd::layout::size_of::<
                T,
            >() == 0 {
                usize::MAX as nat
            } else {
                0nat
            }),
    {
        SVecWriter { data: Arcu::new(SRawVec::new(), heap) }
    }

    /// A writer over a fresh buffer with the requested capacity.
    pub fn with_capacity(size: usize, heap: &mut ArcuHeap<SRawVec<T>>) -> (w: SVecWriter<T>)
        requires
            old(heap).inv(),
            size * vstd::layout::size_of::<T>() <= MAX_ALLOC_BYTES,
        ensures
            final(heap).inv(),
            w.valid(final(heap)@),
            w.contents(final(heap)@) =~= Seq::<T>::empty(),
            final(heap)@.gens[w.id()].val.unwrap().spec_capacity() == (if vstd::layout::size_of::<
                T,
            >() == 0 {
                usize::MAX as nat
            } else {
                size as nat
            }),
    {
        SVecWriter { data: Arcu::new(SRawVec::with_capacity(size), heap) }
    }

    /// The number of elements committed so far.
    pub fn len(&self, heap: &ArcuHeap<SRawVec<T>>) -> (n: usize)
        requires
            heap.inv(),
            self.valid(heap@),
        ensures
            n == self.contents(heap@).len(),
    {
        self.data.read(heap).len()
    }

    /// A reader over the same buffer: it sees every committed element.
    pub fn new_reader(&self, heap: &mut ArcuHeap<SRawVec<T>>) -> (r: SVecReader<T>)
        requires
            old(heap).inv(),
            self.valid(old(heap)@),
            old(heap)@.gens[self.id()].count + 1 <= MAX_REF_COUNT,
        ensures
            final(heap).inv(),
            self.valid(final(heap)@),
            r.valid(final(heap)@),
            r.id() == self.id(),
            self.contents(final(heap)@) == self.contents(old(heap)@),
            r.contents(final(heap)@) == self.contents(old(heap)@),
    {
        SVecReader { data: self.data.clone_handle(heap) }
    }

    /// Commit one more element at the end of the buffer, growing it first if
    /// its capacity is exhausted.
    pub fn push(&mut self, heap: &mut ArcuHeap<SRawVec<T>>, value: T)
        requires
            old(heap).inv(),
            old(self).valid(old(heap)@),
            old(self).contents(old(heap)@).len() < usize::MAX,
            vstd::layout::size_of::<T>() != 0 ==> spec_grown_cap::<T>(
                old(heap)@.gens[old(self).id()].val.unwrap().spec_capacity(),
                old(self).contents(old(heap)@).len() + 1,
            ) * vstd::layout::size_of::<T>() <= MAX_ALLOC_BYTES,
        ensures
            final(heap).inv(),
            final(self).id() == old(self).id(),
            final(self).valid(final(heap)@),
            final(self).contents(final(heap)@) =~= old(self).contents(old(heap)@).push(value),
            final(heap)@.gens.len() == old(heap)@.gens.len(),
            final(heap)@.slots == old(heap)@.slots,
    {
        let raw = self.data.value_mut(heap);
        if raw.needs_to_grow(1) {
            let _ = raw.reserve_one();
        }
        raw.data.push(value);
    }
}

impl<T> SVecWriter<T> {
    /// Release the writer's reference on the shared buffer.
    pub fn drop_handle(self, heap: &mut ArcuHeap<SRawVec<T>>)
        requires
            old(heap).inv(),
            cell_valid(old(heap)@, self.id()),
        ensures
            final(heap).inv(),
            final(heap)@ =~= crate::arcu::cell_release(old(heap)@, self.id()),
    {
        self.data.drop_handle(heap);
    }
}

impl<T> SVecReader<T> {
    /// Release the reader's reference on the shared buffer.
    pub fn drop_handle(self, heap: &mut ArcuHeap<SRawVec<T>>)
        requires
            old(heap).inv(),
            cell_valid(old(heap)@, self.id()),
        ensures
            final(heap).inv(),
            final(heap)@ =~= crate::arcu::cell_release(old(heap)@, self.id()),
    {
        self.data.drop_handle(heap);
    }

    /// The cell generation this reader watches.
    pub closed spec fn id(self) -> int {
        self.data.id()
    }

    /// The reader references a live generation holding a well-formed buffer.
    pub open spec fn valid(self, h: ArcuModel<SRawVec<T>>) -> bool {
        &&& cell_valid(h, self.id())
        &&& h.gens[self.id()].val.unwrap().wf()
    }

    /// The elements committed so far.
    pub open spec fn contents(self, h: ArcuModel<SRawVec<T>>) -> Seq<T> {
        h.gens[self.id()].val.unwrap()@
    }

    /// The number of elements the writer has committed so far.
    pub fn len(&self, heap: &ArcuHeap<SRawVec<T>>) -> (n: usize)
        requires
            heap.inv(),
            self.valid(heap@),
        ensures
            n == self.contents(heap@).len(),
    {
        self.data.read(heap).len()
    }
}

} // verus!
