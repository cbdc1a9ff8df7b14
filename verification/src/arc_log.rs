//! Append-only shared log: a chain of reference-counted generations.
//!
//! Each generation packs three pieces of state into one length word: the top
//! bit is the writer lock, the next bit records that a forward pointer has
//! been installed, and the remaining bits are the committed length. A
//! generation whose forward bit is set is frozen: its length and capacity
//! never change again, and appends go to its successor.

use core::marker::PhantomData;
use vstd::prelude::*;

verus! {

/// Mask of the length bits of a packed word; also the largest representable
/// length or capacity.
pub const LEN_MASK: usize = !0usize >> 2;

/// Largest reference count a generation may carry; acquiring a reference past
/// this bound is refused so that a later release cannot underflow.
pub const MAX_REF_COUNT: usize = !0usize >> 1;

/// Every machine word is bounded by `!0`, so `!0usize` is `usize::MAX`.
pub proof fn lemma_word_bound(x: usize)
    by (bit_vector)
    ensures
        x <= !0usize,
        (!0usize >> 2) < (!0usize >> 1) < !0usize,
{
}

/// The bit masks seen as plain bounds: a value below `LEN_MASK` carries no
/// flag bits, and the masks themselves sit below `usize::MAX`.
pub proof fn lemma_mask_bounds()
    ensures
        LEN_MASK < MAX_REF_COUNT < usize::MAX,
        8 <= LEN_MASK,
{
    lemma_word_bound(usize::MAX);
    assert((!0usize >> 2) < (!0usize >> 1) && 8 <= (!0usize >> 2)) by (bit_vector);
}

/// Packed length words keep the length in the low bits; the two top bits are
/// flags, so a length never exceeds this mask.
pub open spec fn spec_get_len(val: usize) -> usize {
    val & (!0usize >> 2)
}

/// The top bit of the packed word: an appender holds the writer lock.
pub open spec fn spec_is_locked(val: usize) -> bool {
    val & !(!0usize >> 1) != 0
}

/// The second-highest bit of the packed word: a forward pointer is installed.
pub open spec fn spec_has_forward(val: usize) -> bool {
    val & (!(!0usize >> 1) >> 1) != 0
}

/// The packed word with the writer-lock bit set.
pub open spec fn spec_lock_len(val: usize) -> usize {
    val | !(!0usize >> 1)
}

/// The packed word with the has-forward bit set.
pub open spec fn spec_add_forward_to_len(val: usize) -> usize {
    val | (!(!0usize >> 1) >> 1)
}

/// Length part of a packed word.
#[verifier::when_used_as_spec(spec_get_len)]
pub fn get_len(val: usize) -> (r: usize)
    ensures
        r == spec_get_len(val),
{
    val & (!0usize >> 2)
}

/// Is the writer-lock bit set?
#[verifier::when_used_as_spec(spec_is_locked)]
pub fn is_locked(val: usize) -> (r: bool)
    ensures
        r == spec_is_locked(val),
{
    val & !(!0usize >> 1) != 0
}

/// Is the has-forward bit set?
#[verifier::when_used_as_spec(spec_has_forward)]
pub fn has_forward(val: usize) -> (r: bool)
    ensures
        r == spec_has_forward(val),
{
    val & (!(!0usize >> 1) >> 1) != 0
}

/// Set the writer-lock bit.
#[verifier::when_used_as_spec(spec_lock_len)]
pub fn lock_len(val: usize) -> (r: usize)
    ensures
        r == spec_lock_len(val),
{
    val | !(!0usize >> 1)
}

/// Set the has-forward bit.
#[verifier::when_used_as_spec(spec_add_forward_to_len)]
pub fn add_forward_to_len(val: usize) -> (r: usize)
    ensures
        r == spec_add_forward_to_len(val),
{
    val | (!(!0usize >> 1) >> 1)
}

/// Is either flag bit set? A thread that observes this must not write to the
/// generation: either a writer holds the lock or the generation is frozen.
pub fn has_forward_or_lock(val: usize) -> (r: bool)
    ensures
        r == (spec_is_locked(val) || spec_has_forward(val)),
{
    proof {
        lemma_packed_word(val);
    }
    val & (!0usize >> 2) != val
}

/// How the packed-word helpers interact: the flags and the length part are
/// independent fields of the word.
pub proof fn lemma_packed_word(w: usize)
    by (bit_vector)
    ensures
        spec_get_len(w) <= !0usize >> 2,
        !spec_is_locked(w) && !spec_has_forward(w) ==> w == spec_get_len(w),
        w <= !0usize >> 2 ==> spec_get_len(w) == w && !spec_is_locked(w) && !spec_has_forward(
            w,
        ),
        spec_is_locked(spec_lock_len(w)),
        spec_get_len(spec_lock_len(w)) == spec_get_len(w),
        spec_has_forward(spec_lock_len(w)) == spec_has_forward(w),
        spec_has_forward(spec_add_forward_to_len(w)),
        spec_get_len(spec_add_forward_to_len(w)) == spec_get_len(w),
        spec_is_locked(spec_add_forward_to_len(w)) == spec_is_locked(w),
        (w & (!0usize >> 2) != w) == (spec_is_locked(w) || spec_has_forward(w)),
{
}

// ------------------------------------------------------------------
// The abstract model: a heap of generations.
// ------------------------------------------------------------------

/// Ghost model of one generation: one allocation, one reference count, one
/// committed length, and at most one forward pointer, installed once.
/// `vals` is the payload stored in this block; when a generation freezes, its
/// payload moves to the successor, so only a chain's tail holds values.
#[verifier::ext_equal]
pub struct GenModel<T> {
    pub count: nat,
    pub cap: nat,
    pub len: nat,
    pub forward: Option<int>,
    pub vals: Seq<T>,
    pub live: bool,
}

/// Well-formedness of one generation within the heap model `m`.
pub open spec fn gen_ok<T>(m: Seq<GenModel<T>>, i: int) -> bool {
    let n = m[i];
    &&& n.len <= n.cap
    &&& n.len <= LEN_MASK as nat
    &&& n.count <= MAX_REF_COUNT as nat
    &&& (n.live <==> n.count >= 1)
    &&& (vstd::layout::size_of::<T>() == 0 ==> n.forward.is_none() && n.cap == LEN_MASK as nat)
    &&& match n.forward {
        Some(j) => {
            &&& i < j < m.len()
            &&& n.vals.len() == 0
            &&& n.len <= m[j].len
            &&& (n.live ==> m[j].live)
        },
        None => n.vals.len() == (if n.live {
            n.len
        } else {
            0nat
        }),
    }
}

/// `p` is the (live) predecessor of `i`: its installed forward pointer names `i`.
pub open spec fn is_pred<T>(m: Seq<GenModel<T>>, p: int, i: int) -> bool {
    &&& 0 <= p < m.len()
    &&& m[p].live
    &&& m[p].forward == Some(i)
}

/// Some live generation forwards to `i`, so `i`'s count carries that link.
pub open spec fn has_live_pred<T>(m: Seq<GenModel<T>>, i: int) -> bool {
    exists|p: int| #[trigger] is_pred(m, p, i)
}

/// A forward pointer is installed at most once, from the tail, so no two
/// generations forward to the same successor.
pub open spec fn unique_preds<T>(m: Seq<GenModel<T>>) -> bool {
    forall|a: int, b: int|
        #![trigger m[a].forward, m[b].forward]
        0 <= a < m.len() && 0 <= b < m.len() && m[a].forward is Some && m[a].forward
            == m[b].forward ==> a == b
}

/// Well-formedness of the whole heap model.
pub open spec fn wf_log<T>(m: Seq<GenModel<T>>) -> bool {
    &&& forall|i: int| 0 <= i < m.len() ==> #[trigger] gen_ok(m, i)
    &&& unique_preds(m)
}

/// Walk the forward chain from `i` to the generation with no forward pointer.
pub open spec fn tail_of<T>(m: Seq<GenModel<T>>, i: int) -> int
    decreases m.len() - i,
{
    if 0 <= i < m.len() {
        match m[i].forward {
            Some(j) => if i < j < m.len() {
                tail_of(m, j)
            } else {
                i
            },
            None => i,
        }
    } else {
        i
    }
}

/// The values generation `i` presents: its committed prefix of the payload,
/// which lives in the tail block of its chain.
pub open spec fn gen_view<T>(m: Seq<GenModel<T>>, i: int) -> Seq<T> {
    m[tail_of(m, i)].vals.take(m[i].len as int)
}

/// In a well-formed heap, the tail of a live generation's chain is live,
/// final, and holds at least as many committed values.
pub proof fn lemma_tail<T>(m: Seq<GenModel<T>>, i: int)
    requires
        wf_log(m),
        0 <= i < m.len(),
        m[i].live,
    ensures
        i <= tail_of(m, i) < m.len(),
        m[tail_of(m, i)].live,
        m[tail_of(m, i)].forward is None,
        m[i].len <= m[tail_of(m, i)].len,
        m[tail_of(m, i)].vals.len() == m[tail_of(m, i)].len,
        gen_view(m, i).len() == m[i].len,
        m[i].forward is None ==> tail_of(m, i) == i,
    decreases m.len() - i,
{
    assert(gen_ok(m, i));
    match m[i].forward {
        Some(j) => {
            lemma_tail(m, j);
            assert(m[i].len <= m[j].len);
        },
        None => {},
    }
}

// ------------------------------------------------------------------
// The concrete heap.
// ------------------------------------------------------------------

/// Size in bytes of a generation's header: reference count, capacity, packed
/// length word, and forward pointer, one machine word each.
pub const HEADER_SIZE: usize = 32;

/// The layout a generation's block was allocated with; the same layout must
/// be handed back when the block is deallocated.
#[derive(Clone, Copy, PartialEq, Eq, Structural)]
pub struct BlockLayout {
    pub size: usize,
    pub align: usize,
}

/// Byte size of a block holding a header and `cap` inline elements.
pub open spec fn spec_layout_size<T>(cap: nat) -> int {
    HEADER_SIZE + cap * vstd::layout::size_of::<T>()
}

/// Alignment of a generation's block: the header's words or the element type,
/// whichever is stricter.
pub open spec fn spec_layout_align<T>() -> int {
    if vstd::layout::align_of::<T>() <= 8 {
        8
    } else {
        vstd::layout::align_of::<T>() as int
    }
}

/// Compute the layout for a block of `cap` elements, as the allocator sees it.
fn get_layout<T>(cap: usize) -> (r: BlockLayout)
    requires
        spec_layout_size::<T>(cap as nat) <= usize::MAX,
    ensures
        r.size == spec_layout_size::<T>(cap as nat),
        r.align == spec_layout_align::<T>(),
{
    let elem_size = core::mem::size_of::<T>();
    let elem_align = core::mem::align_of::<T>();
    let align = if elem_align <= 8 {
        8
    } else {
        elem_align
    };
    BlockLayout { size: HEADER_SIZE + cap * elem_size, align }
}

/// One generation as stored: header fields plus the inline payload.
struct LogNode<T> {
    count: usize,
    cap: usize,
    len_word: usize,
    forward: Option<usize>,
    data: Vec<T>,
    live: bool,
    layout: BlockLayout,
}

impl<T> LogNode<T> {
    /// The model this node denotes.
    spec fn model(self) -> GenModel<T> {
        GenModel {
            count: self.count as nat,
            cap: self.cap as nat,
            len: spec_get_len(self.len_word) as nat,
            forward: match self.forward {
                Some(j) => Some(j as int),
                None => None,
            },
            vals: self.data@,
            live: self.live,
        }
    }

    /// Concrete bookkeeping the model does not carry: the packed word holds
    /// no lock at rest, its forward bit matches the forward pointer, and the
    /// recorded layout is the one computed from the capacity.
    spec fn packed_ok(self) -> bool {
        &&& !spec_is_locked(self.len_word)
        &&& spec_has_forward(self.len_word) <==> self.forward is Some
        &&& self.layout.size == spec_layout_size::<T>(self.cap as nat)
        &&& self.layout.align == spec_layout_align::<T>()
    }
}

/// The memory the generations live in: an abstract allocator handing out one
/// slot per generation. Blocks are addressed by allocation order, so forward
/// pointers always name a later block.
pub struct LogHeap<T> {
    nodes: Vec<LogNode<T>>,
}

impl<T> View for LogHeap<T> {
    type V = Seq<GenModel<T>>;

    closed spec fn view(&self) -> Seq<GenModel<T>> {
        self.nodes@.map(|i: int, n: LogNode<T>| n.model())
    }
}

impl<T> LogHeap<T> {
    /// The heap invariant: the model is well-formed and the packed words and
    /// layouts agree with it.
    pub closed spec fn inv(self) -> bool {
        &&& wf_log(self@)
        &&& forall|i: int|
            0 <= i < self.nodes@.len() ==> (#[trigger] self.nodes@[i]).packed_ok()
    }

    /// A fresh, empty heap.
    pub fn new() -> (heap: LogHeap<T>)
        ensures
            heap.inv(),
            heap@ =~= Seq::<GenModel<T>>::empty(),
    {
        LogHeap { nodes: Vec::new() }
    }

    /// How many blocks this heap has handed out so far; growth is visible
    /// here as one more block.
    pub fn block_count(&self) -> (n: usize)
        ensures
            n == self@.len(),
    {
        self.nodes.len()
    }
}

/// The model of a freshly allocated generation: one reference, no forward,
/// nothing committed. A zero-sized element type never needs to grow, so its
/// capacity is the whole representable range.
pub open spec fn fresh_gen<T>(cap: nat) -> GenModel<T> {
    GenModel {
        count: 1,
        cap: if vstd::layout::size_of::<T>() == 0 {
            LEN_MASK as nat
        } else {
            cap
        },
        len: 0,
        forward: None,
        vals: Seq::empty(),
        live: true,
    }
}

impl<T> LogHeap<T> {
    /// Allocate a generation of capacity `capacity` (ignored for zero-sized
    /// elements) and return its address.
    fn alloc_gen(&mut self, capacity: usize) -> (g: usize)
        requires
            old(self).inv(),
            capacity <= LEN_MASK,
            spec_layout_size::<T>(capacity as nat) <= usize::MAX,
        ensures
            final(self).inv(),
            final(self)@ =~= old(self)@.push(fresh_gen::<T>(capacity as nat)),
            g == old(self)@.len(),
    {
        let g = self.nodes.len();
        let layout = get_layout::<T>(capacity);
        let cap = if core::mem::size_of::<T>() == 0 {
            proof {
                lemma_mask_bounds();
            }
            LEN_MASK
        } else {
            capacity
        };
        let node = LogNode {
            count: 1,
            cap,
            len_word: 0,
            forward: None,
            data: Vec::new(),
            live: true,
            layout,
        };
        proof {
            lemma_mask_bounds();
            lemma_packed_word(0);
            assert(node.model() =~= fresh_gen::<T>(capacity as nat));
        }
        self.nodes.push(node);
        proof {
            let m0 = old(self)@;
            let m1 = self@;
            assert(m1 =~= m0.push(fresh_gen::<T>(capacity as nat)));
            assert forall|i: int| 0 <= i < m1.len() implies #[trigger] gen_ok(m1, i) by {
                if i < m0.len() {
                    assert(gen_ok(m0, i));
                }
            }
            assert forall|i: int|
                0 <= i < self.nodes@.len() implies (#[trigger] self.nodes@[i]).packed_ok() by {
                if i < m0.len() {
                    assert(old(self).nodes@[i].packed_ok());
                }
            }
        }
        g
    }
}

// ------------------------------------------------------------------
// Model transitions: acquire, release.
// ------------------------------------------------------------------

/// The model after taking one more reference on `g`.
pub open spec fn spec_acquire<T>(m: Seq<GenModel<T>>, g: int) -> Seq<GenModel<T>> {
    m.update(g, GenModel { count: m[g].count + 1, ..m[g] })
}

/// A reclaimed generation: no references, payload dropped, block returned.
/// Its recorded length, capacity and forward pointer are of no further use.
pub open spec fn spec_dead<T>(n: GenModel<T>) -> GenModel<T> {
    GenModel { count: 0, live: false, vals: Seq::empty(), ..n }
}

/// The model after releasing one reference on `g`: on the last release the
/// generation is reclaimed and the reference its forward pointer held on the
/// successor is released in turn.
pub open spec fn spec_release<T>(m: Seq<GenModel<T>>, g: int) -> Seq<GenModel<T>>
    decreases m.len() - g,
{
    if 0 <= g < m.len() {
        if m[g].count >= 2 {
            m.update(g, GenModel { count: (m[g].count - 1) as nat, ..m[g] })
        } else {
            let m1 = m.update(g, spec_dead(m[g]));
            match m[g].forward {
                Some(j) => if g < j < m.len() {
                    spec_release(m1, j)
                } else {
                    m1
                },
                None => m1,
            }
        }
    } else {
        m
    }
}

/// Is `i` on the forward chain starting at `g`?
pub open spec fn in_chain<T>(m: Seq<GenModel<T>>, g: int, i: int) -> bool
    decreases m.len() - g,
{
    if 0 <= g < m.len() {
        g == i || (match m[g].forward {
            Some(j) => g < j < m.len() && in_chain(m, j, i),
            None => false,
        })
    } else {
        false
    }
}

/// Taking a reference preserves well-formedness and everything but the count.
pub proof fn lemma_acquire<T>(m: Seq<GenModel<T>>, g: int)
    requires
        wf_log(m),
        0 <= g < m.len(),
        m[g].live,
        m[g].count + 1 <= MAX_REF_COUNT,
    ensures
        wf_log(spec_acquire(m, g)),
        spec_acquire(m, g).len() == m.len(),
        forall|i: int| 0 <= i < m.len() && i != g ==> spec_acquire(m, g)[i] == m[i],
        spec_acquire(m, g)[g] == (GenModel { count: m[g].count + 1, ..m[g] }),
{
    let r = spec_acquire(m, g);
    assert forall|i: int| 0 <= i < r.len() implies #[trigger] gen_ok(r, i) by {
        assert(gen_ok(m, i));
    }
    assert forall|a: int, b: int|
        0 <= a < r.len() && 0 <= b < r.len() && r[a].forward is Some && r[a].forward
            == r[b].forward implies a == b by {
        assert(m[a].forward == r[a].forward && m[b].forward == r[b].forward);
    }
}

/// `tail_of` reads only the forward pointers, so two models that agree on
/// them agree on every tail.
pub proof fn lemma_tail_congruence<T>(m: Seq<GenModel<T>>, r: Seq<GenModel<T>>, i: int)
    requires
        m.len() == r.len(),
        forall|k: int| 0 <= k < m.len() ==> m[k].forward == r[k].forward,
    ensures
        tail_of(m, i) == tail_of(r, i),
    decreases m.len() - i,
{
    if 0 <= i < m.len() {
        match m[i].forward {
            Some(j) => {
                if i < j < m.len() {
                    lemma_tail_congruence(m, r, j);
                }
            },
            None => {},
        }
    }
}

/// Reclaiming a generation whose last reference is gone keeps the heap
/// well-formed, and its successor's own count still carries the forward link
/// that is about to be released.
pub proof fn lemma_dealloc_step<T>(m: Seq<GenModel<T>>, g: int)
    requires
        wf_log(m),
        0 <= g < m.len(),
        m[g].live,
        m[g].count == 1,
        !has_live_pred(m, g),
    ensures
        wf_log(m.update(g, spec_dead(m[g]))),
        m[g].forward is Some ==> {
            let m1 = m.update(g, spec_dead(m[g]));
            let j = m[g].forward.unwrap();
            &&& m1[j] == m[j]
            &&& m[j].live
            &&& m[j].count >= 1
            &&& !has_live_pred(m1, j)
        },
{
    let m1 = m.update(g, spec_dead(m[g]));
    assert(gen_ok(m, g));
    assert forall|i: int| 0 <= i < m1.len() implies #[trigger] gen_ok(m1, i) by {
        assert(gen_ok(m, i));
        if i != g && m1[i].forward == Some(g) && m1[i].live {
            assert(is_pred(m, i, g));
        }
    }
    assert forall|a: int, b: int|
        0 <= a < m1.len() && 0 <= b < m1.len() && m1[a].forward is Some && m1[a].forward
            == m1[b].forward implies a == b by {
        assert(m[a].forward == m1[a].forward && m[b].forward == m1[b].forward);
    }
    if m[g].forward is Some {
        let j = m[g].forward.unwrap();
        assert(gen_ok(m, j));
        assert(m1[j] == m[j]);
        if has_live_pred(m1, j) {
            let p = choose|p: int| is_pred(m1, p, j);
            assert(m1[p].live && p != g);
            assert(m[p].forward == Some(j) && m[g].forward == Some(j));
            assert(p == g);
        }
    }
}

/// What one release does to the heap model: counts fall by at most one, dead
/// generations stay dead, lengths, capacities and forward pointers are
/// untouched, generations off the released chain are untouched, and every
/// surviving generation keeps its payload and its view.
pub proof fn lemma_release<T>(m: Seq<GenModel<T>>, g: int)
    requires
        wf_log(m),
        0 <= g < m.len(),
        m[g].live,
        m[g].count >= 1 + (if has_live_pred(m, g) {
            1nat
        } else {
            0nat
        }),
    ensures
        ({
            let r = spec_release(m, g);
            &&& r.len() == m.len()
            &&& wf_log(r)
            &&& forall|i: int|
                0 <= i < m.len() ==> (#[trigger] r[i]).len == m[i].len && r[i].cap == m[i].cap
                    && r[i].forward == m[i].forward
            &&& forall|i: int|
                0 <= i < m.len() && (#[trigger] r[i]).live ==> m[i].live && r[i].vals == m[i].vals
            &&& forall|i: int| 0 <= i < m.len() && !in_chain(m, g, i) ==> #[trigger] r[i] == m[i]
            &&& forall|i: int|
                0 <= i < m.len() ==> m[i].count - 1 <= (#[trigger] r[i]).count <= m[i].count
            &&& r[g].count == m[g].count - 1
            &&& forall|i: int|
                0 <= i < m.len() && i != g && (#[trigger] r[i]).count < m[i].count && r[i].live
                    ==> !has_live_pred(r, i)
            &&& forall|i: int|
                0 <= i < m.len() && (#[trigger] r[i]).live ==> gen_view(r, i) == gen_view(m, i)
        }),
    decreases m.len() - g,
{
    let r = spec_release(m, g);
    if m[g].count >= 2 {
        assert forall|i: int| 0 <= i < r.len() implies #[trigger] gen_ok(r, i) by {
            assert(gen_ok(m, i));
        }
        assert forall|a: int, b: int|
            0 <= a < r.len() && 0 <= b < r.len() && r[a].forward is Some && r[a].forward
                == r[b].forward implies a == b by {
            assert(m[a].forward == r[a].forward && m[b].forward == r[b].forward);
        }
        assert forall|i: int|
            0 <= i < m.len() && (#[trigger] r[i]).live implies gen_view(r, i) == gen_view(m, i) by {
            lemma_tail_congruence(m, r, i);
            lemma_tail(m, i);
        }
    } else {
        lemma_dealloc_step(m, g);
        assert(gen_ok(m, g));
        let m1 = m.update(g, spec_dead(m[g]));
        match m[g].forward {
            Some(j) => {
                assert(g < j < m.len());
                assert(!has_live_pred(m1, j) && m1[j].live && m1[j].count >= 1);
                lemma_release(m1, j);
                let rr = spec_release(m1, j);
                assert(r =~= rr);
                assert forall|i: int|
                    0 <= i < m.len() && (#[trigger] r[i]).live implies m[i].live && r[i].vals
                    == m[i].vals by {
                    assert(m1[i].live ==> m[i].live && m1[i].vals == m[i].vals);
                }
                assert forall|i: int|
                    0 <= i < m.len() && !in_chain(m, g, i) implies #[trigger] r[i] == m[i] by {
                    assert(in_chain(m, g, i) == (g == i || in_chain(m, j, i)));
                    if !in_chain(m, g, i) {
                        assert forall|k: int| 0 <= k < m1.len() implies m1[k].forward
                            == m[k].forward by {}
                        lemma_in_chain_congruence(m, m1, j, i);
                        assert(r[i] == m1[i]);
                    }
                }
                assert forall|i: int|
                    0 <= i < m.len() && i != g && (#[trigger] r[i]).count < m[i].count && r[i].live
                    implies !has_live_pred(r, i) by {
                    if r[i].count < m1[i].count {
                        // the inner release reduced it
                    } else {
                        // only g's own count fell between m and m1
                        assert(i == g);
                    }
                    if has_live_pred(r, i) {
                        let p = choose|p: int| is_pred(r, p, i);
                        assert(is_pred(m1, p, i) || !r[p].live);
                    }
                }
                assert forall|i: int|
                    0 <= i < m.len() && (#[trigger] r[i]).live implies gen_view(r, i) == gen_view(
                    m,
                    i,
                ) by {
                    assert(m1[i].live);
                    assert(gen_view(r, i) == gen_view(m1, i));
                    lemma_tail_congruence(m, m1, i);
                    lemma_tail(m, i);
                    lemma_tail(m1, i);
                }
            },
            None => {
                assert forall|i: int|
                    0 <= i < m.len() && (#[trigger] r[i]).live implies gen_view(r, i) == gen_view(
                    m,
                    i,
                ) by {
                    lemma_tail_congruence(m, r, i);
                    lemma_tail(m, i);
                    lemma_tail(r, i);
                }
            },
        }
    }
}

// ------------------------------------------------------------------
// Model transitions: append.
// ------------------------------------------------------------------

/// The smallest capacity worth allocating for a non-empty block: generous for
/// tiny elements, one element for very large ones.
pub open spec fn spec_min_cap<T>() -> nat {
    if vstd::layout::size_of::<T>() == 1 {
        8nat
    } else if vstd::layout::size_of::<T>() <= 1024 {
        4nat
    } else {
        1nat
    }
}

/// The capacity of the successor block: doubled for exponential growth, but
/// at least what is needed and at least the minimum worth allocating.
pub open spec fn spec_grown_cap<T>(cap: nat, need: nat) -> nat {
    let grown = if 2 * cap >= need {
        2 * cap
    } else {
        need
    };
    if spec_min_cap::<T>() >= grown {
        spec_min_cap::<T>()
    } else {
        grown
    }
}

/// The model after committing one element in place at tail `t`.
pub open spec fn spec_commit<T>(m: Seq<GenModel<T>>, t: int, v: T) -> Seq<GenModel<T>> {
    m.update(t, GenModel { len: m[t].len + 1, vals: m[t].vals.push(v), ..m[t] })
}

/// The model after growing at tail `t`: the tail freezes, its payload moves
/// into a fresh successor holding the new element, and the forward pointer is
/// installed. The successor's single reference is the forward link.
pub open spec fn spec_grow<T>(m: Seq<GenModel<T>>, t: int, v: T) -> Seq<GenModel<T>> {
    let frozen = GenModel { forward: Some(m.len() as int), vals: Seq::empty(), ..m[t] };
    let fresh = GenModel {
        count: 1,
        cap: spec_grown_cap::<T>(m[t].cap, m[t].len + 1),
        len: m[t].len + 1,
        forward: None,
        vals: m[t].vals.push(v),
        live: true,
    };
    m.update(t, frozen).push(fresh)
}

/// The model after a handle on `g` adopts the tail of its chain: a reference
/// is taken on the tail and the reference on `g` is released.
pub open spec fn spec_adopt<T>(m: Seq<GenModel<T>>, g: int) -> Seq<GenModel<T>> {
    if tail_of(m, g) == g {
        m
    } else {
        spec_release(spec_acquire(m, tail_of(m, g)), g)
    }
}

/// The model after a handle on `g` appends `v`, together with the generation
/// the handle ends on: in place while the tail has room, otherwise by growth,
/// the handle adopting the generation that received the element.
pub open spec fn spec_append<T>(m: Seq<GenModel<T>>, g: int, v: T) -> (Seq<GenModel<T>>, int) {
    let t = tail_of(m, g);
    if m[t].len < m[t].cap {
        if t == g {
            (spec_commit(m, t, v), g)
        } else {
            (spec_release(spec_acquire(spec_commit(m, t, v), t), g), t)
        }
    } else {
        (spec_release(spec_acquire(spec_grow(m, t, v), m.len() as int), g), m.len() as int)
    }
}

/// The grown capacity covers both the requirement and the old capacity.
pub proof fn lemma_grown_cap_suffices<T>(cap: nat, need: nat)
    ensures
        spec_grown_cap::<T>(cap, need) >= need,
        spec_grown_cap::<T>(cap, need) >= cap,
{
}

/// The machine can hold the append: the new length still fits the length
/// field, and if the tail must grow, the doubled capacity and the successor
/// block's byte size fit a word.
pub open spec fn push_fits<T>(m: Seq<GenModel<T>>, g: int) -> bool {
    let t = tail_of(m, g);
    &&& m[t].len + 1 <= LEN_MASK
    &&& (m[t].len + 1 > m[t].cap ==> 2 * m[t].cap <= usize::MAX && spec_layout_size::<T>(
        spec_grown_cap::<T>(m[t].cap, m[t].len + 1),
    ) <= usize::MAX)
}

// ------------------------------------------------------------------
// The handle.
// ------------------------------------------------------------------

/// An owning, reference-counted handle on one generation of a log. Holding it
/// keeps that generation's count at least one, so the generation stays
/// allocated and the handle's snapshot stays readable.
pub struct ArcLog<T> {
    node: usize,
    marker: PhantomData<T>,
}

impl<T> ArcLog<T> {
    /// The address of the generation this handle pins.
    pub closed spec fn id(self) -> int {
        self.node as int
    }

    /// The handle references a live generation, and that generation's count
    /// carries this handle's own reference over and above the forward link
    /// that may also target it.
    pub open spec fn valid(self, m: Seq<GenModel<T>>) -> bool {
        &&& 0 <= self.id() < m.len()
        &&& m[self.id()].live
        &&& m[self.id()].count >= 1 + (if has_live_pred(m, self.id()) {
            1nat
        } else {
            0nat
        })
    }

    /// The snapshot this handle presents: the committed prefix of its
    /// generation.
    pub open spec fn contents(self, m: Seq<GenModel<T>>) -> Seq<T> {
        gen_view(m, self.id())
    }

    /// The committed length of the handle's generation.
    pub open spec fn snap_len(self, m: Seq<GenModel<T>>) -> nat {
        m[self.id()].len
    }
}

impl<T> ArcLog<T> {
    /// An empty log in a fresh generation of capacity zero.
    pub fn new(heap: &mut LogHeap<T>) -> (h: ArcLog<T>)
        requires
            old(heap).inv(),
        ensures
            final(heap).inv(),
            final(heap)@ =~= old(heap)@.push(fresh_gen::<T>(0)),
            h.id() == old(heap)@.len(),
            h.valid(final(heap)@),
            h.contents(final(heap)@) =~= Seq::<T>::empty(),
            h.snap_len(final(heap)@) == 0,
    {
        ArcLog::new_in(heap)
    }

    /// An empty log with room for `capacity` elements before it must grow.
    pub fn with_capacity(capacity: usize, heap: &mut LogHeap<T>) -> (h: ArcLog<T>)
        requires
            old(heap).inv(),
            capacity <= LEN_MASK,
            spec_layout_size::<T>(capacity as nat) <= usize::MAX,
        ensures
            final(heap).inv(),
            final(heap)@ =~= old(heap)@.push(fresh_gen::<T>(capacity as nat)),
            h.id() == old(heap)@.len(),
            h.valid(final(heap)@),
            h.contents(final(heap)@) =~= Seq::<T>::empty(),
            h.snap_len(final(heap)@) == 0,
    {
        ArcLog::with_capacity_in(capacity, heap)
    }

    /// Like `new`, naming the heap the log's generations live in.
    pub fn new_in(heap: &mut LogHeap<T>) -> (h: ArcLog<T>)
        requires
            old(heap).inv(),
        ensures
            final(heap).inv(),
            final(heap)@ =~= old(heap)@.push(fresh_gen::<T>(0)),
            h.id() == old(heap)@.len(),
            h.valid(final(heap)@),
            h.contents(final(heap)@) =~= Seq::<T>::empty(),
            h.snap_len(final(heap)@) == 0,
    {
        proof {
            lemma_mask_bounds();
            assert(spec_layout_size::<T>(0) == HEADER_SIZE) by {
                assert(0 * vstd::layout::size_of::<T>() == 0);
            }
            assert(usize::MAX >= 32) by {
                lemma_word_bound(usize::MAX);
                assert(8 <= (!0usize >> 2)) by (bit_vector);
            }
        }
        ArcLog::with_capacity_in(0, heap)
    }

    /// Like `with_capacity`, naming the heap the log's generations live in.
    pub fn with_capacity_in(capacity: usize, heap: &mut LogHeap<T>) -> (h: ArcLog<T>)
        requires
            old(heap).inv(),
            capacity <= LEN_MASK,
            spec_layout_size::<T>(capacity as nat) <= usize::MAX,
        ensures
            final(heap).inv(),
            final(heap)@ =~= old(heap)@.push(fresh_gen::<T>(capacity as nat)),
            h.id() == old(heap)@.len(),
            h.valid(final(heap)@),
            h.contents(final(heap)@) =~= Seq::<T>::empty(),
            h.snap_len(final(heap)@) == 0,
    {
        let g = heap.alloc_gen(capacity);
        let h = ArcLog { node: g, marker: PhantomData };
        proof {
            let m1 = heap@;
            let gi = g as int;
            if has_live_pred(m1, gi) {
                let p = choose|p: int| is_pred(m1, p, gi);
                if p < old(heap)@.len() {
                    assert(gen_ok(old(heap)@, p));
                }
            }
            lemma_tail(m1, gi);
            assert(h.contents(m1) =~= Seq::<T>::empty());
        }
        h
    }

    /// The number of elements in this handle's snapshot. Newer appends on a
    /// successor generation are not seen until `update`.
    pub fn len(&self, heap: &LogHeap<T>) -> (n: usize)
        requires
            heap.inv(),
            self.valid(heap@),
        ensures
            n == self.snap_len(heap@),
            n == self.contents(heap@).len(),
    {
        proof {
            lemma_tail(heap@, self.id());
        }
        get_len(heap.nodes[self.node].len_word)
    }

    /// Read the element at `index` of this handle's snapshot. Committed
    /// elements are immutable, so the value read is the value appended.
    pub fn get<'a>(&self, heap: &'a LogHeap<T>, index: usize) -> (r: &'a T)
        requires
            heap.inv(),
            self.valid(heap@),
            index < self.snap_len(heap@),
        ensures
            *r == self.contents(heap@)[index as int],
    {
        proof {
            lemma_tail(heap@, self.id());
        }
        let t = find_tail(heap, self.node);
        &heap.nodes[t].data[index]
    }

    /// Take one more reference on this handle's generation and return a
    /// second handle to it.
    pub fn clone_handle(&self, heap: &mut LogHeap<T>) -> (h: ArcLog<T>)
        requires
            old(heap).inv(),
            self.valid(old(heap)@),
            old(heap)@[self.id()].count + 1 <= MAX_REF_COUNT,
        ensures
            final(heap).inv(),
            final(heap)@ =~= spec_acquire(old(heap)@, self.id()),
            h.id() == self.id(),
            h.valid(final(heap)@),
            self.valid(final(heap)@),
            h.contents(final(heap)@) == self.contents(old(heap)@),
            self.contents(final(heap)@) == self.contents(old(heap)@),
            final(heap)@[self.id()].count == old(heap)@[self.id()].count + 1,
    {
        proof {
            lemma_acquire(old(heap)@, self.id());
        }
        let n = &mut heap.nodes[self.node];
        n.count = n.count + 1;
        proof {
            assert(heap@ =~= spec_acquire(old(heap)@, self.id()));
            assert forall|p: int| is_pred(heap@, p, self.id()) implies is_pred(
                old(heap)@,
                p,
                self.id(),
            ) by {}
            assert forall|p: int| is_pred(old(heap)@, p, self.id()) implies is_pred(
                heap@,
                p,
                self.id(),
            ) by {}
            lemma_tail_congruence(old(heap)@, heap@, self.id());
            lemma_tail(old(heap)@, self.id());
            lemma_tail(heap@, self.id());
        }
        ArcLog { node: self.node, marker: PhantomData }
    }

    /// Walk the forward chain to the newest generation. If the handle was not
    /// already at the tail, adopt the tail: take a reference on it, release
    /// the old generation, and report that an advance happened. Calling
    /// `update` again with no intervening growth returns `false`.
    pub fn update(&mut self, heap: &mut LogHeap<T>) -> (advanced: bool)
        requires
            old(heap).inv(),
            old(self).valid(old(heap)@),
            old(heap)@[tail_of(old(heap)@, old(self).id())].count + 1 <= MAX_REF_COUNT,
        ensures
            final(heap).inv(),
            advanced == (old(heap)@[old(self).id()].forward is Some),
            !advanced ==> final(heap)@ == old(heap)@ && final(self).id() == old(self).id(),
            advanced ==> final(self).id() == tail_of(old(heap)@, old(self).id()) && final(heap)@
                =~= spec_release(
                spec_acquire(old(heap)@, tail_of(old(heap)@, old(self).id())),
                old(self).id(),
            ),
            final(self).valid(final(heap)@),
            final(self).contents(final(heap)@) == gen_view(
                old(heap)@,
                tail_of(old(heap)@, old(self).id()),
            ),
            final(self).snap_len(final(heap)@) == old(heap)@[tail_of(
                old(heap)@,
                old(self).id(),
            )].len,
            final(heap)@[final(self).id()].forward is None,
    {
        let ghost m = old(heap)@;
        let ghost gi = old(self).id();
        let w = heap.nodes[self.node].len_word;
        if !has_forward(w) {
            proof {
                assert(heap.nodes@[gi].packed_ok());
                assert(m[gi].forward is None);
                lemma_tail(m, gi);
            }
            false
        } else {
            proof {
                assert(heap.nodes@[gi].packed_ok());
                assert(m[gi].forward is Some);
                lemma_tail(m, gi);
                assert(gen_ok(m, gi));
            }
            let t = find_tail(heap, self.node);
            let ghost ti = t as int;
            proof {
                assert(ti != gi) by {
                    assert(m[ti].forward is None);
                }
                lemma_acquire(m, ti);
            }
            let n = &mut heap.nodes[t];
            n.count = n.count + 1;
            let ghost ma = spec_acquire(m, ti);
            proof {
                assert(heap@ =~= ma);
                assert forall|i: int|
                    0 <= i < heap.nodes@.len() implies (#[trigger] heap.nodes@[i]).packed_ok() by {
                    assert(old(heap).nodes@[i].packed_ok());
                }
                assert forall|p: int| is_pred(ma, p, gi) implies is_pred(m, p, gi) by {}
                assert forall|p: int| is_pred(m, p, gi) implies is_pred(ma, p, gi) by {}
                assert(ma[gi] == m[gi]);
            }
            let old_node = self.node;
            self.node = t;
            drop_ref(heap, old_node);
            proof {
                lemma_release(ma, gi);
                let r = spec_release(ma, gi);
                assert(heap@ =~= r);
                assert(gen_ok(m, ti));
                assert(m[ti].live && m[ti].count >= 1);
                assert(ma[ti].count == m[ti].count + 1);
                assert(r[ti].count >= ma[ti].count - 1);
                assert(gen_ok(r, ti));
                assert(r[ti].live);
                if r[ti].count < ma[ti].count {
                    assert(!has_live_pred(r, ti));
                } else {
                    assert(r[ti].count >= 2);
                }
                assert(gen_view(ma, ti) == gen_view(m, ti)) by {
                    lemma_tail_congruence(m, ma, ti);
                    lemma_tail(m, ti);
                    lemma_tail(ma, ti);
                }
                assert(gen_view(r, ti) == gen_view(ma, ti));
            }
            true
        }
    }

    /// After an append attempt: adopt the generation the engine directed the
    /// handle to, taking a reference on it and releasing the old one, and
    /// hand the attempt's verdict back to the caller.
    fn finish_push(
        &mut self,
        heap: &mut LogHeap<T>,
        res: Result<usize, T>,
        o_new: Option<usize>,
    ) -> (r: Result<usize, T>)
        requires
            old(heap).inv(),
            0 <= old(self).id() < old(heap)@.len(),
            old(heap)@[old(self).id()].live,
            old(heap)@[old(self).id()].count >= 1 + (if has_live_pred(
                old(heap)@,
                old(self).id(),
            ) {
                1nat
            } else {
                0nat
            }),
            match o_new {
                Some(t) => {
                    &&& 0 <= t < old(heap)@.len()
                    &&& t != old(self).id()
                    &&& old(heap)@[t as int].live
                    &&& old(heap)@[t as int].count + 1 <= MAX_REF_COUNT
                },
                None => true,
            },
        ensures
            final(heap).inv(),
            r == res,
            match o_new {
                Some(t) => {
                    &&& final(self).id() == t
                    &&& final(heap)@ =~= spec_release(
                        spec_acquire(old(heap)@, t as int),
                        old(self).id(),
                    )
                    &&& final(self).valid(final(heap)@)
                    &&& final(heap)@[t as int].len == old(heap)@[t as int].len
                    &&& final(heap)@[t as int].vals == old(heap)@[t as int].vals
                    &&& final(heap)@[t as int].forward == old(heap)@[t as int].forward
                    &&& gen_view(final(heap)@, t as int) == gen_view(old(heap)@, t as int)
                },
                None => {
                    &&& final(self).id() == old(self).id()
                    &&& final(heap)@ == old(heap)@
                },
            },
    {
        let ghost m = old(heap)@;
        let ghost gi = old(self).id();
        if let Some(new_node) = o_new {
            let ghost ti = new_node as int;
            proof {
                lemma_acquire(m, ti);
            }
            let n = &mut heap.nodes[new_node];
            n.count = n.count + 1;
            let ghost ma = spec_acquire(m, ti);
            proof {
                assert(heap@ =~= ma);
                assert forall|i: int|
                    0 <= i < heap.nodes@.len() implies (#[trigger] heap.nodes@[i]).packed_ok() by {
                    assert(old(heap).nodes@[i].packed_ok());
                }
                assert forall|p: int| is_pred(ma, p, gi) implies is_pred(m, p, gi) by {}
                assert forall|p: int| is_pred(m, p, gi) implies is_pred(ma, p, gi) by {}
                assert(ma[gi] == m[gi]);
            }
            let old_node = self.node;
            self.node = new_node;
            drop_ref(heap, old_node);
            proof {
                lemma_release(ma, gi);
                let r = spec_release(ma, gi);
                assert(heap@ =~= r);
                assert(gen_ok(m, ti));
                assert(m[ti].count >= 1);
                assert(ma[ti].count == m[ti].count + 1);
                assert(r[ti].count >= ma[ti].count - 1);
                assert(gen_ok(r, ti));
                assert(r[ti].live);
                if r[ti].count < ma[ti].count {
                    assert(!has_live_pred(r, ti));
                } else {
                    assert(r[ti].count >= 2);
                }
                assert(gen_view(ma, ti) == gen_view(m, ti)) by {
                    lemma_tail_congruence(m, ma, ti);
                    lemma_tail(m, ti);
                    lemma_tail(ma, ti);
                }
                assert(gen_view(r, ti) == gen_view(ma, ti));
            }
        }
        res
    }

    /// Append one element, retrying attempts until one decides; with the heap
    /// held exclusively the first attempt decides. Returns the index the
    /// element was committed at; the handle adopts the generation that
    /// received it.
    pub fn push_spin(&mut self, heap: &mut LogHeap<T>, item: T) -> (idx: usize)
        requires
            old(heap).inv(),
            old(self).valid(old(heap)@),
            push_fits::<T>(old(heap)@, old(self).id()),
            tail_of(old(heap)@, old(self).id()) != old(self).id() ==> old(heap)@[tail_of(
                old(heap)@,
                old(self).id(),
            )].count + 1 <= MAX_REF_COUNT,
        ensures
            final(heap).inv(),
            idx == old(heap)@[tail_of(old(heap)@, old(self).id())].len,
            final(heap)@ =~= spec_append(old(heap)@, old(self).id(), item).0,
            final(self).id() == spec_append(old(heap)@, old(self).id(), item).1,
            final(self).valid(final(heap)@),
            final(self).contents(final(heap)@) == gen_view(
                old(heap)@,
                tail_of(old(heap)@, old(self).id()),
            ).push(item),
            final(self).snap_len(final(heap)@) == idx + 1,
    {
        match self.push_with_fence(heap, item, LEN_MASK, true) {
            Ok(idx) => idx,
            Err(_) => {
                proof {
                    assert(false);
                }
                0
            },
        }
    }

    /// Append one element in a single attempt. With the heap held exclusively
    /// the attempt always decides, so the element is always committed; the
    /// `Result` mirrors the retrying policy's recoverable-contention surface.
    pub fn push_or_return(&mut self, heap: &mut LogHeap<T>, item: T) -> (r: Result<usize, T>)
        requires
            old(heap).inv(),
            old(self).valid(old(heap)@),
            push_fits::<T>(old(heap)@, old(self).id()),
            tail_of(old(heap)@, old(self).id()) != old(self).id() ==> old(heap)@[tail_of(
                old(heap)@,
                old(self).id(),
            )].count + 1 <= MAX_REF_COUNT,
        ensures
            final(heap).inv(),
            r == Ok::<usize, T>(old(heap)@[tail_of(old(heap)@, old(self).id())].len as usize),
            final(heap)@ =~= spec_append(old(heap)@, old(self).id(), item).0,
            final(self).id() == spec_append(old(heap)@, old(self).id(), item).1,
            final(self).valid(final(heap)@),
            final(self).contents(final(heap)@) == gen_view(
                old(heap)@,
                tail_of(old(heap)@, old(self).id()),
            ).push(item),
            final(self).snap_len(final(heap)@) == old(heap)@[tail_of(
                old(heap)@,
                old(self).id(),
            )].len + 1,
    {
        self.push_with_fence(heap, item, LEN_MASK, false)
    }

    /// Append one element, retrying, but only while the committed length is
    /// at most `index`: append only if slot `index` is not yet taken. A
    /// larger length returns the element back; either way the handle adopts
    /// the tail.
    pub fn push_spin_by_index(&mut self, heap: &mut LogHeap<T>, item: T, index: usize) -> (r:
        Result<usize, T>)
        requires
            old(heap).inv(),
            old(self).valid(old(heap)@),
            old(heap)@[tail_of(old(heap)@, old(self).id())].len <= index ==> push_fits::<T>(
                old(heap)@,
                old(self).id(),
            ),
            tail_of(old(heap)@, old(self).id()) != old(self).id() ==> old(heap)@[tail_of(
                old(heap)@,
                old(self).id(),
            )].count + 1 <= MAX_REF_COUNT,
        ensures
            final(heap).inv(),
            final(self).valid(final(heap)@),
            old(heap)@[tail_of(old(heap)@, old(self).id())].len <= index ==> {
                &&& r == Ok::<usize, T>(
                    old(heap)@[tail_of(old(heap)@, old(self).id())].len as usize,
                )
                &&& final(heap)@ =~= spec_append(old(heap)@, old(self).id(), item).0
                &&& final(self).id() == spec_append(old(heap)@, old(self).id(), item).1
                &&& final(self).contents(final(heap)@) == gen_view(
                    old(heap)@,
                    tail_of(old(heap)@, old(self).id()),
                ).push(item)
            },
            old(heap)@[tail_of(old(heap)@, old(self).id())].len > index ==> {
                &&& r == Err::<usize, T>(item)
                &&& final(heap)@ =~= spec_adopt(old(heap)@, old(self).id())
                &&& final(self).id() == tail_of(old(heap)@, old(self).id())
                &&& final(self).contents(final(heap)@) == gen_view(
                    old(heap)@,
                    tail_of(old(heap)@, old(self).id()),
                )
            },
    {
        self.push_with_fence(heap, item, index, false)
    }

    /// Append one element in a single attempt, but only while the committed
    /// length is at most `index`; a larger length returns the element back.
    pub fn push_or_return_by_index(&mut self, heap: &mut LogHeap<T>, item: T, index: usize) -> (r:
        Result<usize, T>)
        requires
            old(heap).inv(),
            old(self).valid(old(heap)@),
            old(heap)@[tail_of(old(heap)@, old(self).id())].len <= index ==> push_fits::<T>(
                old(heap)@,
                old(self).id(),
            ),
            tail_of(old(heap)@, old(self).id()) != old(self).id() ==> old(heap)@[tail_of(
                old(heap)@,
                old(self).id(),
            )].count + 1 <= MAX_REF_COUNT,
        ensures
            final(heap).inv(),
            final(self).valid(final(heap)@),
            old(heap)@[tail_of(old(heap)@, old(self).id())].len <= index ==> {
                &&& r == Ok::<usize, T>(
                    old(heap)@[tail_of(old(heap)@, old(self).id())].len as usize,
                )
                &&& final(heap)@ =~= spec_append(old(heap)@, old(self).id(), item).0
                &&& final(self).id() == spec_append(old(heap)@, old(self).id(), item).1
                &&& final(self).contents(final(heap)@) == gen_view(
                    old(heap)@,
                    tail_of(old(heap)@, old(self).id()),
                ).push(item)
            },
            old(heap)@[tail_of(old(heap)@, old(self).id())].len > index ==> {
                &&& r == Err::<usize, T>(item)
                &&& final(heap)@ =~= spec_adopt(old(heap)@, old(self).id())
                &&& final(self).id() == tail_of(old(heap)@, old(self).id())
                &&& final(self).contents(final(heap)@) == gen_view(
                    old(heap)@,
                    tail_of(old(heap)@, old(self).id()),
                )
            },
    {
        self.push_with_fence(heap, item, index, false)
    }

    /// The common body of the append operations: one engine attempt (spin and
    /// one-shot coincide while the heap is held exclusively), then adoption.
    fn push_with_fence(
        &mut self,
        heap: &mut LogHeap<T>,
        item: T,
        ref_index: usize,
        spin: bool,
    ) -> (r: Result<usize, T>)
        requires
            old(heap).inv(),
            old(self).valid(old(heap)@),
            old(heap)@[tail_of(old(heap)@, old(self).id())].len <= ref_index ==> push_fits::<T>(
                old(heap)@,
                old(self).id(),
            ),
            tail_of(old(heap)@, old(self).id()) != old(self).id() ==> old(heap)@[tail_of(
                old(heap)@,
                old(self).id(),
            )].count + 1 <= MAX_REF_COUNT,
        ensures
            final(heap).inv(),
            final(self).valid(final(heap)@),
            old(heap)@[tail_of(old(heap)@, old(self).id())].len <= ref_index ==> {
                &&& r == Ok::<usize, T>(
                    old(heap)@[tail_of(old(heap)@, old(self).id())].len as usize,
                )
                &&& final(heap)@ =~= spec_append(old(heap)@, old(self).id(), item).0
                &&& final(self).id() == spec_append(old(heap)@, old(self).id(), item).1
                &&& final(self).contents(final(heap)@) == gen_view(
                    old(heap)@,
                    tail_of(old(heap)@, old(self).id()),
                ).push(item)
                &&& final(self).snap_len(final(heap)@) == old(heap)@[tail_of(
                    old(heap)@,
                    old(self).id(),
                )].len + 1
            },
            old(heap)@[tail_of(old(heap)@, old(self).id())].len > ref_index ==> {
                &&& r == Err::<usize, T>(item)
                &&& final(heap)@ =~= spec_adopt(old(heap)@, old(self).id())
                &&& final(self).id() == tail_of(old(heap)@, old(self).id())
                &&& final(self).contents(final(heap)@) == gen_view(
                    old(heap)@,
                    tail_of(old(heap)@, old(self).id()),
                )
                &&& final(self).snap_len(final(heap)@) == old(heap)@[tail_of(
                    old(heap)@,
                    old(self).id(),
                )].len
            },
    {
        let ghost m = old(heap)@;
        let ghost gi = old(self).id();
        let ghost ti = tail_of(m, gi);
        proof {
            vstd::std_specs::vec::axiom_spec_len(&heap.nodes);
            assert(m.len() <= usize::MAX);
            lemma_tail(m, gi);
            lemma_mask_bounds();
            assert(gen_ok(m, ti));
        }
        let start = self.node;
        let (res, o_new) = if spin {
            heap.alloc_items(start, item, ref_index)
        } else {
            heap.alloc_items_one_shot(start, item, ref_index)
        };
        let ghost me = heap@;
        proof {
            assert(gi == start as int);
            assert(ti == tail_of(m, start as int));
            if m[ti].len > ref_index {
                assert(res == Err::<usize, T>(item));
                assert(me == m);
                assert(o_new == (if ti == gi { None::<usize> } else { Some(ti as usize) }));
            }
            if m[ti].len <= ref_index {
                assert(res == Ok::<usize, T>(m[ti].len as usize));
                if m[ti].len < m[ti].cap {
                    assert(me =~= spec_commit(m, ti, item));
                    assert(o_new == (if ti == gi { None::<usize> } else { Some(ti as usize) }));
                } else {
                    assert(me =~= spec_grow(m, ti, item));
                    assert(o_new == Some(m.len() as usize));
                }
            }
            if m[ti].len <= ref_index {
                if m[ti].len < m[ti].cap {
                    lemma_commit_ok(m, ti, item);
                    assert(me[gi] == m[gi] || gi == ti);
                    assert forall|p: int| is_pred(me, p, gi) implies is_pred(m, p, gi) by {}
                    assert forall|p: int| is_pred(m, p, gi) implies is_pred(me, p, gi) by {}
                } else {
                    lemma_grow_ok(m, ti, item);
                    assert(me[gi] == m[gi] || gi == ti);
                    assert forall|p: int| is_pred(me, p, gi) implies is_pred(m, p, gi) by {
                        if p == ti {
                            assert(m[ti].forward is None);
                            assert(me[p].forward == Some(m.len() as int));
                        }
                    }
                    assert forall|p: int| is_pred(m, p, gi) implies is_pred(me, p, gi) by {
                        if p == ti {
                            assert(m[ti].forward is None);
                        }
                    }
                }
            } else {
                assert forall|p: int| is_pred(me, p, gi) implies is_pred(m, p, gi) by {}
                assert forall|p: int| is_pred(m, p, gi) implies is_pred(me, p, gi) by {}
            }
            assert(me[gi].count == m[gi].count && me[gi].live);
            assert(has_live_pred(me, gi) <==> has_live_pred(m, gi)) by {
                if has_live_pred(me, gi) {
                    let p = choose|p: int| is_pred(me, p, gi);
                    if p != ti {
                        assert(is_pred(m, p, gi));
                    } else {
                        assert(m[ti].forward is None || me[ti] == m[ti]);
                        assert(is_pred(m, p, gi) || me[p].forward == Some(me.len() - 1));
                    }
                }
                if has_live_pred(m, gi) {
                    let p = choose|p: int| is_pred(m, p, gi);
                    assert(is_pred(me, p, gi));
                }
            }
            if m[ti].len <= ref_index && m[ti].len >= m[ti].cap {
                assert(me[me.len() - 1].live && me[me.len() - 1].count == 1);
                lemma_mask_bounds();
            }
            if ti != gi {
                assert(me[ti].live && me[ti].count == m[ti].count);
            }
        }
        let r = self.finish_push(heap, res, o_new);
        proof {
            lemma_tail(m, ti);
            if m[ti].len <= ref_index {
                if m[ti].len < m[ti].cap {
                    if ti == gi {
                        assert(final(heap)@ =~= spec_append(m, gi, item).0);
                        lemma_tail_congruence(m, me, gi);
                        lemma_tail(me, gi);
                    } else {
                        assert(final(heap)@ =~= spec_append(m, gi, item).0);
                    }
                } else {
                    assert(final(heap)@ =~= spec_append(m, gi, item).0);
                }
            } else {
                if ti == gi {
                    assert(final(heap)@ =~= spec_adopt(m, gi));
                } else {
                    assert(final(heap)@ =~= spec_adopt(m, gi));
                }
            }
        }
        r
    }

    /// Release this handle's reference; the last release reclaims the
    /// generation and releases the chain behind it.
    pub fn drop_handle(self, heap: &mut LogHeap<T>)
        requires
            old(heap).inv(),
            self.valid(old(heap)@),
        ensures
            final(heap).inv(),
            final(heap)@ =~= spec_release(old(heap)@, self.id()),
    {
        drop_ref(heap, self.node);
    }
}

impl<T> LogHeap<T> {
    /// One append attempt from `start`: walk to the tail, honor the index
    /// fence, then commit in place or grow. With the heap held exclusively
    /// the compare-exchange on the packed word cannot lose, so the one
    /// attempt always decides. Returns the assigned index or the element
    /// back, plus the generation the caller's handle should adopt.
    fn alloc_items_one_shot(&mut self, start: usize, item: T, ref_index: usize) -> (r: (
        Result<usize, T>,
        Option<usize>,
    ))
        requires
            old(self).inv(),
            0 <= start < old(self)@.len(),
            old(self)@[start as int].live,
            old(self)@[tail_of(old(self)@, start as int)].len <= ref_index ==> push_fits::<T>(
                old(self)@,
                start as int,
            ),
        ensures
            final(self).inv(),
            ({
                let m = old(self)@;
                let t = tail_of(m, start as int);
                if m[t].len <= ref_index {
                    &&& r.0 == Ok::<usize, T>(m[t].len as usize)
                    &&& if m[t].len < m[t].cap {
                        final(self)@ =~= spec_commit(m, t, item)
                    } else {
                        final(self)@ =~= spec_grow(m, t, item)
                    }
                } else {
                    &&& r.0 == Err::<usize, T>(item)
                    &&& final(self)@ == m
                }
            }),
            ({
                let m = old(self)@;
                let t = tail_of(m, start as int);
                r.1 == (if m[t].len <= ref_index && m[t].len >= m[t].cap {
                    Some(m.len() as usize)
                } else if t == start as int {
                    None::<usize>
                } else {
                    Some(t as usize)
                })
            }),
    {
        let ghost m = old(self)@;
        let ghost si = start as int;
        proof {
            lemma_tail(m, si);
        }
        let t = find_tail(self, start);
        let ghost ti = t as int;
        let w = self.nodes[t].len_word;
        proof {
            assert(self.nodes@[ti].packed_ok());
            lemma_packed_word(w);
            assert(gen_ok(m, ti));
        }
        if has_forward_or_lock(w) {
            // the tail carries no flags; unreachable with the heap held
            proof {
                assert(false);
            }
            (Err(item), None)
        } else {
            let len = get_len(w);
            let ghost adopt = (if ti == si {
                None::<usize>
            } else {
                Some(t)
            });
            if len > ref_index {
                if t == start {
                    (Err(item), None)
                } else {
                    (Err(item), Some(t))
                }
            } else {
                let new_len = len + 1;
                proof {
                    lemma_mask_bounds();
                    lemma_packed_word(new_len);
                }
                let cap = self.nodes[t].cap;
                if new_len > cap {
                    // grow: freeze the tail and move its payload into a
                    // fresh successor holding the new element
                    let elem_size = core::mem::size_of::<T>();
                    let n_cap_0 = if cap * 2 >= new_len {
                        cap * 2
                    } else {
                        new_len
                    };
                    let min_non_zero_cap: usize = if elem_size == 1 {
                        8
                    } else if elem_size <= 1024 {
                        4
                    } else {
                        1
                    };
                    let n_cap = if min_non_zero_cap >= n_cap_0 {
                        min_non_zero_cap
                    } else {
                        n_cap_0
                    };
                    proof {
                        assert(n_cap as nat == spec_grown_cap::<T>(m[ti].cap, m[ti].len + 1));
                    }
                    let layout = get_layout::<T>(n_cap);
                    let mut moved: Vec<T> = Vec::new();
                    core::mem::swap(&mut self.nodes[t].data, &mut moved);
                    moved.push(item);
                    let new_id = self.nodes.len();
                    self.nodes.push(
                        LogNode {
                            count: 1,
                            cap: n_cap,
                            len_word: new_len,
                            forward: None,
                            data: moved,
                            live: true,
                            layout,
                        },
                    );
                    let n = &mut self.nodes[t];
                    n.forward = Some(new_id);
                    n.len_word = add_forward_to_len(len);
                    proof {
                        lemma_grow_ok(m, ti, item);
                        assert(self@ =~= spec_grow(m, ti, item));
                        assert forall|i: int|
                            0 <= i < self.nodes@.len() implies (#[trigger] self.nodes@[i]).packed_ok() by {
                            if i < m.len() && i != ti {
                                assert(old(self).nodes@[i].packed_ok());
                            }
                        }
                    }
                    (Ok(len), Some(new_id))
                } else {
                    // in place: take the writer lock, publish the element,
                    // release the lock by storing the new length
                    let n = &mut self.nodes[t];
                    n.len_word = lock_len(n.len_word);
                    n.data.push(item);
                    n.len_word = new_len;
                    proof {
                        lemma_commit_ok(m, ti, item);
                        assert(self@ =~= spec_commit(m, ti, item));
                        assert forall|i: int|
                            0 <= i < self.nodes@.len() implies (#[trigger] self.nodes@[i]).packed_ok() by {
                            if i != ti {
                                assert(old(self).nodes@[i].packed_ok());
                            }
                        }
                    }
                    if t == start {
                        (Ok(len), None)
                    } else {
                        (Ok(len), Some(t))
                    }
                }
            }
        }
    }
}

impl<T> LogHeap<T> {
    /// Retrying append: attempts repeat until one decides. An attempt can
    /// only lose the packed word's compare-exchange to a concurrent writer,
    /// and the heap is held exclusively here, so the first attempt decides
    /// and the policies coincide.
    fn alloc_items(&mut self, start: usize, item: T, ref_index: usize) -> (r: (
        Result<usize, T>,
        Option<usize>,
    ))
        requires
            old(self).inv(),
            0 <= start < old(self)@.len(),
            old(self)@[start as int].live,
            old(self)@[tail_of(old(self)@, start as int)].len <= ref_index ==> push_fits::<T>(
                old(self)@,
                start as int,
            ),
        ensures
            final(self).inv(),
            ({
                let m = old(self)@;
                let t = tail_of(m, start as int);
                if m[t].len <= ref_index {
                    &&& r.0 == Ok::<usize, T>(m[t].len as usize)
                    &&& if m[t].len < m[t].cap {
                        final(self)@ =~= spec_commit(m, t, item)
                    } else {
                        final(self)@ =~= spec_grow(m, t, item)
                    }
                } else {
                    &&& r.0 == Err::<usize, T>(item)
                    &&& final(self)@ == m
                }
            }),
            ({
                let m = old(self)@;
                let t = tail_of(m, start as int);
                r.1 == (if m[t].len <= ref_index && m[t].len >= m[t].cap {
                    Some(m.len() as usize)
                } else if t == start as int {
                    None::<usize>
                } else {
                    Some(t as usize)
                })
            }),
    {
        self.alloc_items_one_shot(start, item, ref_index)
    }
}

/// Committing in place at a live tail with room keeps the heap well-formed.
pub proof fn lemma_commit_ok<T>(m: Seq<GenModel<T>>, t: int, v: T)
    requires
        wf_log(m),
        0 <= t < m.len(),
        m[t].live,
        m[t].forward is None,
        m[t].len < m[t].cap,
        m[t].len + 1 <= LEN_MASK,
    ensures
        wf_log(spec_commit(m, t, v)),
        gen_view(spec_commit(m, t, v), t) == gen_view(m, t).push(v),
{
    let r = spec_commit(m, t, v);
    assert(gen_ok(m, t));
    assert forall|i: int| 0 <= i < r.len() implies #[trigger] gen_ok(r, i) by {
        assert(gen_ok(m, i));
    }
    assert forall|a: int, b: int|
        0 <= a < r.len() && 0 <= b < r.len() && r[a].forward is Some && r[a].forward
            == r[b].forward implies a == b by {
        assert(m[a].forward == r[a].forward && m[b].forward == r[b].forward);
    }
    lemma_tail_congruence(m, r, t);
    lemma_tail(m, t);
    assert(gen_view(r, t) =~= gen_view(m, t).push(v));
}

/// Growing at a live, full tail keeps the heap well-formed; the fresh
/// successor presents the old values followed by the new one.
pub proof fn lemma_grow_ok<T>(m: Seq<GenModel<T>>, t: int, v: T)
    requires
        wf_log(m),
        0 <= t < m.len(),
        m[t].live,
        m[t].forward is None,
        m[t].len + 1 <= LEN_MASK,
        m[t].len + 1 > m[t].cap,
    ensures
        wf_log(spec_grow(m, t, v)),
        ({
            let r = spec_grow(m, t, v);
            let f = m.len() as int;
            &&& r.len() == m.len() + 1
            &&& r[f].live && r[f].forward is None && r[f].count == 1
            &&& r[f].len == m[t].len + 1
            &&& gen_view(r, f) == gen_view(m, t).push(v)
            &&& gen_view(r, t) == gen_view(m, t)
            &&& tail_of(r, t) == f
            &&& !has_live_pred(r, f) || is_pred(r, t, f)
            &&& forall|i: int| 0 <= i < m.len() && i != t ==> r[i] == m[i]
            &&& r[t] == (GenModel { forward: Some(f), vals: Seq::<T>::empty(), ..m[t] })
        }),
{
    let r = spec_grow(m, t, v);
    let f = m.len() as int;
    assert(gen_ok(m, t));
    lemma_mask_bounds();
    assert(vstd::layout::size_of::<T>() != 0);
    lemma_tail(m, t);
    assert forall|i: int| 0 <= i < r.len() implies #[trigger] gen_ok(r, i) by {
        if i < m.len() {
            assert(gen_ok(m, i));
        }
    }
    assert forall|a: int, b: int|
        0 <= a < r.len() && 0 <= b < r.len() && r[a].forward is Some && r[a].forward
            == r[b].forward implies a == b by {
        if a < m.len() && b < m.len() && a != t && b != t {
            assert(m[a].forward == r[a].forward && m[b].forward == r[b].forward);
        } else if a < m.len() && b < m.len() {
            // one of them is the frozen tail; the other cannot name the
            // fresh block, whose address is past every old target
            if a == t && b != t {
                assert(gen_ok(m, b));
            }
            if b == t && a != t {
                assert(gen_ok(m, a));
            }
        }
    }
    assert(gen_view(r, f) =~= gen_view(m, t).push(v));
    assert(gen_view(r, t) =~= gen_view(m, t));
}

/// Walk the forward pointers from `start` to the chain's tail.
fn find_tail<T>(heap: &LogHeap<T>, start: usize) -> (t: usize)
    requires
        heap.inv(),
        0 <= start < heap@.len(),
    ensures
        t as int == tail_of(heap@, start as int),
        0 <= t < heap@.len(),
{
    let ghost m = heap@;
    let mut cur = start;
    loop
        invariant
            heap.inv(),
            m == heap@,
            0 <= cur < m.len(),
            tail_of(m, cur as int) == tail_of(m, start as int),
        decreases m.len() - cur,
    {
        match heap.nodes[cur].forward {
            Some(j) => {
                proof {
                    assert(gen_ok(m, cur as int));
                }
                cur = j;
            },
            None => {
                return cur;
            },
        }
    }
}

/// Release one reference on generation `g`: the standard atomic-refcount
/// discipline, with reclamation cascading along the forward chain.
fn drop_ref<T>(heap: &mut LogHeap<T>, g: usize)
    requires
        old(heap).inv(),
        0 <= g < old(heap)@.len(),
        old(heap)@[g as int].live,
        old(heap)@[g as int].count >= 1 + (if has_live_pred(old(heap)@, g as int) {
            1nat
        } else {
            0nat
        }),
    ensures
        final(heap).inv(),
        final(heap)@ =~= spec_release(old(heap)@, g as int),
    decreases old(heap)@.len() - g,
{
    proof {
        lemma_release(old(heap)@, g as int);
    }
    let prev = heap.nodes[g].count;
    if prev != 1 {
        let n = &mut heap.nodes[g];
        n.count = n.count - 1;
        proof {
            assert(heap@ =~= spec_release(old(heap)@, g as int));
        }
    } else {
        // last reference: reclaim this generation and release the chain
        let cap = heap.nodes[g].cap;
        let fwd = heap.nodes[g].forward;
        proof {
            assert(old(heap).nodes@[g as int].packed_ok());
            lemma_dealloc_step(old(heap)@, g as int);
        }
        let layout = get_layout::<T>(cap);
        heap.dealloc_gen(g, layout);
        match fwd {
            Some(j) => {
                proof {
                    assert(gen_ok(old(heap)@, g as int));
                }
                drop_ref(heap, j);
                proof {
                    assert(final(heap)@ =~= spec_release(old(heap)@, g as int));
                }
            },
            None => {
                proof {
                    assert(heap@ =~= spec_release(old(heap)@, g as int));
                }
            },
        }
    }
}

impl<T> LogHeap<T> {
    /// Return generation `g`'s block to the allocator: the caller hands back
    /// the layout the block was allocated with, and may only free a block
    /// whose last reference is being released.
    fn dealloc_gen(&mut self, g: usize, layout: BlockLayout)
        requires
            old(self).inv(),
            0 <= g < old(self)@.len(),
            old(self)@[g as int].live,
            old(self)@[g as int].count == 1,
            !has_live_pred(old(self)@, g as int),
            layout == old(self).nodes@[g as int].layout,
        ensures
            final(self).inv(),
            final(self)@ =~= old(self)@.update(g as int, spec_dead(old(self)@[g as int])),
    {
        proof {
            lemma_dealloc_step(old(self)@, g as int);
        }
        let n = &mut self.nodes[g];
        n.count = 0;
        n.live = false;
        n.data = Vec::new();
        proof {
            assert(self@ =~= old(self)@.update(g as int, spec_dead(old(self)@[g as int])));
            assert forall|i: int|
                0 <= i < self.nodes@.len() implies (#[trigger] self.nodes@[i]).packed_ok() by {
                assert(old(self).nodes@[i].packed_ok());
            }
        }
    }
}

// ------------------------------------------------------------------
// Laws of the append protocol.
// ------------------------------------------------------------------

/// Changing no liveness and no forward pointer changes no predecessors.
pub proof fn log_pred_congruence<T>(m: Seq<GenModel<T>>, r: Seq<GenModel<T>>)
    requires
        m.len() == r.len(),
        forall|i: int|
            0 <= i < m.len() ==> (#[trigger] r[i]).forward == m[i].forward && r[i].live
                == m[i].live,
    ensures
        forall|i: int| 0 <= i < m.len() ==> has_live_pred(r, i) == has_live_pred(m, i),
{
    assert forall|i: int|
        0 <= i < m.len() implies has_live_pred(r, i) == has_live_pred(m, i) by {
        if has_live_pred(r, i) {
            let p = choose|p: int| is_pred(r, p, i);
            assert(is_pred(m, p, i));
        }
        if has_live_pred(m, i) {
            let p = choose|p: int| is_pred(m, p, i);
            assert(is_pred(r, p, i));
        }
    }
}

/// The handle-side preconditions of one append.
pub open spec fn can_append<T>(m: Seq<GenModel<T>>, g: int) -> bool {
    &&& 0 <= g < m.len()
    &&& m[g].live
    &&& m[g].count >= 1 + (if has_live_pred(m, g) {
        1nat
    } else {
        0nat
    })
    &&& push_fits::<T>(m, g)
    &&& (tail_of(m, g) != g ==> m[tail_of(m, g)].count + 1 <= MAX_REF_COUNT)
}

/// One append: the handle ends at a live tail holding the old values
/// followed by the new one, and the assigned index is the old committed
/// length.
pub proof fn lemma_append_step<T>(m: Seq<GenModel<T>>, g: int, v: T)
    requires
        wf_log(m),
        can_append::<T>(m, g),
    ensures
        ({
            let t = tail_of(m, g);
            let m1 = spec_append(m, g, v).0;
            let g1 = spec_append(m, g, v).1;
            &&& wf_log(m1)
            &&& 0 <= g1 < m1.len()
            &&& m1[g1].live
            &&& m1[g1].count >= 1 + (if has_live_pred(m1, g1) {
                1nat
            } else {
                0nat
            })
            &&& m1[g1].forward is None
            &&& tail_of(m1, g1) == g1
            &&& m1[g1].len == m[t].len + 1
            &&& m1[g1].cap >= m1[g1].len
            &&& gen_view(m1, g1) == gen_view(m, t).push(v)
            &&& m.len() <= m1.len() <= m.len() + 1
            &&& (m1.len() == m.len() + 1 <==> m[t].len >= m[t].cap)
            &&& (m[t].len >= m[t].cap ==> m1[t].forward == Some(m.len() as int) && g1 == m.len())
            &&& (m[t].len < m[t].cap ==> m1[g1].cap == m[t].cap && g1 == t)
        }),
{
    let t = tail_of(m, g);
    let m1 = spec_append(m, g, v).0;
    let g1 = spec_append(m, g, v).1;
    lemma_tail(m, g);
    lemma_mask_bounds();
    assert(gen_ok(m, t));
    if m[t].len < m[t].cap {
        lemma_commit_ok(m, t, v);
        let mc = spec_commit(m, t, v);
        lemma_tail_congruence(m, mc, t);
        lemma_tail(mc, t);
        if t == g {
            assert(m1 == mc && g1 == t);
            log_pred_congruence(m, mc);
        } else {
            lemma_acquire(mc, t);
            let ma = spec_acquire(mc, t);
            log_pred_congruence(m, mc);
            log_pred_congruence(mc, ma);
            assert(ma[g] == m[g]);
            lemma_release(ma, g);
            let r = spec_release(ma, g);
            assert(m1 == r && g1 == t);
            assert(r[t].count >= ma[t].count - 1 >= m[t].count);
            assert(m[t].count >= 1);
            assert(gen_ok(r, t));
            assert(r[t].live);
            if r[t].count < ma[t].count {
                assert(!has_live_pred(r, t));
            } else {
                assert(r[t].count >= 2);
            }
            assert(gen_view(ma, t) == gen_view(mc, t)) by {
                lemma_tail_congruence(mc, ma, t);
                lemma_tail(ma, t);
            }
            assert(gen_view(r, t) == gen_view(ma, t));
            lemma_tail(r, t);
        }
    } else {
        lemma_grow_ok(m, t, v);
        let mg = spec_grow(m, t, v);
        let f = m.len() as int;
        lemma_acquire(mg, f);
        let ma = spec_acquire(mg, f);
        assert(ma[g] == m[g] || g == t);
        assert(ma[g].count == m[g].count && ma[g].live);
        assert forall|p: int| is_pred(ma, p, g) implies is_pred(m, p, g) by {
            if p == t {
                assert(m[t].forward is None);
                assert(ma[p].forward == Some(f));
            }
        }
        assert forall|p: int| is_pred(m, p, g) implies is_pred(ma, p, g) by {
            if p == t {
                assert(m[t].forward is None);
            }
        }
        lemma_release(ma, g);
        let r = spec_release(ma, g);
        assert(m1 == r && g1 == f);
        assert(r[f].count >= ma[f].count - 1 >= 1);
        assert(gen_ok(r, f));
        assert(r[f].live);
        if r[f].count < ma[f].count {
            assert(!has_live_pred(r, f));
        } else {
            assert(r[f].count >= 2);
        }
        assert(gen_view(ma, f) == gen_view(mg, f)) by {
            lemma_tail_congruence(mg, ma, f);
            lemma_tail(mg, f);
            lemma_tail(ma, f);
        }
        assert(gen_view(r, f) == gen_view(ma, f));
        lemma_tail(r, f);
    }
}

/// The indices a run of appends hands out: each is the committed length the
/// tail had when its element went in.
pub open spec fn append_indices<T>(m: Seq<GenModel<T>>, g: int, vs: Seq<T>) -> Seq<int>
    decreases vs.len(),
{
    if vs.len() == 0 {
        Seq::empty()
    } else {
        let idx = m[tail_of(m, g)].len as int;
        let m1 = spec_append(m, g, vs[0]).0;
        let g1 = spec_append(m, g, vs[0]).1;
        seq![idx] + append_indices(m1, g1, vs.drop_first())
    }
}

/// The model and handle after a run of appends.
pub open spec fn spec_append_all<T>(m: Seq<GenModel<T>>, g: int, vs: Seq<T>) -> (
    Seq<GenModel<T>>,
    int,
)
    decreases vs.len(),
{
    if vs.len() == 0 {
        (m, g)
    } else {
        let m1 = spec_append(m, g, vs[0]).0;
        let g1 = spec_append(m, g, vs[0]).1;
        spec_append_all(m1, g1, vs.drop_first())
    }
}

/// Every step of the run can be taken.
pub open spec fn can_append_all<T>(m: Seq<GenModel<T>>, g: int, vs: Seq<T>) -> bool
    decreases vs.len(),
{
    vs.len() == 0 || {
        &&& can_append::<T>(m, g)
        &&& can_append_all(
            spec_append(m, g, vs[0]).0,
            spec_append(m, g, vs[0]).1,
            vs.drop_first(),
        )
    }
}

/// After `k` successful appends, the handle reads the old values followed by
/// the appended ones in order, the tail's committed length has grown by
/// exactly `k`, and the run handed out exactly the indices from the old
/// length upward, one each: every index names the value whose append
/// returned it.
pub proof fn lemma_append_run<T>(m: Seq<GenModel<T>>, g: int, vs: Seq<T>)
    requires
        wf_log(m),
        0 <= g < m.len(),
        m[g].live,
        m[g].forward is None,
        can_append_all::<T>(m, g, vs),
    ensures
        ({
            let t = tail_of(m, g);
            let mk = spec_append_all(m, g, vs).0;
            let gk = spec_append_all(m, g, vs).1;
            let idxs = append_indices(m, g, vs);
            &&& wf_log(mk)
            &&& 0 <= gk < mk.len() && mk[gk].live
            &&& gen_view(mk, gk) == gen_view(m, t) + vs
            &&& mk[gk].len == m[t].len + vs.len()
            &&& idxs.len() == vs.len()
            &&& forall|i: int| 0 <= i < vs.len() ==> idxs[i] == m[t].len + i
            &&& forall|i: int| 0 <= i < vs.len() ==> gen_view(mk, gk)[idxs[i]] == vs[i]
        }),
    decreases vs.len(),
{
    let t = tail_of(m, g);
    lemma_tail(m, g);
    if vs.len() == 0 {
        assert(t == g);
        assert(gen_view(m, t) + vs =~= gen_view(m, t));
    } else {
        lemma_append_step(m, g, vs[0]);
        let m1 = spec_append(m, g, vs[0]).0;
        let g1 = spec_append(m, g, vs[0]).1;
        lemma_append_run(m1, g1, vs.drop_first());
        let mk = spec_append_all(m, g, vs).0;
        let gk = spec_append_all(m, g, vs).1;
        let idxs = append_indices(m, g, vs);
        assert(tail_of(m1, g1) == g1);
        assert(gen_view(mk, gk) == gen_view(m1, g1) + vs.drop_first());
        assert(gen_view(m1, g1) == gen_view(m, t).push(vs[0]));
        assert(gen_view(mk, gk) =~= gen_view(m, t) + vs) by {
            assert(gen_view(m, t).push(vs[0]) + vs.drop_first() =~= gen_view(m, t) + vs);
        }
        assert(mk[gk].len == m1[g1].len + vs.drop_first().len());
        assert(idxs =~= seq![m[t].len as int] + append_indices(m1, g1, vs.drop_first()));
        assert forall|i: int| 0 <= i < vs.len() implies idxs[i] == m[t].len + i by {
            if i > 0 {
                assert(append_indices(m1, g1, vs.drop_first())[i - 1] == m1[g1].len + (i - 1));
            }
        }
        assert(gen_view(mk, gk).len() == m[t].len + vs.len()) by {
            lemma_tail(mk, gk);
        }
    }
}

/// A reclaimed generation stays reclaimed: a release leaves every dead
/// generation exactly as it was, so each generation is deallocated at most
/// once; and a payload is dropped only when its own generation is reclaimed.
pub proof fn lemma_dealloc_once<T>(m: Seq<GenModel<T>>, g: int)
    requires
        wf_log(m),
        0 <= g < m.len(),
        m[g].live,
        m[g].count >= 1 + (if has_live_pred(m, g) {
            1nat
        } else {
            0nat
        }),
    ensures
        forall|i: int| 0 <= i < m.len() && !m[i].live ==> #[trigger] spec_release(m, g)[i] == m[i],
        forall|i: int|
            0 <= i < m.len() && (#[trigger] spec_release(m, g)[i]).vals != m[i].vals ==> m[i].live
                && !spec_release(m, g)[i].live,
    decreases m.len() - g,
{
    let r = spec_release(m, g);
    lemma_release(m, g);
    if m[g].count >= 2 {
    } else {
        lemma_dealloc_step(m, g);
        assert(gen_ok(m, g));
        let m1 = m.update(g, spec_dead(m[g]));
        match m[g].forward {
            Some(j) => {
                lemma_dealloc_once(m1, j);
                assert forall|i: int|
                    0 <= i < m.len() && !m[i].live implies #[trigger] r[i] == m[i] by {
                    assert(i != g);
                    assert(m1[i] == m[i] && !m1[i].live);
                    assert(spec_release(m1, j)[i] == m1[i]);
                }
            },
            None => {},
        }
    }
}

/// Taking `n` references and then releasing `k` of them, `k <= n`, leaves
/// the count higher by exactly `n - k`, and nothing else changed.
pub open spec fn spec_acquire_n<T>(m: Seq<GenModel<T>>, g: int, n: nat) -> Seq<GenModel<T>>
    decreases n,
{
    if n == 0 {
        m
    } else {
        spec_acquire_n(spec_acquire(m, g), g, (n - 1) as nat)
    }
}

/// `k` releases in a row on the same generation.
pub open spec fn spec_release_n<T>(m: Seq<GenModel<T>>, g: int, k: nat) -> Seq<GenModel<T>>
    decreases k,
{
    if k == 0 {
        m
    } else {
        spec_release_n(spec_release(m, g), g, (k - 1) as nat)
    }
}

/// Cloning a handle `n` times and dropping `k <= n` of the clones leaves the
/// generation's count at the original plus `n - k`; no other generation is
/// touched.
pub proof fn lemma_clone_drop_counts<T>(m: Seq<GenModel<T>>, g: int, n: nat, k: nat)
    requires
        wf_log(m),
        0 <= g < m.len(),
        m[g].live,
        k <= n,
        m[g].count + n <= MAX_REF_COUNT,
    ensures
        ({
            let r = spec_release_n(spec_acquire_n(m, g, n), g, k);
            &&& wf_log(r)
            &&& r.len() == m.len()
            &&& r[g].count == m[g].count + n - k
            &&& r[g].live
            &&& forall|i: int| 0 <= i < m.len() && i != g ==> #[trigger] r[i] == m[i]
        }),
    decreases n + k,
{
    if n == 0 && k == 0 {
    } else if k > 0 {
        // peel one release off the end
        lemma_clone_drop_counts(m, g, n, (k - 1) as nat);
        let r1 = spec_release_n(spec_acquire_n(m, g, n), g, (k - 1) as nat);
        assert(gen_ok(m, g));
        assert(m[g].count >= 1);
        assert(r1[g].count == m[g].count + n - (k - 1));
        assert(r1[g].count >= 2);
        lemma_release_dec_only(r1, g);
        lemma_release_n_unfold(spec_acquire_n(m, g, n), g, k);
    } else {
        lemma_clone_drop_counts(m, g, (n - 1) as nat, 0);
        let r1 = spec_acquire_n(m, g, (n - 1) as nat);
        lemma_acquire(r1, g);
        lemma_acquire_n_unfold(m, g, n);
    }
}

/// A release on a generation with other references outstanding is a pure
/// decrement.
proof fn lemma_release_dec_only<T>(m: Seq<GenModel<T>>, g: int)
    requires
        wf_log(m),
        0 <= g < m.len(),
        m[g].count >= 2,
    ensures
        spec_release(m, g) == m.update(
            g,
            (GenModel { count: (m[g].count - 1) as nat, ..m[g] }),
        ),
        wf_log(spec_release(m, g)),
    decreases 0int,
{
    let r = spec_release(m, g);
    assert forall|i: int| 0 <= i < r.len() implies #[trigger] gen_ok(r, i) by {
        assert(gen_ok(m, i));
    }
    assert forall|a: int, b: int|
        0 <= a < r.len() && 0 <= b < r.len() && r[a].forward is Some && r[a].forward
            == r[b].forward implies a == b by {
        assert(m[a].forward == r[a].forward && m[b].forward == r[b].forward);
    }
}

/// `n` acquisitions are the same as `n - 1` followed by one.
proof fn lemma_acquire_n_unfold<T>(m: Seq<GenModel<T>>, g: int, n: nat)
    requires
        n > 0,
    ensures
        spec_acquire_n(m, g, n) == spec_acquire(spec_acquire_n(m, g, (n - 1) as nat), g),
    decreases n,
{
    let m1 = spec_acquire(m, g);
    assert(spec_acquire_n(m, g, n) == spec_acquire_n(m1, g, (n - 1) as nat));
    if n == 1 {
        assert(spec_acquire_n(m1, g, 0) == m1);
        assert(spec_acquire_n(m, g, 0) == m);
    } else {
        lemma_acquire_n_unfold(m1, g, (n - 1) as nat);
        assert(spec_acquire_n(m, g, (n - 1) as nat) == spec_acquire_n(m1, g, (n - 2) as nat));
    }
}

/// `k` releases are the same as `k - 1` followed by one.
proof fn lemma_release_n_unfold<T>(m: Seq<GenModel<T>>, g: int, k: nat)
    requires
        k > 0,
    ensures
        spec_release_n(m, g, k) == spec_release(spec_release_n(m, g, (k - 1) as nat), g),
    decreases k,
{
    let m1 = spec_release(m, g);
    assert(spec_release_n(m, g, k) == spec_release_n(m1, g, (k - 1) as nat));
    if k == 1 {
        assert(spec_release_n(m1, g, 0) == m1);
        assert(spec_release_n(m, g, 0) == m);
    } else {
        lemma_release_n_unfold(m1, g, (k - 1) as nat);
        assert(spec_release_n(m, g, (k - 1) as nat) == spec_release_n(m1, g, (k - 2) as nat));
    }
}

/// Adopting the tail settles a handle: the generation it ends on has no
/// forward pointer, so a second adoption with no intervening growth changes
/// nothing and reports no advance.
pub proof fn lemma_update_settles<T>(m: Seq<GenModel<T>>, g: int)
    requires
        wf_log(m),
        0 <= g < m.len(),
        m[g].live,
        m[g].count >= 1 + (if has_live_pred(m, g) {
            1nat
        } else {
            0nat
        }),
        m[tail_of(m, g)].count + 1 <= MAX_REF_COUNT,
    ensures
        spec_adopt(m, g).len() == m.len(),
        ({
            let t = tail_of(m, g);
            &&& spec_adopt(m, g)[t].forward is None
            &&& tail_of(spec_adopt(m, g), t) == t
            &&& spec_adopt(spec_adopt(m, g), t) == spec_adopt(m, g)
        }),
{
    let t = tail_of(m, g);
    lemma_tail(m, g);
    let r = spec_adopt(m, g);
    if t == g {
    } else {
        lemma_acquire(m, t);
        let ma = spec_acquire(m, t);
        assert(ma[g] == m[g]);
        log_pred_congruence(m, ma);
        lemma_release(ma, g);
    }
    assert(r[t].forward == m[t].forward);
}

/// Appending to a zero-capacity generation allocates a forward generation:
/// the handle's old tail freezes with a forward pointer to a fresh block.
pub proof fn lemma_zero_capacity_append_forwards<T>(m: Seq<GenModel<T>>, g: int, v: T)
    requires
        wf_log(m),
        can_append::<T>(m, g),
        m[tail_of(m, g)].cap == 0,
    ensures
        spec_append(m, g, v).0.len() == m.len() + 1,
        spec_append(m, g, v).0[tail_of(m, g)].forward == Some(m.len() as int),
        spec_append(m, g, v).1 == m.len(),
{
    let t = tail_of(m, g);
    lemma_tail(m, g);
    assert(gen_ok(m, t));
    lemma_append_step(m, g, v);
}

/// For a zero-sized element type, capacity is effectively unbounded: an
/// append commits in place and never installs a forward pointer.
pub proof fn lemma_zero_sized_never_forwards<T>(m: Seq<GenModel<T>>, g: int, v: T)
    requires
        wf_log(m),
        can_append::<T>(m, g),
        vstd::layout::size_of::<T>() == 0,
    ensures
        spec_append(m, g, v).0.len() == m.len(),
        spec_append(m, g, v).0[spec_append(m, g, v).1].forward is None,
        spec_append(m, g, v).0[spec_append(m, g, v).1].cap == LEN_MASK as nat,
{
    let t = tail_of(m, g);
    lemma_tail(m, g);
    lemma_mask_bounds();
    assert(gen_ok(m, t));
    assert(m[t].cap == LEN_MASK as nat);
    assert(m[t].len + 1 <= LEN_MASK);
    assert(m[t].len < m[t].cap);
    lemma_append_step(m, g, v);
}

/// `in_chain` also reads only the forward pointers.
pub proof fn lemma_in_chain_congruence<T>(
    m: Seq<GenModel<T>>,
    r: Seq<GenModel<T>>,
    g: int,
    i: int,
)
    requires
        m.len() == r.len(),
        forall|k: int| 0 <= k < m.len() ==> m[k].forward == r[k].forward,
    ensures
        in_chain(m, g, i) == in_chain(r, g, i),
    decreases m.len() - g,
{
    if 0 <= g < m.len() {
        match m[g].forward {
            Some(j) => {
                if g < j < m.len() {
                    lemma_in_chain_congruence(m, r, j, i);
                }
            },
            None => {},
        }
    }
}

} // verus!
