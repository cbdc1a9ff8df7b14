//! A pinned and an auto-advancing handle over a chain of replaceable values.
//!
//! `Ref` pins one generation: it always reads the value it was created or
//! cloned on. `UpdatingRef` follows the forward chain: installing a new value
//! with `update_to` extends the chain at its tail, and an updating handle
//! adopts the newest generation whenever it is consulted.

use crate::arc_log::{lemma_mask_bounds, MAX_REF_COUNT};
use core::marker::PhantomData;
use vstd::prelude::*;

verus! {

/// Ghost model of one generation: a reference count, a forward pointer
/// installed at most once, and the held value, dropped when the generation
/// is reclaimed.
#[verifier::ext_equal]
pub struct RefModel<T> {
    pub count: nat,
    pub forward: Option<int>,
    pub val: Option<T>,
    pub live: bool,
}

/// Well-formedness of one generation within the model `m`.
pub open spec fn ref_gen_ok<T>(m: Seq<RefModel<T>>, i: int) -> bool {
    let n = m[i];
    &&& n.count <= MAX_REF_COUNT as nat
    &&& (n.live <==> n.count >= 1)
    &&& (n.live <==> n.val is Some)
    &&& match n.forward {
        Some(j) => {
            &&& i < j < m.len()
            &&& (n.live ==> m[j].live)
        },
        None => true,
    }
}

/// `p` is the live predecessor of `i` on a chain.
pub open spec fn ref_is_pred<T>(m: Seq<RefModel<T>>, p: int, i: int) -> bool {
    &&& 0 <= p < m.len()
    &&& m[p].live
    &&& m[p].forward == Some(i)
}

/// Some live generation forwards to `i`.
pub open spec fn ref_has_live_pred<T>(m: Seq<RefModel<T>>, i: int) -> bool {
    exists|p: int| #[trigger] ref_is_pred(m, p, i)
}

/// No two generations forward to the same successor.
pub open spec fn ref_unique_preds<T>(m: Seq<RefModel<T>>) -> bool {
    forall|a: int, b: int|
        #![trigger m[a].forward, m[b].forward]
        0 <= a < m.len() && 0 <= b < m.len() && m[a].forward is Some && m[a].forward
            == m[b].forward ==> a == b
}

/// Well-formedness of the whole model.
pub open spec fn ref_wf<T>(m: Seq<RefModel<T>>) -> bool {
    &&& forall|i: int| 0 <= i < m.len() ==> #[trigger] ref_gen_ok(m, i)
    &&& ref_unique_preds(m)
}

/// Walk the forward chain from `i` to its end.
pub open spec fn ref_tail_of<T>(m: Seq<RefModel<T>>, i: int) -> int
    decreases m.len() - i,
{
    if 0 <= i < m.len() {
        match m[i].forward {
            Some(j) => if i < j < m.len() {
                ref_tail_of(m, j)
            } else {
                i
            },
            None => i,
        }
    } else {
        i
    }
}

/// The chain tail of a live generation is live and final.
pub proof fn ref_lemma_tail<T>(m: Seq<RefModel<T>>, i: int)
    requires
        ref_wf(m),
        0 <= i < m.len(),
        m[i].live,
    ensures
        i <= ref_tail_of(m, i) < m.len(),
        m[ref_tail_of(m, i)].live,
        m[ref_tail_of(m, i)].forward is None,
        m[i].forward is None ==> ref_tail_of(m, i) == i,
    decreases m.len() - i,
{
    assert(ref_gen_ok(m, i));
    match m[i].forward {
        Some(j) => {
            ref_lemma_tail(m, j);
        },
        None => {},
    }
}

/// `ref_tail_of` reads only the forward pointers.
pub proof fn ref_lemma_tail_congruence<T>(m: Seq<RefModel<T>>, r: Seq<RefModel<T>>, i: int)
    requires
        m.len() == r.len(),
        forall|k: int| 0 <= k < m.len() ==> m[k].forward == r[k].forward,
    ensures
        ref_tail_of(m, i) == ref_tail_of(r, i),
    decreases m.len() - i,
{
    if 0 <= i < m.len() {
        match m[i].forward {
            Some(j) => {
                if i < j < m.len() {
                    ref_lemma_tail_congruence(m, r, j);
                }
            },
            None => {},
        }
    }
}

// ------------------------------------------------------------------
// Model transitions.
// ------------------------------------------------------------------

/// The model after taking one more reference on `g`.
pub open spec fn ref_acquire<T>(m: Seq<RefModel<T>>, g: int) -> Seq<RefModel<T>> {
    m.update(g, RefModel { count: m[g].count + 1, ..m[g] })
}

/// A reclaimed generation: its value has been dropped.
pub open spec fn ref_dead<T>(n: RefModel<T>) -> RefModel<T> {
    RefModel { count: 0, live: false, val: None, ..n }
}

/// The model after releasing one reference on `g`: the last release drops
/// the value, frees the node, and releases the forward link in turn.
pub open spec fn ref_release<T>(m: Seq<RefModel<T>>, g: int) -> Seq<RefModel<T>>
    decreases m.len() - g,
{
    if 0 <= g < m.len() {
        if m[g].count >= 2 {
            m.update(g, RefModel { count: (m[g].count - 1) as nat, ..m[g] })
        } else {
            let m1 = m.update(g, ref_dead(m[g]));
            match m[g].forward {
                Some(j) => if g < j < m.len() {
                    ref_release(m1, j)
                } else {
                    m1
                },
                None => m1,
            }
        }
    } else {
        m
    }
}

/// The model after installing a fresh generation holding `v` behind tail `t`.
/// The fresh generation's single reference is the forward link.
pub open spec fn ref_install<T>(m: Seq<RefModel<T>>, t: int, v: T) -> Seq<RefModel<T>> {
    m.update(t, RefModel { forward: Some(m.len() as int), ..m[t] }).push(
        RefModel { count: 1, forward: None, val: Some(v), live: true },
    )
}

/// Acquiring preserves well-formedness and everything but the count.
pub proof fn ref_lemma_acquire<T>(m: Seq<RefModel<T>>, g: int)
    requires
        ref_wf(m),
        0 <= g < m.len(),
        m[g].live,
        m[g].count + 1 <= MAX_REF_COUNT,
    ensures
        ref_wf(ref_acquire(m, g)),
        ref_acquire(m, g).len() == m.len(),
        forall|i: int| 0 <= i < m.len() && i != g ==> ref_acquire(m, g)[i] == m[i],
        ref_acquire(m, g)[g] == (RefModel { count: m[g].count + 1, ..m[g] }),
{
    let r = ref_acquire(m, g);
    assert forall|i: int| 0 <= i < r.len() implies #[trigger] ref_gen_ok(r, i) by {
        assert(ref_gen_ok(m, i));
    }
    assert forall|a: int, b: int|
        0 <= a < r.len() && 0 <= b < r.len() && r[a].forward is Some && r[a].forward
            == r[b].forward implies a == b by {
        assert(m[a].forward == r[a].forward && m[b].forward == r[b].forward);
    }
}

/// Reclaiming a generation whose last reference is gone keeps the model
/// well-formed; its successor still carries the forward link's reference.
pub proof fn ref_lemma_dead_step<T>(m: Seq<RefModel<T>>, g: int)
    requires
        ref_wf(m),
        0 <= g < m.len(),
        m[g].live,
        m[g].count == 1,
        !ref_has_live_pred(m, g),
    ensures
        ref_wf(m.update(g, ref_dead(m[g]))),
        m[g].forward is Some ==> {
            let m1 = m.update(g, ref_dead(m[g]));
            let j = m[g].forward.unwrap();
            &&& m1[j] == m[j]
            &&& m[j].live
            &&& m[j].count >= 1
            &&& !ref_has_live_pred(m1, j)
        },
{
    let m1 = m.update(g, ref_dead(m[g]));
    assert(ref_gen_ok(m, g));
    assert forall|i: int| 0 <= i < m1.len() implies #[trigger] ref_gen_ok(m1, i) by {
        assert(ref_gen_ok(m, i));
        if i != g && m1[i].forward == Some(g) && m1[i].live {
            assert(ref_is_pred(m, i, g));
        }
    }
    assert forall|a: int, b: int|
        0 <= a < m1.len() && 0 <= b < m1.len() && m1[a].forward is Some && m1[a].forward
            == m1[b].forward implies a == b by {
        assert(m[a].forward == m1[a].forward && m[b].forward == m1[b].forward);
    }
    if m[g].forward is Some {
        let j = m[g].forward.unwrap();
        assert(ref_gen_ok(m, j));
        assert(m1[j] == m[j]);
        if ref_has_live_pred(m1, j) {
            let p = choose|p: int| ref_is_pred(m1, p, j);
            assert(m1[p].live && p != g);
            assert(m[p].forward == Some(j) && m[g].forward == Some(j));
            assert(p == g);
        }
    }
}

/// What one release does: counts fall by at most one, forward pointers are
/// untouched, dead generations stay dead, and survivors keep their values.
pub proof fn ref_lemma_release<T>(m: Seq<RefModel<T>>, g: int)
    requires
        ref_wf(m),
        0 <= g < m.len(),
        m[g].live,
        m[g].count >= 1 + (if ref_has_live_pred(m, g) {
            1nat
        } else {
            0nat
        }),
    ensures
        ({
            let r = ref_release(m, g);
            &&& r.len() == m.len()
            &&& ref_wf(r)
            &&& forall|i: int| 0 <= i < m.len() ==> (#[trigger] r[i]).forward == m[i].forward
            &&& forall|i: int|
                0 <= i < m.len() && (#[trigger] r[i]).live ==> m[i].live && r[i].val == m[i].val
            &&& forall|i: int|
                0 <= i < m.len() ==> m[i].count - 1 <= (#[trigger] r[i]).count <= m[i].count
            &&& r[g].count == m[g].count - 1
            &&& forall|i: int|
                0 <= i < m.len() && i != g && (#[trigger] r[i]).count < m[i].count && r[i].live
                    ==> !ref_has_live_pred(r, i)
        }),
    decreases m.len() - g,
{
    let r = ref_release(m, g);
    if m[g].count >= 2 {
        assert forall|i: int| 0 <= i < r.len() implies #[trigger] ref_gen_ok(r, i) by {
            assert(ref_gen_ok(m, i));
        }
        assert forall|a: int, b: int|
            0 <= a < r.len() && 0 <= b < r.len() && r[a].forward is Some && r[a].forward
                == r[b].forward implies a == b by {
            assert(m[a].forward == r[a].forward && m[b].forward == r[b].forward);
        }
    } else {
        ref_lemma_dead_step(m, g);
        assert(ref_gen_ok(m, g));
        let m1 = m.update(g, ref_dead(m[g]));
        match m[g].forward {
            Some(j) => {
                assert(g < j < m.len());
                assert(!ref_has_live_pred(m1, j) && m1[j].live && m1[j].count >= 1);
                ref_lemma_release(m1, j);
                let rr = ref_release(m1, j);
                assert(r =~= rr);
                assert forall|i: int|
                    0 <= i < m.len() && (#[trigger] r[i]).live implies m[i].live && r[i].val
                    == m[i].val by {
                    assert(m1[i].live ==> m[i].live && m1[i].val == m[i].val);
                }
                assert forall|i: int|
                    0 <= i < m.len() && i != g && (#[trigger] r[i]).count < m[i].count && r[i].live
                    implies !ref_has_live_pred(r, i) by {
                    if r[i].count >= m1[i].count {
                        assert(i == g);
                    }
                    if ref_has_live_pred(r, i) {
                        let p = choose|p: int| ref_is_pred(r, p, i);
                        assert(ref_is_pred(m1, p, i) || !r[p].live);
                    }
                }
            },
            None => {},
        }
    }
}

// ------------------------------------------------------------------
// The concrete heap and the handles.
// ------------------------------------------------------------------

/// One generation as stored.
struct RefNode<T> {
    count: usize,
    forward: Option<usize>,
    data: Option<T>,
    live: bool,
}

impl<T> RefNode<T> {
    spec fn model(self) -> RefModel<T> {
        RefModel {
            count: self.count as nat,
            forward: match self.forward {
                Some(j) => Some(j as int),
                None => None,
            },
            val: self.data,
            live: self.live,
        }
    }
}

/// The memory the generations live in, addressed in allocation order.
pub struct RefHeap<T> {
    nodes: Vec<RefNode<T>>,
}

impl<T> View for RefHeap<T> {
    type V = Seq<RefModel<T>>;

    closed spec fn view(&self) -> Seq<RefModel<T>> {
        self.nodes@.map(|i: int, n: RefNode<T>| n.model())
    }
}

impl<T> RefHeap<T> {
    /// The heap invariant.
    pub closed spec fn inv(self) -> bool {
        ref_wf(self@)
    }

    /// A fresh, empty heap.
    pub fn new() -> (heap: RefHeap<T>)
        ensures
            heap.inv(),
            heap@ =~= Seq::<RefModel<T>>::empty(),
    {
        RefHeap { nodes: Vec::new() }
    }

    /// Allocate a root generation holding `data`.
    fn alloc_root(&mut self, data: T) -> (g: usize)
        requires
            old(self).inv(),
        ensures
            final(self).inv(),
            final(self)@ =~= old(self)@.push(
                RefModel { count: 1, forward: None, val: Some(data), live: true },
            ),
            g == old(self)@.len(),
    {
        let g = self.nodes.len();
        self.nodes.push(RefNode { count: 1, forward: None, data: Some(data), live: true });
        proof {
            lemma_mask_bounds();
            let m0 = old(self)@;
            let m1 = self@;
            assert(m1 =~= m0.push(RefModel { count: 1, forward: None, val: Some(data), live: true }));
            assert forall|i: int| 0 <= i < m1.len() implies #[trigger] ref_gen_ok(m1, i) by {
                if i < m0.len() {
                    assert(ref_gen_ok(m0, i));
                }
            }
        }
        g
    }
}

/// A generation address is a valid handle target: live, and its count covers
/// the handle's own reference beyond a possible forward link.
pub open spec fn ref_valid<T>(m: Seq<RefModel<T>>, g: int) -> bool {
    &&& 0 <= g < m.len()
    &&& m[g].live
    &&& m[g].count >= 1 + (if ref_has_live_pred(m, g) {
        1nat
    } else {
        0nat
    })
}

/// Release one reference on generation `g`, reclaiming along the chain.
fn ref_drop_ref<T>(heap: &mut RefHeap<T>, g: usize)
    requires
        old(heap).inv(),
        ref_valid(old(heap)@, g as int),
    ensures
        final(heap).inv(),
        final(heap)@ =~= ref_release(old(heap)@, g as int),
    decreases old(heap)@.len() - g,
{
    proof {
        ref_lemma_release(old(heap)@, g as int);
    }
    let prev = heap.nodes[g].count;
    if prev != 1 {
        let n = &mut heap.nodes[g];
        n.count = n.count - 1;
        proof {
            assert(heap@ =~= ref_release(old(heap)@, g as int));
        }
    } else {
        let fwd = heap.nodes[g].forward;
        proof {
            ref_lemma_dead_step(old(heap)@, g as int);
        }
        let n = &mut heap.nodes[g];
        n.count = 0;
        n.live = false;
        n.data = None;
        proof {
            assert(heap@ =~= old(heap)@.update(g as int, ref_dead(old(heap)@[g as int])));
        }
        match fwd {
            Some(j) => {
                proof {
                    assert(ref_gen_ok(old(heap)@, g as int));
                }
                ref_drop_ref(heap, j);
                proof {
                    assert(final(heap)@ =~= ref_release(old(heap)@, g as int));
                }
            },
            None => {},
        }
    }
}

/// Walk the forward pointers from `start` to the chain's end.
fn ref_find_tail<T>(heap: &RefHeap<T>, start: usize) -> (t: usize)
    requires
        heap.inv(),
        0 <= start < heap@.len(),
    ensures
        t as int == ref_tail_of(heap@, start as int),
        0 <= t < heap@.len(),
{
    let ghost m = heap@;
    let mut cur = start;
    loop
        invariant
            heap.inv(),
            m == heap@,
            0 <= cur < m.len(),
            ref_tail_of(m, cur as int) == ref_tail_of(m, start as int),
        decreases m.len() - cur,
    {
        match heap.nodes[cur].forward {
            Some(j) => {
                proof {
                    assert(ref_gen_ok(m, cur as int));
                }
                cur = j;
            },
            None => {
                return cur;
            },
        }
    }
}

/// A pinned handle: it keeps one generation alive and always reads that
/// generation's value, however far the chain has grown past it.
pub struct Ref<T> {
    node: usize,
    marker: PhantomData<T>,
}

/// An updating handle: consulting it first walks the forward chain and
/// adopts the newest generation.
pub struct UpdatingRef<T> {
    node: usize,
    marker: PhantomData<T>,
}

impl<T> Ref<T> {
    /// The address of the generation this handle pins.
    pub closed spec fn id(self) -> int {
        self.node as int
    }

    /// The handle's reference is held by a live generation.
    pub open spec fn valid(self, m: Seq<RefModel<T>>) -> bool {
        ref_valid(m, self.id())
    }

    /// The value this handle reads.
    pub open spec fn value(self, m: Seq<RefModel<T>>) -> T
        recommends
            self.valid(m),
    {
        m[self.id()].val.unwrap()
    }

    /// A new chain rooted in a fresh generation holding `data`.
    pub fn new(data: T, heap: &mut RefHeap<T>) -> (h: Ref<T>)
        requires
            old(heap).inv(),
        ensures
            final(heap).inv(),
            final(heap)@ =~= old(heap)@.push(
                RefModel { count: 1, forward: None, val: Some(data), live: true },
            ),
            h.id() == old(heap)@.len(),
            h.valid(final(heap)@),
            h.value(final(heap)@) == data,
    {
        let g = heap.alloc_root(data);
        let h = Ref { node: g, marker: PhantomData };
        proof {
            ref_fresh_has_no_pred(old(heap)@, heap@, g as int);
        }
        h
    }

    /// Take one more reference on this handle's generation.
    pub fn clone_handle(&self, heap: &mut RefHeap<T>) -> (h: Ref<T>)
        requires
            old(heap).inv(),
            self.valid(old(heap)@),
            old(heap)@[self.id()].count + 1 <= MAX_REF_COUNT,
        ensures
            final(heap).inv(),
            final(heap)@ =~= ref_acquire(old(heap)@, self.id()),
            h.id() == self.id(),
            h.valid(final(heap)@),
            self.valid(final(heap)@),
            h.value(final(heap)@) == self.value(old(heap)@),
            final(heap)@[self.id()].count == old(heap)@[self.id()].count + 1,
    {
        proof {
            ref_lemma_acquire(old(heap)@, self.id());
        }
        let n = &mut heap.nodes[self.node];
        n.count = n.count + 1;
        proof {
            assert(heap@ =~= ref_acquire(old(heap)@, self.id()));
            ref_pred_congruence(old(heap)@, heap@, self.id());
        }
        Ref { node: self.node, marker: PhantomData }
    }

    /// Take one more reference and hand it out as an updating handle on the
    /// same generation.
    pub fn clone_to_updating(&self, heap: &mut RefHeap<T>) -> (h: UpdatingRef<T>)
        requires
            old(heap).inv(),
            self.valid(old(heap)@),
            old(heap)@[self.id()].count + 1 <= MAX_REF_COUNT,
        ensures
            final(heap).inv(),
            final(heap)@ =~= ref_acquire(old(heap)@, self.id()),
            h.id() == self.id(),
            h.valid(final(heap)@),
            self.valid(final(heap)@),
            final(heap)@[self.id()].count == old(heap)@[self.id()].count + 1,
    {
        proof {
            ref_lemma_acquire(old(heap)@, self.id());
        }
        let n = &mut heap.nodes[self.node];
        n.count = n.count + 1;
        proof {
            assert(heap@ =~= ref_acquire(old(heap)@, self.id()));
            ref_pred_congruence(old(heap)@, heap@, self.id());
        }
        UpdatingRef { node: self.node, marker: PhantomData }
    }

    /// The reference count of this handle's generation.
    pub fn ref_count(&self, heap: &RefHeap<T>) -> (n: usize)
        requires
            heap.inv(),
            self.valid(heap@),
        ensures
            n == heap@[self.id()].count,
    {
        heap.nodes[self.node].count
    }

    /// Read the pinned generation's value.
    pub fn read<'a>(&self, heap: &'a RefHeap<T>) -> (r: &'a T)
        requires
            heap.inv(),
            self.valid(heap@),
        ensures
            *r == self.value(heap@),
    {
        proof {
            assert(ref_gen_ok(heap@, self.id()));
        }
        match &heap.nodes[self.node].data {
            Some(v) => v,
            None => {
                proof {
                    assert(false);
                }
                vstd::pervasive::unreached()
            },
        }
    }

    /// Release this handle's reference.
    pub fn drop_handle(self, heap: &mut RefHeap<T>)
        requires
            old(heap).inv(),
            self.valid(old(heap)@),
        ensures
            final(heap).inv(),
            final(heap)@ =~= ref_release(old(heap)@, self.id()),
    {
        ref_drop_ref(heap, self.node);
    }
}

impl<T> UpdatingRef<T> {
    /// The address of the generation this handle currently references.
    pub closed spec fn id(self) -> int {
        self.node as int
    }

    /// The handle's reference is held by a live generation.
    pub open spec fn valid(self, m: Seq<RefModel<T>>) -> bool {
        ref_valid(m, self.id())
    }

    /// A new chain rooted in a fresh generation holding `data`.
    pub fn new(data: T, heap: &mut RefHeap<T>) -> (h: UpdatingRef<T>)
        requires
            old(heap).inv(),
        ensures
            final(heap).inv(),
            final(heap)@ =~= old(heap)@.push(
                RefModel { count: 1, forward: None, val: Some(data), live: true },
            ),
            h.id() == old(heap)@.len(),
            h.valid(final(heap)@),
    {
        let g = heap.alloc_root(data);
        let h = UpdatingRef { node: g, marker: PhantomData };
        proof {
            ref_fresh_has_no_pred(old(heap)@, heap@, g as int);
        }
        h
    }

    /// Install `data` as a fresh generation at the tail of this handle's
    /// chain. The handle itself is not advanced: it adopts the new value the
    /// next time it is consulted.
    pub fn update_to(&self, heap: &mut RefHeap<T>, data: T)
        requires
            old(heap).inv(),
            self.valid(old(heap)@),
        ensures
            final(heap).inv(),
            final(heap)@ =~= ref_install(
                old(heap)@,
                ref_tail_of(old(heap)@, self.id()),
                data,
            ),
            self.valid(final(heap)@),
            ref_tail_of(final(heap)@, self.id()) == old(heap)@.len(),
            final(heap)@[old(heap)@.len() as int].val == Some(data),
    {
        let ghost m = old(heap)@;
        let ghost gi = self.id();
        let ghost ti = ref_tail_of(m, gi);
        proof {
            ref_lemma_tail(m, gi);
        }
        let t = ref_find_tail(heap, self.node);
        let new_id = heap.nodes.len();
        heap.nodes.push(RefNode { count: 1, forward: None, data: Some(data), live: true });
        let n = &mut heap.nodes[t];
        n.forward = Some(new_id);
        proof {
            let m1 = heap@;
            assert(m1 =~= ref_install(m, ti, data));
            ref_lemma_install(m, ti, data);
            assert forall|p: int| ref_is_pred(m1, p, gi) implies ref_is_pred(m, p, gi) by {
                if p == ti {
                    assert(m[ti].forward is None);
                    assert(m1[ti].forward == Some(m.len() as int));
                }
            }
            assert forall|p: int| ref_is_pred(m, p, gi) implies ref_is_pred(m1, p, gi) by {
                if p == ti {
                    assert(m[ti].forward is None);
                }
            }
            ref_lemma_retail(m, m1, gi, ti, m.len() as int);
        }
    }

    /// Advance this handle to the newest generation of its chain, taking a
    /// reference on the tail and releasing the generation left behind.
    /// Reports whether an advance happened.
    fn follow_ptr(&mut self, heap: &mut RefHeap<T>) -> (advanced: bool)
        requires
            old(heap).inv(),
            old(self).valid(old(heap)@),
            old(heap)@[ref_tail_of(old(heap)@, old(self).id())].count + 1 <= MAX_REF_COUNT,
        ensures
            final(heap).inv(),
            advanced == (old(heap)@[old(self).id()].forward is Some),
            !advanced ==> final(heap)@ == old(heap)@ && final(self).id() == old(self).id(),
            advanced ==> final(self).id() == ref_tail_of(old(heap)@, old(self).id())
                && final(heap)@ =~= ref_release(
                ref_acquire(old(heap)@, ref_tail_of(old(heap)@, old(self).id())),
                old(self).id(),
            ),
            final(self).valid(final(heap)@),
            final(heap)@[final(self).id()].val == old(heap)@[ref_tail_of(
                old(heap)@,
                old(self).id(),
            )].val,
            final(heap)@[final(self).id()].forward is None,
            final(heap)@[final(self).id()].count <= old(heap)@[ref_tail_of(
                old(heap)@,
                old(self).id(),
            )].count + 1,
    {
        let ghost m = old(heap)@;
        let ghost gi = old(self).id();
        proof {
            ref_lemma_tail(m, gi);
        }
        let start = self.node;
        match heap.nodes[start].forward {
            None => false,
            Some(_) => {
                proof {
                    assert(ref_gen_ok(m, gi));
                    assert(m[gi].forward is Some);
                }
                let t = ref_find_tail(heap, start);
                let ghost ti = t as int;
                proof {
                    assert(ti != gi) by {
                        assert(m[ti].forward is None);
                    }
                    ref_lemma_acquire(m, ti);
                }
                let n = &mut heap.nodes[t];
                n.count = n.count + 1;
                let ghost ma = ref_acquire(m, ti);
                proof {
                    assert(heap@ =~= ma);
                    assert forall|p: int| ref_is_pred(ma, p, gi) implies ref_is_pred(m, p, gi) by {}
                    assert forall|p: int| ref_is_pred(m, p, gi) implies ref_is_pred(ma, p, gi) by {}
                    assert(ma[gi] == m[gi]);
                }
                let old_node = self.node;
                self.node = t;
                ref_drop_ref(heap, old_node);
                proof {
                    ref_lemma_release(ma, gi);
                    let r = ref_release(ma, gi);
                    assert(heap@ =~= r);
                    assert(ref_gen_ok(m, ti));
                    assert(m[ti].live && m[ti].count >= 1);
                    assert(ma[ti].count == m[ti].count + 1);
                    assert(r[ti].count >= ma[ti].count - 1);
                    assert(ref_gen_ok(r, ti));
                    assert(r[ti].live);
                    if r[ti].count < ma[ti].count {
                        assert(!ref_has_live_pred(r, ti));
                    } else {
                        assert(r[ti].count >= 2);
                    }
                }
                true
            },
        }
    }

    /// Take one more reference on the newest generation and hand it out as a
    /// pinned handle; the updating handle advances there first.
    pub fn clone_to_ref(&mut self, heap: &mut RefHeap<T>) -> (h: Ref<T>)
        requires
            old(heap).inv(),
            old(self).valid(old(heap)@),
            old(heap)@[ref_tail_of(old(heap)@, old(self).id())].count + 2 <= MAX_REF_COUNT,
        ensures
            final(heap).inv(),
            final(self).valid(final(heap)@),
            h.valid(final(heap)@),
            h.id() == final(self).id(),
            final(self).id() == ref_tail_of(old(heap)@, old(self).id()),
            h.value(final(heap)@) == old(heap)@[ref_tail_of(old(heap)@, old(self).id())].val.unwrap(),
    {
        let ghost m = old(heap)@;
        let ghost gi = old(self).id();
        let ghost ti = ref_tail_of(m, gi);
        proof {
            ref_lemma_tail(m, gi);
        }
        let advanced = self.follow_ptr(heap);
        proof {
            if !advanced {
                assert(ref_tail_of(m, gi) == gi);
            }
            assert(heap@[self.id()].count + 1 <= MAX_REF_COUNT);
        }
        let n = &mut heap.nodes[self.node];
        n.count = n.count + 1;
        proof {
            let mb = (if advanced {
                ref_release(ref_acquire(m, ti), gi)
            } else {
                m
            });
            assert(heap@ =~= ref_acquire(mb, self.id()));
            ref_lemma_acquire(mb, self.id());
            ref_pred_congruence(mb, heap@, self.id());
        }
        Ref { node: self.node, marker: PhantomData }
    }

    /// The newest generation's reference count; the handle advances there
    /// first.
    pub fn ref_count(&mut self, heap: &mut RefHeap<T>) -> (n: usize)
        requires
            old(heap).inv(),
            old(self).valid(old(heap)@),
            old(heap)@[ref_tail_of(old(heap)@, old(self).id())].count + 1 <= MAX_REF_COUNT,
        ensures
            final(heap).inv(),
            final(self).valid(final(heap)@),
            final(self).id() == ref_tail_of(old(heap)@, old(self).id()),
            n == final(heap)@[final(self).id()].count,
    {
        let ghost m = old(heap)@;
        let ghost gi = old(self).id();
        proof {
            ref_lemma_tail(m, gi);
        }
        let advanced = self.follow_ptr(heap);
        proof {
            if !advanced {
                assert(ref_tail_of(m, gi) == gi);
            }
        }
        heap.nodes[self.node].count
    }

    /// Read the newest generation's value; the handle advances there first.
    pub fn read<'a>(&mut self, heap: &'a mut RefHeap<T>) -> (r: &'a T)
        requires
            old(heap).inv(),
            old(self).valid(old(heap)@),
            old(heap)@[ref_tail_of(old(heap)@, old(self).id())].count + 1 <= MAX_REF_COUNT,
        ensures
            final(heap).inv(),
            final(self).valid(final(heap)@),
            final(self).id() == ref_tail_of(old(heap)@, old(self).id()),
            Some(*r) == old(heap)@[ref_tail_of(old(heap)@, old(self).id())].val,
    {
        let ghost m = old(heap)@;
        let ghost gi = old(self).id();
        proof {
            ref_lemma_tail(m, gi);
        }
        let advanced = self.follow_ptr(heap);
        proof {
            if !advanced {
                assert(ref_tail_of(m, gi) == gi);
            }
            assert(ref_gen_ok(heap@, self.id()));
        }
        match &heap.nodes[self.node].data {
            Some(v) => v,
            None => {
                proof {
                    assert(false);
                }
                vstd::pervasive::unreached()
            },
        }
    }

    /// Release this handle's reference.
    pub fn drop_handle(self, heap: &mut RefHeap<T>)
        requires
            old(heap).inv(),
            self.valid(old(heap)@),
        ensures
            final(heap).inv(),
            final(heap)@ =~= ref_release(old(heap)@, self.id()),
    {
        ref_drop_ref(heap, self.node);
    }
}

/// Installing a fresh generation at a tail keeps the model well-formed.
pub proof fn ref_lemma_install<T>(m: Seq<RefModel<T>>, t: int, v: T)
    requires
        ref_wf(m),
        0 <= t < m.len(),
        m[t].live,
        m[t].forward is None,
    ensures
        ref_wf(ref_install(m, t, v)),
        ({
            let r = ref_install(m, t, v);
            let f = m.len() as int;
            &&& r.len() == m.len() + 1
            &&& r[f].live && r[f].forward is None && r[f].count == 1 && r[f].val == Some(v)
            &&& forall|i: int| 0 <= i < m.len() && i != t ==> r[i] == m[i]
            &&& r[t] == (RefModel { forward: Some(f), ..m[t] })
        }),
{
    let r = ref_install(m, t, v);
    assert(ref_gen_ok(m, t));
    lemma_mask_bounds();
    assert forall|i: int| 0 <= i < r.len() implies #[trigger] ref_gen_ok(r, i) by {
        if i < m.len() {
            assert(ref_gen_ok(m, i));
        }
    }
    assert forall|a: int, b: int|
        0 <= a < r.len() && 0 <= b < r.len() && r[a].forward is Some && r[a].forward
            == r[b].forward implies a == b by {
        if a < m.len() && b < m.len() && a != t && b != t {
            assert(m[a].forward == r[a].forward && m[b].forward == r[b].forward);
        } else if a < m.len() && b < m.len() {
            if a == t && b != t {
                assert(ref_gen_ok(m, b));
            }
            if b == t && a != t {
                assert(ref_gen_ok(m, a));
            }
        }
    }
}

/// After an install at the old tail `t`, every generation whose chain ended
/// at `t` sees the fresh generation `f` as its new tail.
pub proof fn ref_lemma_retail<T>(m: Seq<RefModel<T>>, m1: Seq<RefModel<T>>, i: int, t: int, f: int)
    requires
        ref_wf(m),
        m1.len() == m.len() + 1,
        f == m.len(),
        0 <= i < m.len(),
        0 <= t < m.len(),
        forall|k: int| 0 <= k < m.len() && k != t ==> #[trigger] m1[k].forward == m[k].forward,
        m[t].forward is None,
        m1[t].forward == Some(f),
        m1[f].forward is None,
        ref_tail_of(m, i) == t,
    ensures
        ref_tail_of(m1, i) == f,
    decreases m.len() - i,
{
    if i == t {
        assert(ref_tail_of(m1, t) == ref_tail_of(m1, f));
    } else {
        assert(ref_gen_ok(m, i));
        match m[i].forward {
            Some(j) => {
                ref_lemma_retail(m, m1, j, t, f);
            },
            None => {
                assert(ref_tail_of(m, i) == i);
            },
        }
    }
}

/// A freshly pushed generation has no predecessor: every forward pointer of
/// the old model stays within the old model's range.
pub proof fn ref_fresh_has_no_pred<T>(m0: Seq<RefModel<T>>, m1: Seq<RefModel<T>>, g: int)
    requires
        ref_wf(m0),
        m1.len() == m0.len() + 1,
        g == m0.len(),
        forall|i: int| 0 <= i < m0.len() ==> #[trigger] m1[i].forward == m0[i].forward,
        m1[g].forward is None,
    ensures
        !ref_has_live_pred(m1, g),
{
    if ref_has_live_pred(m1, g) {
        let p = choose|p: int| ref_is_pred(m1, p, g);
        if p < m0.len() {
            assert(ref_gen_ok(m0, p));
        }
    }
}

/// Bumping a count changes no liveness and no forward pointer, so it changes
/// no predecessor relation.
pub proof fn ref_pred_congruence<T>(m: Seq<RefModel<T>>, r: Seq<RefModel<T>>, g: int)
    requires
        m.len() == r.len(),
        forall|i: int|
            0 <= i < m.len() ==> (#[trigger] r[i]).forward == m[i].forward && r[i].live
                == m[i].live,
    ensures
        forall|i: int| 0 <= i < m.len() ==> ref_has_live_pred(r, i) == ref_has_live_pred(m, i),
{
    assert forall|i: int|
        0 <= i < m.len() implies ref_has_live_pred(r, i) == ref_has_live_pred(m, i) by {
        if ref_has_live_pred(r, i) {
            let p = choose|p: int| ref_is_pred(r, p, i);
            assert(ref_is_pred(m, p, i));
        }
        if ref_has_live_pred(m, i) {
            let p = choose|p: int| ref_is_pred(m, p, i);
            assert(ref_is_pred(r, p, i));
        }
    }
}

} // verus!
