//! `Arcu`: a reference-counted cell whose value is replaced by installing a
//! new generation at the tail of a forward chain.
//!
//! A handle keeps reading the snapshot it holds until it advances: `update`
//! hops to the immediate successor, `update_latest` walks to the tail. All
//! generations of a chain share one callback slot holding at most one
//! pending observer; a successful replacement takes the observer out so the
//! caller can wake it. The slot is freed together with the last generation
//! whose forward pointer is null.

use crate::arc_log::{lemma_mask_bounds, MAX_REF_COUNT};
use core::marker::PhantomData;
use vstd::prelude::*;

verus! {

/// Ghost model of one generation: a reference count, a forward pointer
/// installed at most once, the held value, and the chain's callback slot.
#[verifier::ext_equal]
pub struct CellModel<T> {
    pub count: nat,
    pub forward: Option<int>,
    pub val: Option<T>,
    pub cb: int,
    pub live: bool,
}

/// Ghost model of a callback slot: at most one pending observer, named by a
/// caller-chosen ticket.
#[verifier::ext_equal]
pub struct SlotModel {
    pub waker: Option<u64>,
    pub live: bool,
}

/// Ghost model of the heap the cells live in.
#[verifier::ext_equal]
pub struct ArcuModel<T> {
    pub gens: Seq<CellModel<T>>,
    pub slots: Seq<SlotModel>,
}

/// `i` is the newest generation of a live chain.
pub open spec fn cell_is_tail<T>(h: ArcuModel<T>, i: int) -> bool {
    &&& 0 <= i < h.gens.len()
    &&& h.gens[i].live
    &&& h.gens[i].forward is None
}

/// Well-formedness of one generation within the model `h`.
pub open spec fn cell_gen_ok<T>(h: ArcuModel<T>, i: int) -> bool {
    let n = h.gens[i];
    &&& n.count <= MAX_REF_COUNT as nat
    &&& (n.live <==> n.count >= 1)
    &&& (n.live <==> n.val is Some)
    &&& (n.live ==> 0 <= n.cb < h.slots.len())
    &&& match n.forward {
        Some(j) => {
            &&& i < j < h.gens.len()
            &&& (n.live ==> h.gens[j].live && h.gens[j].cb == n.cb)
        },
        None => (n.live ==> h.slots[n.cb].live),
    }
}

/// `p` is the live predecessor of `i` on a chain.
pub open spec fn cell_is_pred<T>(h: ArcuModel<T>, p: int, i: int) -> bool {
    &&& 0 <= p < h.gens.len()
    &&& h.gens[p].live
    &&& h.gens[p].forward == Some(i)
}

/// Some live generation forwards to `i`.
pub open spec fn cell_has_live_pred<T>(h: ArcuModel<T>, i: int) -> bool {
    exists|p: int| #[trigger] cell_is_pred(h, p, i)
}

/// No two generations forward to the same successor.
pub open spec fn cell_unique_preds<T>(h: ArcuModel<T>) -> bool {
    forall|a: int, b: int|
        #![trigger h.gens[a].forward, h.gens[b].forward]
        0 <= a < h.gens.len() && 0 <= b < h.gens.len() && h.gens[a].forward is Some
            && h.gens[a].forward == h.gens[b].forward ==> a == b
}

/// Distinct live chains own distinct callback slots, so freeing a slot with
/// its chain's last generation cannot strand another chain.
pub open spec fn cell_unique_slots<T>(h: ArcuModel<T>) -> bool {
    forall|a: int, b: int|
        cell_is_tail(h, a) && cell_is_tail(h, b) && a != b ==> (#[trigger] h.gens[a].cb) != (
        #[trigger] h.gens[b].cb)
}

/// Well-formedness of the whole model.
pub open spec fn cell_wf<T>(h: ArcuModel<T>) -> bool {
    &&& forall|i: int| 0 <= i < h.gens.len() ==> #[trigger] cell_gen_ok(h, i)
    &&& cell_unique_preds(h)
    &&& cell_unique_slots(h)
}

/// Walk the forward chain from `i` to its end.
pub open spec fn cell_tail_of<T>(h: ArcuModel<T>, i: int) -> int
    decreases h.gens.len() - i,
{
    if 0 <= i < h.gens.len() {
        match h.gens[i].forward {
            Some(j) => if i < j < h.gens.len() {
                cell_tail_of(h, j)
            } else {
                i
            },
            None => i,
        }
    } else {
        i
    }
}

/// The chain tail of a live generation is live and final and shares its
/// callback slot.
pub proof fn cell_lemma_tail<T>(h: ArcuModel<T>, i: int)
    requires
        cell_wf(h),
        0 <= i < h.gens.len(),
        h.gens[i].live,
    ensures
        i <= cell_tail_of(h, i) < h.gens.len(),
        h.gens[cell_tail_of(h, i)].live,
        h.gens[cell_tail_of(h, i)].forward is None,
        h.gens[cell_tail_of(h, i)].cb == h.gens[i].cb,
        h.gens[i].forward is None ==> cell_tail_of(h, i) == i,
    decreases h.gens.len() - i,
{
    assert(cell_gen_ok(h, i));
    match h.gens[i].forward {
        Some(j) => {
            cell_lemma_tail(h, j);
        },
        None => {},
    }
}

/// `cell_tail_of` reads only the forward pointers.
pub proof fn cell_lemma_tail_congruence<T>(h: ArcuModel<T>, r: ArcuModel<T>, i: int)
    requires
        h.gens.len() == r.gens.len(),
        forall|k: int| 0 <= k < h.gens.len() ==> h.gens[k].forward == r.gens[k].forward,
    ensures
        cell_tail_of(h, i) == cell_tail_of(r, i),
    decreases h.gens.len() - i,
{
    if 0 <= i < h.gens.len() {
        match h.gens[i].forward {
            Some(j) => {
                if i < j < h.gens.len() {
                    cell_lemma_tail_congruence(h, r, j);
                }
            },
            None => {},
        }
    }
}

// ------------------------------------------------------------------
// Model transitions.
// ------------------------------------------------------------------

/// The model after taking one more reference on `g`.
pub open spec fn cell_acquire<T>(h: ArcuModel<T>, g: int) -> ArcuModel<T> {
    ArcuModel {
        gens: h.gens.update(g, CellModel { count: h.gens[g].count + 1, ..h.gens[g] }),
        ..h
    }
}

/// A reclaimed generation: its value has been dropped.
pub open spec fn cell_dead<T>(n: CellModel<T>) -> CellModel<T> {
    CellModel { count: 0, live: false, val: None, ..n }
}

/// The model after releasing one reference on `g`. The last release drops
/// the value and frees the node; if the generation had no successor it was
/// its chain's end, so the chain's callback slot is freed with it, else the
/// forward link's reference is released in turn.
pub open spec fn cell_release<T>(h: ArcuModel<T>, g: int) -> ArcuModel<T>
    decreases h.gens.len() - g,
{
    if 0 <= g < h.gens.len() {
        let n = h.gens[g];
        if n.count >= 2 {
            ArcuModel { gens: h.gens.update(g, CellModel { count: (n.count - 1) as nat, ..n }), ..h }
        } else {
            let h1 = ArcuModel {
                gens: h.gens.update(g, cell_dead(n)),
                slots: match n.forward {
                    Some(_) => h.slots,
                    None => if 0 <= n.cb < h.slots.len() {
                        h.slots.update(n.cb, SlotModel { waker: None, live: false })
                    } else {
                        h.slots
                    },
                },
            };
            match n.forward {
                Some(j) => if g < j < h.gens.len() {
                    cell_release(h1, j)
                } else {
                    h1
                },
                None => h1,
            }
        }
    } else {
        h
    }
}

/// The model after installing a fresh generation holding `v` behind tail
/// `t`; the fresh generation joins `t`'s chain and shares its callback slot.
pub open spec fn cell_install<T>(h: ArcuModel<T>, t: int, v: T) -> ArcuModel<T> {
    ArcuModel {
        gens: h.gens.update(t, CellModel { forward: Some(h.gens.len() as int), ..h.gens[t] }).push(
            CellModel { count: 1, forward: None, val: Some(v), cb: h.gens[t].cb, live: true },
        ),
        ..h
    }
}

/// Acquiring preserves well-formedness and everything but the count.
pub proof fn cell_lemma_acquire<T>(h: ArcuModel<T>, g: int)
    requires
        cell_wf(h),
        0 <= g < h.gens.len(),
        h.gens[g].live,
        h.gens[g].count + 1 <= MAX_REF_COUNT,
    ensures
        cell_wf(cell_acquire(h, g)),
        cell_acquire(h, g).gens.len() == h.gens.len(),
        cell_acquire(h, g).slots == h.slots,
        forall|i: int| 0 <= i < h.gens.len() && i != g ==> cell_acquire(h, g).gens[i] == h.gens[i],
        cell_acquire(h, g).gens[g] == (CellModel { count: h.gens[g].count + 1, ..h.gens[g] }),
{
    let r = cell_acquire(h, g);
    assert forall|i: int| 0 <= i < r.gens.len() implies #[trigger] cell_gen_ok(r, i) by {
        assert(cell_gen_ok(h, i));
    }
    assert forall|a: int, b: int|
        0 <= a < r.gens.len() && 0 <= b < r.gens.len() && r.gens[a].forward is Some
            && r.gens[a].forward == r.gens[b].forward implies a == b by {
        assert(h.gens[a].forward == r.gens[a].forward && h.gens[b].forward == r.gens[b].forward);
    }
    assert forall|a: int, b: int|
        cell_is_tail(r, a) && cell_is_tail(r, b) && a != b implies (#[trigger] r.gens[a].cb) != (
    #[trigger] r.gens[b].cb) by {
        assert(cell_is_tail(h, a) && cell_is_tail(h, b));
    }
}

/// Reclaiming a generation whose last reference is gone keeps the model
/// well-formed; its successor still carries the forward link's reference.
pub proof fn cell_lemma_dead_step<T>(h: ArcuModel<T>, g: int)
    requires
        cell_wf(h),
        0 <= g < h.gens.len(),
        h.gens[g].live,
        h.gens[g].count == 1,
        !cell_has_live_pred(h, g),
    ensures
        ({
            let h1 = ArcuModel {
                gens: h.gens.update(g, cell_dead(h.gens[g])),
                slots: match h.gens[g].forward {
                    Some(_) => h.slots,
                    None => if 0 <= h.gens[g].cb < h.slots.len() {
                        h.slots.update(h.gens[g].cb, SlotModel { waker: None, live: false })
                    } else {
                        h.slots
                    },
                },
            };
            &&& cell_wf(h1)
            &&& h.gens[g].forward is Some ==> {
                let j = h.gens[g].forward.unwrap();
                &&& h1.gens[j] == h.gens[j]
                &&& h.gens[j].live
                &&& h.gens[j].count >= 1
                &&& !cell_has_live_pred(h1, j)
            }
        }),
{
    let n = h.gens[g];
    let h1 = ArcuModel {
        gens: h.gens.update(g, cell_dead(n)),
        slots: match n.forward {
            Some(_) => h.slots,
            None => if 0 <= n.cb < h.slots.len() {
                h.slots.update(n.cb, SlotModel { waker: None, live: false })
            } else {
                h.slots
            },
        },
    };
    assert(cell_gen_ok(h, g));
    assert forall|i: int| 0 <= i < h1.gens.len() implies #[trigger] cell_gen_ok(h1, i) by {
        assert(cell_gen_ok(h, i));
        if i != g && h1.gens[i].forward == Some(g) && h1.gens[i].live {
            assert(cell_is_pred(h, i, g));
        }
        if i != g && h1.gens[i].live && h1.gens[i].forward is None && n.forward is None {
            // a distinct live tail does not share the freed slot
            assert(cell_is_tail(h, i) && cell_is_tail(h, g));
            assert(h.gens[i].cb != n.cb);
        }
    }
    assert forall|a: int, b: int|
        0 <= a < h1.gens.len() && 0 <= b < h1.gens.len() && h1.gens[a].forward is Some
            && h1.gens[a].forward == h1.gens[b].forward implies a == b by {
        assert(h.gens[a].forward == h1.gens[a].forward && h.gens[b].forward == h1.gens[b].forward);
    }
    assert forall|a: int, b: int|
        cell_is_tail(h1, a) && cell_is_tail(h1, b) && a != b implies (#[trigger] h1.gens[a].cb)
        != (#[trigger] h1.gens[b].cb) by {
        assert(cell_is_tail(h, a) && cell_is_tail(h, b));
    }
    if n.forward is Some {
        let j = n.forward.unwrap();
        assert(cell_gen_ok(h, j));
        assert(h1.gens[j] == h.gens[j]);
        if cell_has_live_pred(h1, j) {
            let p = choose|p: int| cell_is_pred(h1, p, j);
            assert(h1.gens[p].live && p != g);
            assert(h.gens[p].forward == Some(j) && h.gens[g].forward == Some(j));
            assert(p == g);
        }
    }
}

/// What one release does: counts fall by at most one, forward pointers and
/// slot assignments are untouched, survivors keep their values, and a slot
/// is freed only with its chain's last generation.
pub proof fn cell_lemma_release<T>(h: ArcuModel<T>, g: int)
    requires
        cell_wf(h),
        0 <= g < h.gens.len(),
        h.gens[g].live,
        h.gens[g].count >= 1 + (if cell_has_live_pred(h, g) {
            1nat
        } else {
            0nat
        }),
    ensures
        ({
            let r = cell_release(h, g);
            &&& r.gens.len() == h.gens.len()
            &&& r.slots.len() == h.slots.len()
            &&& cell_wf(r)
            &&& forall|i: int|
                0 <= i < h.gens.len() ==> (#[trigger] r.gens[i]).forward == h.gens[i].forward
                    && r.gens[i].cb == h.gens[i].cb
            &&& forall|i: int|
                0 <= i < h.gens.len() && (#[trigger] r.gens[i]).live ==> h.gens[i].live
                    && r.gens[i].val == h.gens[i].val
            &&& forall|i: int|
                0 <= i < h.gens.len() ==> h.gens[i].count - 1 <= (#[trigger] r.gens[i]).count
                    <= h.gens[i].count
            &&& r.gens[g].count == h.gens[g].count - 1
            &&& forall|i: int|
                0 <= i < h.gens.len() && i != g && (#[trigger] r.gens[i]).count < h.gens[i].count
                    && r.gens[i].live ==> !cell_has_live_pred(r, i)
            &&& forall|s: int|
                0 <= s < h.slots.len() && (#[trigger] r.slots[s]).live ==> r.slots[s]
                    == h.slots[s]
            &&& forall|i: int|
                cell_is_tail(r, i) ==> (#[trigger] r.slots[r.gens[i].cb]) == h.slots[h.gens[i].cb]
        }),
    decreases h.gens.len() - g,
{
    let r = cell_release(h, g);
    if h.gens[g].count >= 2 {
        assert forall|i: int| 0 <= i < r.gens.len() implies #[trigger] cell_gen_ok(r, i) by {
            assert(cell_gen_ok(h, i));
        }
        assert forall|a: int, b: int|
            0 <= a < r.gens.len() && 0 <= b < r.gens.len() && r.gens[a].forward is Some
                && r.gens[a].forward == r.gens[b].forward implies a == b by {
            assert(h.gens[a].forward == r.gens[a].forward && h.gens[b].forward
                == r.gens[b].forward);
        }
        assert forall|a: int, b: int|
            cell_is_tail(r, a) && cell_is_tail(r, b) && a != b implies (#[trigger] r.gens[a].cb)
            != (#[trigger] r.gens[b].cb) by {
            assert(cell_is_tail(h, a) && cell_is_tail(h, b));
        }
        assert forall|i: int|
            cell_is_tail(r, i) implies (#[trigger] r.slots[r.gens[i].cb])
            == h.slots[h.gens[i].cb] by {}
    } else {
        cell_lemma_dead_step(h, g);
        assert(cell_gen_ok(h, g));
        let n = h.gens[g];
        let h1 = ArcuModel {
            gens: h.gens.update(g, cell_dead(n)),
            slots: match n.forward {
                Some(_) => h.slots,
                None => if 0 <= n.cb < h.slots.len() {
                    h.slots.update(n.cb, SlotModel { waker: None, live: false })
                } else {
                    h.slots
                },
            },
        };
        match n.forward {
            Some(j) => {
                assert(g < j < h.gens.len());
                assert(!cell_has_live_pred(h1, j) && h1.gens[j].live && h1.gens[j].count >= 1);
                cell_lemma_release(h1, j);
                let rr = cell_release(h1, j);
                assert(r =~= rr);
                assert forall|i: int|
                    0 <= i < h.gens.len() && (#[trigger] r.gens[i]).live implies h.gens[i].live
                    && r.gens[i].val == h.gens[i].val by {
                    assert(h1.gens[i].live ==> h.gens[i].live && h1.gens[i].val == h.gens[i].val);
                }
                assert forall|i: int|
                    0 <= i < h.gens.len() && i != g && (#[trigger] r.gens[i]).count
                    < h.gens[i].count && r.gens[i].live implies !cell_has_live_pred(r, i) by {
                    if r.gens[i].count >= h1.gens[i].count {
                        assert(i == g);
                    }
                    if cell_has_live_pred(r, i) {
                        let p = choose|p: int| cell_is_pred(r, p, i);
                        assert(cell_is_pred(h1, p, i) || !r.gens[p].live);
                    }
                }
                assert forall|i: int|
                    cell_is_tail(r, i) implies (#[trigger] r.slots[r.gens[i].cb])
                    == h.slots[h.gens[i].cb] by {
                    assert(cell_is_tail(h1, i));
                    assert(r.slots[r.gens[i].cb] == h1.slots[h1.gens[i].cb]);
                }
            },
            None => {
                assert(r =~= h1);
                assert forall|i: int|
                    cell_is_tail(r, i) implies (#[trigger] r.slots[r.gens[i].cb])
                    == h.slots[h.gens[i].cb] by {
                    assert(i != g);
                    assert(r.gens[i] == h.gens[i]);
                    assert(cell_is_tail(h, i) && cell_is_tail(h, g));
                    assert(cell_gen_ok(h, i));
                    assert(h.gens[i].cb != n.cb);
                    assert(0 <= n.cb < h.slots.len());
                    assert(0 <= h.gens[i].cb < h.slots.len());
                    assert(r.slots =~= h.slots.update(n.cb, SlotModel { waker: None, live: false }));
                }
            },
        }
    }
}

/// Installing a fresh generation at a tail keeps the model well-formed; the
/// fresh generation takes over as its chain's tail, sharing the slot.
pub proof fn cell_lemma_install<T>(h: ArcuModel<T>, t: int, v: T)
    requires
        cell_wf(h),
        cell_is_tail(h, t),
    ensures
        cell_wf(cell_install(h, t, v)),
        ({
            let r = cell_install(h, t, v);
            let f = h.gens.len() as int;
            &&& r.gens.len() == h.gens.len() + 1
            &&& r.slots == h.slots
            &&& r.gens[f].live && r.gens[f].forward is None && r.gens[f].count == 1
            &&& r.gens[f].val == Some(v) && r.gens[f].cb == h.gens[t].cb
            &&& forall|i: int| 0 <= i < h.gens.len() && i != t ==> r.gens[i] == h.gens[i]
            &&& r.gens[t] == (CellModel { forward: Some(f), ..h.gens[t] })
        }),
{
    let r = cell_install(h, t, v);
    let f = h.gens.len() as int;
    assert(cell_gen_ok(h, t));
    lemma_mask_bounds();
    assert forall|i: int| 0 <= i < r.gens.len() implies #[trigger] cell_gen_ok(r, i) by {
        if i < h.gens.len() {
            assert(cell_gen_ok(h, i));
        }
    }
    assert forall|a: int, b: int|
        0 <= a < r.gens.len() && 0 <= b < r.gens.len() && r.gens[a].forward is Some
            && r.gens[a].forward == r.gens[b].forward implies a == b by {
        if a < h.gens.len() && b < h.gens.len() && a != t && b != t {
            assert(h.gens[a].forward == r.gens[a].forward && h.gens[b].forward
                == r.gens[b].forward);
        } else if a < h.gens.len() && b < h.gens.len() {
            if a == t && b != t {
                assert(cell_gen_ok(h, b));
            }
            if b == t && a != t {
                assert(cell_gen_ok(h, a));
            }
        }
    }
    assert forall|a: int, b: int|
        cell_is_tail(r, a) && cell_is_tail(r, b) && a != b implies (#[trigger] r.gens[a].cb) != (
    #[trigger] r.gens[b].cb) by {
        if a != f && b != f {
            assert(cell_is_tail(h, a) && cell_is_tail(h, b));
        } else if a == f && b != f {
            assert(b != t);
            assert(cell_is_tail(h, b) && cell_is_tail(h, t));
        } else if b == f && a != f {
            assert(a != t);
            assert(cell_is_tail(h, a) && cell_is_tail(h, t));
        }
    }
}

/// After an install at the old tail `t`, every generation whose chain ended
/// at `t` sees the fresh generation `f` as its new tail.
pub proof fn cell_lemma_retail<T>(h: ArcuModel<T>, r: ArcuModel<T>, i: int, t: int, f: int)
    requires
        cell_wf(h),
        r.gens.len() == h.gens.len() + 1,
        f == h.gens.len(),
        0 <= i < h.gens.len(),
        0 <= t < h.gens.len(),
        forall|k: int|
            0 <= k < h.gens.len() && k != t ==> #[trigger] r.gens[k].forward == h.gens[k].forward,
        h.gens[t].forward is None,
        r.gens[t].forward == Some(f),
        r.gens[f].forward is None,
        cell_tail_of(h, i) == t,
    ensures
        cell_tail_of(r, i) == f,
    decreases h.gens.len() - i,
{
    if i == t {
        assert(cell_tail_of(r, t) == cell_tail_of(r, f));
    } else {
        assert(cell_gen_ok(h, i));
        match h.gens[i].forward {
            Some(j) => {
                cell_lemma_retail(h, r, j, t, f);
            },
            None => {
                assert(cell_tail_of(h, i) == i);
            },
        }
    }
}

/// Changing no liveness and no forward pointer changes no predecessors.
pub proof fn cell_pred_congruence<T>(h: ArcuModel<T>, r: ArcuModel<T>, g: int)
    requires
        h.gens.len() == r.gens.len(),
        forall|i: int|
            0 <= i < h.gens.len() ==> (#[trigger] r.gens[i]).forward == h.gens[i].forward
                && r.gens[i].live == h.gens[i].live,
    ensures
        forall|i: int|
            0 <= i < h.gens.len() ==> cell_has_live_pred(r, i) == cell_has_live_pred(h, i),
{
    assert forall|i: int|
        0 <= i < h.gens.len() implies cell_has_live_pred(r, i) == cell_has_live_pred(h, i) by {
        if cell_has_live_pred(r, i) {
            let p = choose|p: int| cell_is_pred(r, p, i);
            assert(cell_is_pred(h, p, i));
        }
        if cell_has_live_pred(h, i) {
            let p = choose|p: int| cell_is_pred(h, p, i);
            assert(cell_is_pred(r, p, i));
        }
    }
}

/// A freshly pushed generation has no predecessor.
pub proof fn cell_fresh_has_no_pred<T>(h0: ArcuModel<T>, h1: ArcuModel<T>, g: int)
    requires
        cell_wf(h0),
        h1.gens.len() == h0.gens.len() + 1,
        g == h0.gens.len(),
        forall|i: int|
            0 <= i < h0.gens.len() ==> #[trigger] h1.gens[i].forward == h0.gens[i].forward,
        h1.gens[g].forward is None,
    ensures
        !cell_has_live_pred(h1, g),
{
    if cell_has_live_pred(h1, g) {
        let p = choose|p: int| cell_is_pred(h1, p, g);
        if p < h0.gens.len() {
            assert(cell_gen_ok(h0, p));
        }
    }
}

/// The model after overwriting generation `g`'s value in place.
pub open spec fn cell_with_val<T>(h: ArcuModel<T>, g: int, v: T) -> ArcuModel<T> {
    ArcuModel { gens: h.gens.update(g, CellModel { val: Some(v), ..h.gens[g] }), slots: h.slots }
}

/// Overwriting a live generation's value in place preserves well-formedness
/// and the handle's validity: nothing but the value changes.
pub proof fn cell_lemma_set_val<T>(h: ArcuModel<T>, g: int)
    requires
        cell_wf(h),
        0 <= g < h.gens.len(),
        h.gens[g].live,
    ensures
        forall|hh: ArcuModel<T>|
            {
                &&& hh.slots == h.slots
                &&& hh.gens.len() == h.gens.len()
                &&& (forall|i: int| 0 <= i < h.gens.len() && i != g ==> hh.gens[i] == h.gens[i])
                &&& hh.gens[g].count == h.gens[g].count
                &&& hh.gens[g].forward == h.gens[g].forward
                &&& hh.gens[g].cb == h.gens[g].cb
                &&& hh.gens[g].live == h.gens[g].live
                &&& hh.gens[g].val is Some
            } ==> #[trigger] cell_wf(hh) && cell_valid(hh, g) == cell_valid(h, g),
{
    assert forall|hh: ArcuModel<T>|
        {
            &&& hh.slots == h.slots
            &&& hh.gens.len() == h.gens.len()
            &&& (forall|i: int| 0 <= i < h.gens.len() && i != g ==> hh.gens[i] == h.gens[i])
            &&& hh.gens[g].count == h.gens[g].count
            &&& hh.gens[g].forward == h.gens[g].forward
            &&& hh.gens[g].cb == h.gens[g].cb
            &&& hh.gens[g].live == h.gens[g].live
            &&& hh.gens[g].val is Some
        } implies #[trigger] cell_wf(hh) && cell_valid(hh, g) == cell_valid(h, g) by {
        assert forall|i: int| 0 <= i < hh.gens.len() implies #[trigger] cell_gen_ok(hh, i) by {
            assert(cell_gen_ok(h, i));
        }
        assert forall|a: int, b: int|
            0 <= a < hh.gens.len() && 0 <= b < hh.gens.len() && hh.gens[a].forward is Some
                && hh.gens[a].forward == hh.gens[b].forward implies a == b by {
            assert(h.gens[a].forward == hh.gens[a].forward && h.gens[b].forward
                == hh.gens[b].forward);
        }
        assert forall|a: int, b: int|
            cell_is_tail(hh, a) && cell_is_tail(hh, b) && a != b implies (
        #[trigger] hh.gens[a].cb) != (#[trigger] hh.gens[b].cb) by {
            assert(cell_is_tail(h, a) && cell_is_tail(h, b));
        }
        cell_pred_congruence(h, hh, g);
    }
}

// ------------------------------------------------------------------
// Laws of replacement and adoption.
// ------------------------------------------------------------------

/// Advancing to the tail settles a handle: the generation it ends on has no
/// forward pointer, so a second advance with no intervening replacement
/// reports no advance and changes nothing.
pub proof fn cell_lemma_update_settles<T>(h: ArcuModel<T>, g: int)
    requires
        cell_wf(h),
        cell_valid(h, g),
        h.gens[cell_tail_of(h, g)].count + 1 <= MAX_REF_COUNT,
    ensures
        ({
            let t = cell_tail_of(h, g);
            let r = (if t == g {
                h
            } else {
                cell_release(cell_acquire(h, t), g)
            });
            &&& r.gens[t].forward is None
            &&& cell_tail_of(r, t) == t
        }),
{
    let t = cell_tail_of(h, g);
    cell_lemma_tail(h, g);
    if t != g {
        cell_lemma_acquire(h, t);
        let ha = cell_acquire(h, t);
        assert(ha.gens[g] == h.gens[g]);
        cell_pred_congruence(h, ha, g);
        cell_lemma_release(ha, g);
    }
}

/// Replacing the value and then advancing reads the replacement: after
/// `update_value` installs `v` behind a handle that was at its chain's tail,
/// one `update` hop lands on a live generation holding `v`.
pub proof fn cell_lemma_replace_then_update<T>(h: ArcuModel<T>, h1: ArcuModel<T>, g: int, v: T)
    requires
        cell_wf(h),
        cell_valid(h, g),
        h.gens[g].forward is None,
        cell_wf(h1),
        h1.gens == cell_install(h, g, v).gens,
    ensures
        h1.gens[g].forward == Some(h.gens.len() as int),
        ({
            let f = h.gens.len() as int;
            let h2 = cell_release(cell_acquire(h1, f), g);
            &&& h2.gens[f].val == Some(v)
            &&& h2.gens[f].live
            &&& cell_valid(h2, f)
        }),
{
    let f = h.gens.len() as int;
    assert(cell_is_tail(h, g));
    cell_lemma_install(h, g, v);
    assert(h1.gens[f].live && h1.gens[f].count == 1 && h1.gens[f].val == Some(v));
    lemma_mask_bounds();
    cell_lemma_acquire(h1, f);
    let ha = cell_acquire(h1, f);
    assert(ha.gens[g] == h1.gens[g]);
    assert(ha.gens[g].count == h.gens[g].count && ha.gens[g].live);
    assert forall|p: int| cell_is_pred(ha, p, g) implies cell_is_pred(h, p, g) by {
        assert(p != f) by {
            assert(ha.gens[f].forward is None);
        }
        assert(ha.gens[p].forward == h.gens[p].forward);
    }
    assert forall|p: int| cell_is_pred(h, p, g) implies cell_is_pred(ha, p, g) by {
        assert(p != g || h.gens[g].forward is None);
    }
    cell_lemma_release(ha, g);
    let h2 = cell_release(ha, g);
    assert(h2.gens[f].count >= ha.gens[f].count - 1);
    assert(ha.gens[f].count == 2);
    assert(cell_gen_ok(h2, f));
    assert(h2.gens[f].live);
    assert(h2.gens[f].val == ha.gens[f].val);
    if h2.gens[f].count < ha.gens[f].count {
        assert(!cell_has_live_pred(h2, f));
    } else {
        assert(h2.gens[f].count >= 2);
    }
}

/// `n` acquisitions in a row on the same generation.
pub open spec fn cell_acquire_n<T>(h: ArcuModel<T>, g: int, n: nat) -> ArcuModel<T>
    decreases n,
{
    if n == 0 {
        h
    } else {
        cell_acquire_n(cell_acquire(h, g), g, (n - 1) as nat)
    }
}

/// `k` releases in a row on the same generation.
pub open spec fn cell_release_n<T>(h: ArcuModel<T>, g: int, k: nat) -> ArcuModel<T>
    decreases k,
{
    if k == 0 {
        h
    } else {
        cell_release_n(cell_release(h, g), g, (k - 1) as nat)
    }
}

/// Cloning a handle `n` times and dropping `k <= n` of the clones leaves the
/// generation's count at the original plus `n - k`; no other generation and
/// no slot is touched.
pub proof fn cell_lemma_clone_drop_counts<T>(h: ArcuModel<T>, g: int, n: nat, k: nat)
    requires
        cell_wf(h),
        0 <= g < h.gens.len(),
        h.gens[g].live,
        k <= n,
        h.gens[g].count + n <= MAX_REF_COUNT,
    ensures
        ({
            let r = cell_release_n(cell_acquire_n(h, g, n), g, k);
            &&& cell_wf(r)
            &&& r.gens.len() == h.gens.len()
            &&& r.slots == h.slots
            &&& r.gens[g].count == h.gens[g].count + n - k
            &&& r.gens[g].live
            &&& forall|i: int| 0 <= i < h.gens.len() && i != g ==> #[trigger] r.gens[i] == h.gens[i]
        }),
    decreases n + k,
{
    if n == 0 && k == 0 {
    } else if k > 0 {
        cell_lemma_clone_drop_counts(h, g, n, (k - 1) as nat);
        let r1 = cell_release_n(cell_acquire_n(h, g, n), g, (k - 1) as nat);
        assert(cell_gen_ok(h, g));
        assert(h.gens[g].count >= 1);
        assert(r1.gens[g].count == h.gens[g].count + n - (k - 1));
        assert(r1.gens[g].count >= 2);
        cell_lemma_release_dec_only(r1, g);
        cell_lemma_release_n_unfold(cell_acquire_n(h, g, n), g, k);
    } else {
        cell_lemma_clone_drop_counts(h, g, (n - 1) as nat, 0);
        let r1 = cell_acquire_n(h, g, (n - 1) as nat);
        cell_lemma_acquire(r1, g);
        cell_lemma_acquire_n_unfold(h, g, n);
    }
}

/// A release on a generation with other references outstanding is a pure
/// decrement.
proof fn cell_lemma_release_dec_only<T>(h: ArcuModel<T>, g: int)
    requires
        cell_wf(h),
        0 <= g < h.gens.len(),
        h.gens[g].count >= 2,
    ensures
        cell_release(h, g) == (ArcuModel {
            gens: h.gens.update(g, (CellModel { count: (h.gens[g].count - 1) as nat, ..h.gens[g] })),
            ..h
        }),
        cell_wf(cell_release(h, g)),
    decreases 0int,
{
    let r = cell_release(h, g);
    assert forall|i: int| 0 <= i < r.gens.len() implies #[trigger] cell_gen_ok(r, i) by {
        assert(cell_gen_ok(h, i));
    }
    assert forall|a: int, b: int|
        0 <= a < r.gens.len() && 0 <= b < r.gens.len() && r.gens[a].forward is Some
            && r.gens[a].forward == r.gens[b].forward implies a == b by {
        assert(h.gens[a].forward == r.gens[a].forward && h.gens[b].forward == r.gens[b].forward);
    }
    assert forall|a: int, b: int|
        cell_is_tail(r, a) && cell_is_tail(r, b) && a != b implies (#[trigger] r.gens[a].cb) != (
    #[trigger] r.gens[b].cb) by {
        assert(cell_is_tail(h, a) && cell_is_tail(h, b));
    }
}

/// `n` acquisitions are the same as `n - 1` followed by one.
proof fn cell_lemma_acquire_n_unfold<T>(h: ArcuModel<T>, g: int, n: nat)
    requires
        n > 0,
    ensures
        cell_acquire_n(h, g, n) == cell_acquire(cell_acquire_n(h, g, (n - 1) as nat), g),
    decreases n,
{
    let h1 = cell_acquire(h, g);
    assert(cell_acquire_n(h, g, n) == cell_acquire_n(h1, g, (n - 1) as nat));
    if n == 1 {
        assert(cell_acquire_n(h1, g, 0) == h1);
        assert(cell_acquire_n(h, g, 0) == h);
    } else {
        cell_lemma_acquire_n_unfold(h1, g, (n - 1) as nat);
        assert(cell_acquire_n(h, g, (n - 1) as nat) == cell_acquire_n(h1, g, (n - 2) as nat));
    }
}

/// `k` releases are the same as `k - 1` followed by one.
proof fn cell_lemma_release_n_unfold<T>(h: ArcuModel<T>, g: int, k: nat)
    requires
        k > 0,
    ensures
        cell_release_n(h, g, k) == cell_release(cell_release_n(h, g, (k - 1) as nat), g),
    decreases k,
{
    let h1 = cell_release(h, g);
    assert(cell_release_n(h, g, k) == cell_release_n(h1, g, (k - 1) as nat));
    if k == 1 {
        assert(cell_release_n(h1, g, 0) == h1);
        assert(cell_release_n(h, g, 0) == h);
    } else {
        cell_lemma_release_n_unfold(h1, g, (k - 1) as nat);
        assert(cell_release_n(h, g, (k - 1) as nat) == cell_release_n(h1, g, (k - 2) as nat));
    }
}

// ------------------------------------------------------------------
// The concrete heap and the handle.
// ------------------------------------------------------------------

/// One generation as stored.
struct CellNode<T> {
    count: usize,
    forward: Option<usize>,
    data: Option<T>,
    cb: usize,
    live: bool,
}

/// One callback slot as stored.
struct CbSlot {
    waker: Option<u64>,
    live: bool,
}

impl<T> CellNode<T> {
    spec fn model(self) -> CellModel<T> {
        CellModel {
            count: self.count as nat,
            forward: match self.forward {
                Some(j) => Some(j as int),
                None => None,
            },
            val: self.data,
            cb: self.cb as int,
            live: self.live,
        }
    }
}

/// The memory the cells and their callback slots live in.
pub struct ArcuHeap<T> {
    nodes: Vec<CellNode<T>>,
    slots: Vec<CbSlot>,
}

impl<T> View for ArcuHeap<T> {
    type V = ArcuModel<T>;

    closed spec fn view(&self) -> ArcuModel<T> {
        ArcuModel {
            gens: self.nodes@.map(|i: int, n: CellNode<T>| n.model()),
            slots: self.slots@.map(
                |i: int, s: CbSlot| SlotModel { waker: s.waker, live: s.live },
            ),
        }
    }
}

impl<T> ArcuHeap<T> {
    /// The heap invariant.
    pub closed spec fn inv(self) -> bool {
        cell_wf(self@)
    }

    /// A fresh, empty heap.
    pub fn new() -> (heap: ArcuHeap<T>)
        ensures
            heap.inv(),
            heap@.gens =~= Seq::<CellModel<T>>::empty(),
            heap@.slots =~= Seq::<SlotModel>::empty(),
    {
        ArcuHeap { nodes: Vec::new(), slots: Vec::new() }
    }
}

/// A generation address is a valid handle target.
pub open spec fn cell_valid<T>(h: ArcuModel<T>, g: int) -> bool {
    &&& 0 <= g < h.gens.len()
    &&& h.gens[g].live
    &&& h.gens[g].count >= 1 + (if cell_has_live_pred(h, g) {
        1nat
    } else {
        0nat
    })
}

/// Release one reference on generation `g`, reclaiming along the chain.
fn cell_drop_ref<T>(heap: &mut ArcuHeap<T>, g: usize)
    requires
        old(heap).inv(),
        cell_valid(old(heap)@, g as int),
    ensures
        final(heap).inv(),
        final(heap)@ =~= cell_release(old(heap)@, g as int),
    decreases old(heap)@.gens.len() - g,
{
    proof {
        cell_lemma_release(old(heap)@, g as int);
    }
    let prev = heap.nodes[g].count;
    if prev != 1 {
        let n = &mut heap.nodes[g];
        n.count = n.count - 1;
        proof {
            assert(heap@ =~= cell_release(old(heap)@, g as int));
        }
    } else {
        let fwd = heap.nodes[g].forward;
        let cb = heap.nodes[g].cb;
        proof {
            cell_lemma_dead_step(old(heap)@, g as int);
            assert(cell_gen_ok(old(heap)@, g as int));
        }
        let n = &mut heap.nodes[g];
        n.count = 0;
        n.live = false;
        n.data = None;
        match fwd {
            Some(j) => {
                proof {
                    let h1 = ArcuModel {
                        gens: old(heap)@.gens.update(g as int, cell_dead(old(heap)@.gens[g as int])),
                        slots: old(heap)@.slots,
                    };
                    assert(heap@ =~= h1);
                }
                cell_drop_ref(heap, j);
                proof {
                    assert(final(heap)@ =~= cell_release(old(heap)@, g as int));
                }
            },
            None => {
                // the chain ends here: the callback slot goes with it
                let s = &mut heap.slots[cb];
                s.waker = None;
                s.live = false;
                proof {
                    assert(heap@ =~= cell_release(old(heap)@, g as int));
                }
            },
        }
    }
}

/// Walk the forward pointers from `start` to the chain's end.
fn cell_find_tail<T>(heap: &ArcuHeap<T>, start: usize) -> (t: usize)
    requires
        heap.inv(),
        0 <= start < heap@.gens.len(),
    ensures
        t as int == cell_tail_of(heap@, start as int),
        0 <= t < heap@.gens.len(),
    decreases heap@.gens.len() - start,
{
    let ghost h = heap@;
    let mut cur = start;
    loop
        invariant
            heap.inv(),
            h == heap@,
            0 <= cur < h.gens.len(),
            cell_tail_of(h, cur as int) == cell_tail_of(h, start as int),
        decreases h.gens.len() - cur,
    {
        match heap.nodes[cur].forward {
            Some(j) => {
                proof {
                    assert(cell_gen_ok(h, cur as int));
                }
                cur = j;
            },
            None => {
                return cur;
            },
        }
    }
}

/// A reference-counted handle on one generation of a replaceable cell.
pub struct Arcu<T> {
    node: usize,
    marker: PhantomData<T>,
}

impl<T> Arcu<T> {
    /// The address of the generation this handle pins.
    pub closed spec fn id(self) -> int {
        self.node as int
    }

    /// The handle's reference is held by a live generation.
    pub open spec fn valid(self, h: ArcuModel<T>) -> bool {
        cell_valid(h, self.id())
    }

    /// The value this handle reads.
    pub open spec fn value(self, h: ArcuModel<T>) -> T
        recommends
            self.valid(h),
    {
        h.gens[self.id()].val.unwrap()
    }

    /// A new cell: one fresh generation and its chain's callback slot.
    pub fn new(data: T, heap: &mut ArcuHeap<T>) -> (h: Arcu<T>)
        requires
            old(heap).inv(),
        ensures
            final(heap).inv(),
            final(heap)@.gens =~= old(heap)@.gens.push(
                CellModel {
                    count: 1,
                    forward: None,
                    val: Some(data),
                    cb: old(heap)@.slots.len() as int,
                    live: true,
                },
            ),
            final(heap)@.slots =~= old(heap)@.slots.push(SlotModel { waker: None, live: true }),
            h.id() == old(heap)@.gens.len(),
            h.valid(final(heap)@),
            h.value(final(heap)@) == data,
    {
        let cb = heap.slots.len();
        heap.slots.push(CbSlot { waker: None, live: true });
        let g = heap.nodes.len();
        heap.nodes.push(CellNode { count: 1, forward: None, data: Some(data), cb, live: true });
        let h = Arcu { node: g, marker: PhantomData };
        proof {
            lemma_mask_bounds();
            let h0 = old(heap)@;
            let h1 = heap@;
            assert(h1.gens =~= h0.gens.push(
                CellModel {
                    count: 1,
                    forward: None,
                    val: Some(data),
                    cb: cb as int,
                    live: true,
                },
            ));
            assert(h1.slots =~= h0.slots.push(SlotModel { waker: None, live: true }));
            assert forall|i: int| 0 <= i < h1.gens.len() implies #[trigger] cell_gen_ok(h1, i) by {
                if i < h0.gens.len() {
                    assert(cell_gen_ok(h0, i));
                }
            }
            assert forall|a: int, b: int|
                cell_is_tail(h1, a) && cell_is_tail(h1, b) && a != b implies (
            #[trigger] h1.gens[a].cb) != (#[trigger] h1.gens[b].cb) by {
                if a < h0.gens.len() && b < h0.gens.len() {
                    assert(cell_is_tail(h0, a) && cell_is_tail(h0, b));
                } else if a == g && b < h0.gens.len() {
                    assert(cell_is_tail(h0, b));
                    assert(cell_gen_ok(h0, b));
                } else if b == g && a < h0.gens.len() {
                    assert(cell_is_tail(h0, a));
                    assert(cell_gen_ok(h0, a));
                }
            }
            cell_fresh_has_no_pred(h0, h1, g as int);
        }
        h
    }

    /// Take one more reference on this handle's generation.
    pub fn clone_handle(&self, heap: &mut ArcuHeap<T>) -> (h: Arcu<T>)
        requires
            old(heap).inv(),
            self.valid(old(heap)@),
            old(heap)@.gens[self.id()].count + 1 <= MAX_REF_COUNT,
        ensures
            final(heap).inv(),
            final(heap)@ =~= cell_acquire(old(heap)@, self.id()),
            h.id() == self.id(),
            h.valid(final(heap)@),
            self.valid(final(heap)@),
            h.value(final(heap)@) == self.value(old(heap)@),
            final(heap)@.gens[self.id()].count == old(heap)@.gens[self.id()].count + 1,
    {
        proof {
            cell_lemma_acquire(old(heap)@, self.id());
        }
        let n = &mut heap.nodes[self.node];
        n.count = n.count + 1;
        proof {
            assert(heap@ =~= cell_acquire(old(heap)@, self.id()));
            cell_pred_congruence(old(heap)@, heap@, self.id());
        }
        Arcu { node: self.node, marker: PhantomData }
    }

    /// The reference count of this handle's generation.
    pub fn ref_count(&self, heap: &ArcuHeap<T>) -> (n: usize)
        requires
            heap.inv(),
            self.valid(heap@),
        ensures
            n == heap@.gens[self.id()].count,
    {
        heap.nodes[self.node].count
    }

    /// Has this generation been replaced? A true answer means `update` will
    /// advance.
    pub fn has_update(&self, heap: &ArcuHeap<T>) -> (r: bool)
        requires
            heap.inv(),
            self.valid(heap@),
        ensures
            r == (heap@.gens[self.id()].forward is Some),
    {
        heap.nodes[self.node].forward.is_some()
    }

    /// Read this handle's snapshot. A replacement is not seen until the
    /// handle advances.
    pub fn read<'a>(&self, heap: &'a ArcuHeap<T>) -> (r: &'a T)
        requires
            heap.inv(),
            self.valid(heap@),
        ensures
            *r == self.value(heap@),
    {
        proof {
            assert(cell_gen_ok(heap@, self.id()));
        }
        match &heap.nodes[self.node].data {
            Some(v) => v,
            None => {
                proof {
                    assert(false);
                }
                vstd::pervasive::unreached()
            },
        }
    }

    /// Advance one hop: adopt the immediate successor, if a replacement has
    /// been installed, taking a reference on it and releasing this one.
    pub fn update(&mut self, heap: &mut ArcuHeap<T>) -> (advanced: bool)
        requires
            old(heap).inv(),
            old(self).valid(old(heap)@),
            old(heap)@.gens[old(self).id()].forward is Some ==> old(heap)@.gens[old(
                heap,
            )@.gens[old(self).id()].forward.unwrap()].count + 1 <= MAX_REF_COUNT,
        ensures
            final(heap).inv(),
            advanced == (old(heap)@.gens[old(self).id()].forward is Some),
            !advanced ==> final(heap)@ == old(heap)@ && final(self).id() == old(self).id(),
            advanced ==> final(self).id() == old(heap)@.gens[old(self).id()].forward.unwrap()
                && final(heap)@ =~= cell_release(
                cell_acquire(old(heap)@, old(heap)@.gens[old(self).id()].forward.unwrap()),
                old(self).id(),
            ),
            final(self).valid(final(heap)@),
            advanced ==> final(heap)@.gens[final(self).id()].val == old(heap)@.gens[old(
                heap,
            )@.gens[old(self).id()].forward.unwrap()].val,
            !advanced ==> final(heap)@.gens[final(self).id()].val == old(heap)@.gens[old(
                self,
            ).id()].val,
    {
        let ghost h = old(heap)@;
        let ghost gi = old(self).id();
        let start = self.node;
        match heap.nodes[start].forward {
            None => false,
            Some(j) => {
                let ghost ji = j as int;
                proof {
                    assert(cell_gen_ok(h, gi));
                    cell_lemma_acquire(h, ji);
                }
                let n = &mut heap.nodes[j];
                n.count = n.count + 1;
                let ghost ha = cell_acquire(h, ji);
                proof {
                    assert(heap@ =~= ha);
                    assert forall|p: int| cell_is_pred(ha, p, gi) implies cell_is_pred(
                        h,
                        p,
                        gi,
                    ) by {}
                    assert forall|p: int| cell_is_pred(h, p, gi) implies cell_is_pred(
                        ha,
                        p,
                        gi,
                    ) by {}
                    assert(ha.gens[gi] == h.gens[gi]);
                }
                let old_node = self.node;
                self.node = j;
                cell_drop_ref(heap, old_node);
                proof {
                    cell_lemma_release(ha, gi);
                    let r = cell_release(ha, gi);
                    assert(heap@ =~= r);
                    assert(cell_gen_ok(h, ji));
                    assert(h.gens[ji].live && h.gens[ji].count >= 1);
                    assert(ha.gens[ji].count == h.gens[ji].count + 1);
                    assert(r.gens[ji].count >= ha.gens[ji].count - 1);
                    assert(cell_gen_ok(r, ji));
                    assert(r.gens[ji].live);
                    if r.gens[ji].count < ha.gens[ji].count {
                        assert(!cell_has_live_pred(r, ji));
                    } else {
                        assert(r.gens[ji].count >= 2);
                    }
                }
                true
            },
        }
    }

    /// Advance all the way: adopt the newest generation of the chain.
    pub fn update_latest(&mut self, heap: &mut ArcuHeap<T>) -> (advanced: bool)
        requires
            old(heap).inv(),
            old(self).valid(old(heap)@),
            old(heap)@.gens[cell_tail_of(old(heap)@, old(self).id())].count + 1 <= MAX_REF_COUNT,
        ensures
            final(heap).inv(),
            advanced == (old(heap)@.gens[old(self).id()].forward is Some),
            !advanced ==> final(heap)@ == old(heap)@ && final(self).id() == old(self).id(),
            advanced ==> final(self).id() == cell_tail_of(old(heap)@, old(self).id())
                && final(heap)@ =~= cell_release(
                cell_acquire(old(heap)@, cell_tail_of(old(heap)@, old(self).id())),
                old(self).id(),
            ),
            final(self).valid(final(heap)@),
            final(heap)@.gens[final(self).id()].val == old(heap)@.gens[cell_tail_of(
                old(heap)@,
                old(self).id(),
            )].val,
            final(heap)@.gens[final(self).id()].forward is None,
    {
        let ghost h = old(heap)@;
        let ghost gi = old(self).id();
        proof {
            cell_lemma_tail(h, gi);
        }
        let start = self.node;
        match heap.nodes[start].forward {
            None => false,
            Some(_) => {
                proof {
                    assert(cell_gen_ok(h, gi));
                }
                let t = cell_find_tail(heap, start);
                let ghost ti = t as int;
                proof {
                    assert(ti != gi) by {
                        assert(h.gens[ti].forward is None);
                    }
                    cell_lemma_acquire(h, ti);
                }
                let n = &mut heap.nodes[t];
                n.count = n.count + 1;
                let ghost ha = cell_acquire(h, ti);
                proof {
                    assert(heap@ =~= ha);
                    assert forall|p: int| cell_is_pred(ha, p, gi) implies cell_is_pred(
                        h,
                        p,
                        gi,
                    ) by {}
                    assert forall|p: int| cell_is_pred(h, p, gi) implies cell_is_pred(
                        ha,
                        p,
                        gi,
                    ) by {}
                    assert(ha.gens[gi] == h.gens[gi]);
                }
                let old_node = self.node;
                self.node = t;
                cell_drop_ref(heap, old_node);
                proof {
                    cell_lemma_release(ha, gi);
                    let r = cell_release(ha, gi);
                    assert(heap@ =~= r);
                    assert(cell_gen_ok(h, ti));
                    assert(h.gens[ti].live && h.gens[ti].count >= 1);
                    assert(ha.gens[ti].count == h.gens[ti].count + 1);
                    assert(r.gens[ti].count >= ha.gens[ti].count - 1);
                    assert(cell_gen_ok(r, ti));
                    assert(r.gens[ti].live);
                    if r.gens[ti].count < ha.gens[ti].count {
                        assert(!cell_has_live_pred(r, ti));
                    } else {
                        assert(r.gens[ti].count >= 2);
                    }
                }
                true
            },
        }
    }

    /// Install `data` as the cell's new value: a fresh generation is linked
    /// behind the chain's tail, and the pending observer, if one was
    /// registered, is taken out and returned so the caller can wake it. The
    /// handle itself keeps its snapshot until it advances.
    pub fn update_value(&mut self, heap: &mut ArcuHeap<T>, data: T) -> (woken: Option<u64>)
        requires
            old(heap).inv(),
            old(self).valid(old(heap)@),
        ensures
            final(heap).inv(),
            final(self).id() == old(self).id(),
            final(self).valid(final(heap)@),
            ({
                let h = old(heap)@;
                let t = cell_tail_of(h, old(self).id());
                let hi = cell_install(h, t, data);
                &&& woken == h.slots[h.gens[t].cb as int].waker
                &&& final(heap)@.gens =~= hi.gens
                &&& final(heap)@.slots =~= hi.slots.update(
                    h.gens[t].cb as int,
                    SlotModel { waker: None, live: true },
                )
                &&& cell_tail_of(final(heap)@, old(self).id()) == h.gens.len()
                &&& final(heap)@.gens[h.gens.len() as int].val == Some(data)
            }),
    {
        let ghost h = old(heap)@;
        let ghost gi = old(self).id();
        let ghost ti = cell_tail_of(h, gi);
        proof {
            cell_lemma_tail(h, gi);
            assert(cell_gen_ok(h, ti));
        }
        let t = cell_find_tail(heap, self.node);
        let cb = heap.nodes[t].cb;
        let new_id = heap.nodes.len();
        heap.nodes.push(
            CellNode { count: 1, forward: None, data: Some(data), cb, live: true },
        );
        let n = &mut heap.nodes[t];
        n.forward = Some(new_id);
        proof {
            let h1 = heap@;
            assert(h1 =~= cell_install(h, ti, data));
            cell_lemma_install(h, ti, data);
            assert forall|p: int| cell_is_pred(h1, p, gi) implies cell_is_pred(h, p, gi) by {
                if p == ti {
                    assert(h.gens[ti].forward is None);
                    assert(h1.gens[ti].forward == Some(h.gens.len() as int));
                }
            }
            assert forall|p: int| cell_is_pred(h, p, gi) implies cell_is_pred(h1, p, gi) by {
                if p == ti {
                    assert(h.gens[ti].forward is None);
                }
            }
            cell_lemma_retail(h, h1, gi, ti, h.gens.len() as int);
        }
        // wake one pending observer: take the waker, leaving none
        let s = &mut heap.slots[cb];
        let woken = s.waker.take();
        proof {
            let h1 = cell_install(h, ti, data);
            let h2 = heap@;
            assert(h2.gens =~= h1.gens);
            assert(h2.slots =~= h1.slots.update(
                cb as int,
                SlotModel { waker: None, live: h.slots[cb as int].live },
            ));
            assert(h.slots[cb as int].live) by {
                assert(cell_gen_ok(h, ti));
            }
            assert forall|i: int| 0 <= i < h2.gens.len() implies #[trigger] cell_gen_ok(h2, i) by {
                assert(cell_gen_ok(h1, i));
            }
            assert forall|a: int, b: int|
                cell_is_tail(h2, a) && cell_is_tail(h2, b) && a != b implies (
            #[trigger] h2.gens[a].cb) != (#[trigger] h2.gens[b].cb) by {
                assert(cell_is_tail(h1, a) && cell_is_tail(h1, b));
            }
            assert forall|a: int, b: int|
                0 <= a < h2.gens.len() && 0 <= b < h2.gens.len() && h2.gens[a].forward is Some
                    && h2.gens[a].forward == h2.gens[b].forward implies a == b by {
                assert(h1.gens[a].forward == h2.gens[a].forward && h1.gens[b].forward
                    == h2.gens[b].forward);
            }
            cell_lemma_tail_congruence(h1, h2, gi);
            cell_pred_congruence(h1, h2, gi);
        }
        woken
    }

    /// One observation step, as a poller would take it: if a replacement is
    /// pending the handle adopts it and the observation completes; otherwise
    /// the caller's ticket is parked in the chain's callback slot, to be
    /// handed back by the next `update_value`.
    pub fn observe(&mut self, heap: &mut ArcuHeap<T>, ticket: u64) -> (ready: bool)
        requires
            old(heap).inv(),
            old(self).valid(old(heap)@),
            old(heap)@.gens[old(self).id()].forward is Some ==> old(heap)@.gens[old(
                heap,
            )@.gens[old(self).id()].forward.unwrap()].count + 1 <= MAX_REF_COUNT,
        ensures
            final(heap).inv(),
            ready == (old(heap)@.gens[old(self).id()].forward is Some),
            final(self).valid(final(heap)@),
            ready ==> final(heap)@ =~= cell_release(
                cell_acquire(old(heap)@, old(heap)@.gens[old(self).id()].forward.unwrap()),
                old(self).id(),
            ),
            !ready ==> final(self).id() == old(self).id() && final(heap)@.gens == old(heap)@.gens
                && final(heap)@.slots =~= old(heap)@.slots.update(
                old(heap)@.gens[old(self).id()].cb as int,
                SlotModel {
                    waker: Some(ticket),
                    live: old(heap)@.slots[old(heap)@.gens[old(self).id()].cb as int].live,
                },
            ),
    {
        let ghost h = old(heap)@;
        let ghost gi = old(self).id();
        let updated = self.update(heap);
        if updated {
            true
        } else {
            proof {
                assert(heap@ == h);
                assert(cell_gen_ok(h, gi));
                cell_lemma_tail(h, gi);
            }
            let cb = heap.nodes[self.node].cb;
            let s = &mut heap.slots[cb];
            s.waker = Some(ticket);
            proof {
                let h2 = heap@;
                assert(h2.slots =~= h.slots.update(
                    cb as int,
                    SlotModel { waker: Some(ticket), live: h.slots[cb as int].live },
                ));
                assert(h.slots[cb as int].live);
                assert forall|i: int|
                    0 <= i < h2.gens.len() implies #[trigger] cell_gen_ok(h2, i) by {
                    assert(cell_gen_ok(h, i));
                }
                assert forall|a: int, b: int|
                    cell_is_tail(h2, a) && cell_is_tail(h2, b) && a != b implies (
                #[trigger] h2.gens[a].cb) != (#[trigger] h2.gens[b].cb) by {
                    assert(cell_is_tail(h, a) && cell_is_tail(h, b));
                }
                assert forall|a: int, b: int|
                    0 <= a < h2.gens.len() && 0 <= b < h2.gens.len() && h2.gens[a].forward is Some
                        && h2.gens[a].forward == h2.gens[b].forward implies a == b by {
                    assert(h.gens[a].forward == h2.gens[a].forward && h.gens[b].forward
                        == h2.gens[b].forward);
                }
                cell_pred_congruence(h, h2, gi);
            }
            false
        }
    }

    /// Borrow this handle's value mutably. The cell's bookkeeping is
    /// untouched: only the held value changes, to whatever the caller leaves
    /// behind the borrow.
    pub fn value_mut<'a>(&self, heap: &'a mut ArcuHeap<T>) -> (r: &'a mut T)
        requires
            old(heap).inv(),
            self.valid(old(heap)@),
        ensures
            final(heap).inv(),
            *r == self.value(old(heap)@),
            final(heap)@ =~= cell_with_val(old(heap)@, self.id(), *final(r)),
            final(heap)@.slots == old(heap)@.slots,
            self.valid(final(heap)@),
    {
        proof {
            assert(cell_gen_ok(old(heap)@, self.id()));
            cell_lemma_set_val(old(heap)@, self.id());
        }
        let n = &mut heap.nodes[self.node];
        match &mut n.data {
            Some(v) => v,
            None => {
                proof {
                    assert(false);
                }
                vstd::pervasive::unreached()
            },
        }
    }

    /// Release this handle's reference; the last release reclaims the
    /// generation, the chain behind it, and, at the chain's end, the
    /// callback slot.
    pub fn drop_handle(self, heap: &mut ArcuHeap<T>)
        requires
            old(heap).inv(),
            self.valid(old(heap)@),
        ensures
            final(heap).inv(),
            final(heap)@ =~= cell_release(old(heap)@, self.id()),
    {
        cell_drop_ref(heap, self.node);
    }
}

} // verus!
