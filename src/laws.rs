use vstd::prelude::*;

use crate::map::{
    model_wf, name_index, next_slot, roll_signal, set_model, set_overflows, store_sample,
    tick_flushes, tick_model, MapModel,
};
use crate::name::valid_name;
use crate::value::ValueType;

verus! {

/// The map after `k` ticks with no `set` in between.
pub open spec fn ticks(m: MapModel, p: nat, k: nat) -> MapModel
    decreases k,
{
    if k == 0 {
        m
    } else {
        tick_model(ticks(m, p, (k - 1) as nat), p)
    }
}

/// How many of the first `k` ticks from `m` send the package.
pub open spec fn flush_count(m: MapModel, p: nat, k: nat) -> nat
    decreases k,
{
    if k == 0 {
        0
    } else {
        flush_count(m, p, (k - 1) as nat) + if tick_flushes(ticks(m, p, (k - 1) as nat), p) {
            1nat
        } else {
            0nat
        }
    }
}

proof fn lemma_first_ticks(m: MapModel, p: nat, k: nat)
    requires
        m.current == 0,
        1 <= p,
        k < p,
    ensures
        ticks(m, p, k).current == k,
        flush_count(m, p, k) == 0,
    decreases k,
{
    if k > 0 {
        lemma_first_ticks(m, p, (k - 1) as nat);
    }
}

/// Starting from the first slot, `p` ticks send the package exactly once
/// and bring the cursor back to the first slot.
pub proof fn lemma_window_flushes_once(m: MapModel, p: nat)
    requires
        m.current == 0,
        1 <= p,
    ensures
        flush_count(m, p, p) == 1,
        ticks(m, p, p).current == 0,
{
    lemma_first_ticks(m, p, (p - 1) as nat);
}

/// Setting the same value under the same name twice in one window leaves the
/// map as one such `set` does.
pub proof fn lemma_set_idempotent(
    m: MapModel,
    k: Seq<u8>,
    vt: ValueType,
    raw: i32,
    of: bool,
    n: nat,
    p: nat,
)
    requires
        model_wf(m, n, p),
        valid_name(k),
        !set_overflows(m, k, n),
    ensures
        !set_overflows(set_model(m, k, vt, raw, of, p), k, n),
        set_model(set_model(m, k, vt, raw, of, p), k, vt, raw, of, p) == set_model(
            m,
            k,
            vt,
            raw,
            of,
            p,
        ),
{
    let m1 = set_model(m, k, vt, raw, of, p);
    let i: int = if m.names.contains(k) {
        name_index(m, k)
    } else {
        m.names.len() as int
    };
    assert(m1.names[i] == k);
    assert(m1.names.contains(k));
    let j = name_index(m1, k);
    assert(j == i) by {
        if j != i {
            if i < m.names.len() {
                assert(m.names[j] == k);
            } else {
                assert(m.names.contains(k));
            }
        }
    }
    let s = m1.signals[i];
    assert(store_sample(s, m1.current, raw, of).vals =~= s.vals);
    assert(m1.signals.update(i, store_sample(s, m1.current, raw, of)) =~= m1.signals);
}


/// The slot `t` ticks after slot `c`, for `c < p` and `t <= p`.
pub open spec fn slot(c: nat, t: nat, p: nat) -> nat {
    if c + t < p { c + t } else { (c + t - p) as nat }
}

/// A tick keeps the map well formed.
pub proof fn lemma_tick_wf(m: MapModel, n: nat, p: nat)
    requires
        model_wf(m, n, p),
    ensures
        model_wf(tick_model(m, p), n, p),
{
    let t = tick_model(m, p);
    assert forall|i: int| 0 <= i < t.signals.len() implies (#[trigger] t.signals[i]).vals.len() == p by {
        assert(t.signals[i] == roll_signal(m.signals[i], m.current, next_slot(m.current, p)));
    }
}

/// The hold value of signal `i`: what a silent tick writes into it.
pub open spec fn hold_value(m: MapModel, i: int) -> i32 {
    if m.signals[i].only_front { 0 } else { m.signals[i].vals[m.current as int] }
}

proof fn lemma_silent_ticks(m: MapModel, n: nat, p: nat, i: int, k: nat)
    requires
        model_wf(m, n, p),
        0 <= i < m.signals.len(),
        k <= p,
    ensures
        model_wf(ticks(m, p, k), n, p),
        ticks(m, p, k).signals.len() == m.signals.len(),
        ticks(m, p, k).current == slot(m.current, k, p),
        ticks(m, p, k).signals[i].only_front == m.signals[i].only_front,
        forall|t: nat| 1 <= t <= k ==> ticks(m, p, k).signals[i].vals[#[trigger] slot(m.current, t, p) as int]
            == hold_value(m, i),
        !m.signals[i].only_front ==> ticks(m, p, k).signals[i].vals[slot(m.current, k, p) as int]
            == hold_value(m, i),
    decreases k,
{
    let c = m.current;
    if k > 0 {
        let k1 = (k - 1) as nat;
        lemma_silent_ticks(m, n, p, i, k1);
        let mk = ticks(m, p, k1);
        lemma_tick_wf(mk, n, p);
        let cur = slot(c, k1, p);
        let nxt = slot(c, k, p);
        assert(next_slot(cur, p) == nxt);
        let sk = mk.signals[i];
        assert(ticks(m, p, k) == tick_model(mk, p));
        let s1 = ticks(m, p, k).signals[i];
        assert(s1 == roll_signal(sk, cur, nxt));
        assert(s1.vals[nxt as int] == hold_value(m, i)) by {
            if !m.signals[i].only_front {
                if k1 == 0 {
                    assert(cur == c);
                }
            }
        }
        assert forall|t: nat| 1 <= t <= k implies s1.vals[#[trigger] slot(c, t, p) as int] == hold_value(
            m,
            i,
        ) by {
            if t < k {
                assert(slot(c, t, p) != nxt);
            }
        }
    }
}

/// A window of `p` ticks with no `set` leaves every slot of a signal at its
/// hold value: zero for an only-front signal, and otherwise the sample at
/// the slot where the window began.
pub proof fn lemma_silent_window(m: MapModel, n: nat, p: nat, i: int)
    requires
        model_wf(m, n, p),
        0 <= i < m.signals.len(),
    ensures
        ticks(m, p, p).signals.len() == m.signals.len(),
        ticks(m, p, p).signals[i].only_front == m.signals[i].only_front,
        ticks(m, p, p).signals[i].vals == Seq::new(p, |j: int| hold_value(m, i)),
{
    let c = m.current;
    lemma_silent_ticks(m, n, p, i, p);
    let v = ticks(m, p, p).signals[i].vals;
    assert forall|j: int| 0 <= j < p implies v[j] == hold_value(m, i) by {
        let t: nat = if j > c { (j - c) as nat } else { (j + p - c) as nat };
        assert(slot(c, t, p) == j);
    }
    assert(v =~= Seq::new(p, |j: int| hold_value(m, i)));
}


/// Every slot of signal `i` holds 0 or 1.
pub open spec fn binary_slots(m: MapModel, i: int) -> bool {
    forall|j: int| 0 <= j < m.signals[i].vals.len() ==> #[trigger] m.signals[i].vals[j] == 0
        || m.signals[i].vals[j] == 1
}

/// A signal whose slots hold only 0 and 1 keeps that through a tick, and
/// through a `set` of 0 or 1 (what an `OnlyFront` sample stores).
pub proof fn lemma_binary_slots_kept(
    m: MapModel,
    n: nat,
    p: nat,
    i: int,
    k: Seq<u8>,
    vt: ValueType,
    raw: i32,
    of: bool,
)
    requires
        model_wf(m, n, p),
        0 <= i < m.signals.len(),
        binary_slots(m, i),
        raw == 0 || raw == 1,
        m.names.contains(k),
        m.names[i] == k,
    ensures
        binary_slots(tick_model(m, p), i),
        binary_slots(set_model(m, k, vt, raw, of, p), i),
{
    let t = tick_model(m, p);
    assert(t.signals[i] == roll_signal(m.signals[i], m.current, next_slot(m.current, p)));
    let j = name_index(m, k);
    assert(j == i);
}

} // verus!
