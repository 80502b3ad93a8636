use vstd::prelude::*;
use vstd::string::StringSliceAdditionalSpecFns;

use crate::name::{equal, valid_name, Name, NAME_MAX};
use crate::value::{Value, ValueType};

verus! {

/// What one signal holds: its type, its only-front flag and its samples.
pub struct SignalModel {
    pub vtype: ValueType,
    pub only_front: bool,
    pub vals: Seq<i32>,
}

/// What a signal map holds: the write cursor, the names in the order of
/// registration, and the signal registered under each.
pub struct MapModel {
    pub current: nat,
    pub names: Seq<Seq<u8>>,
    pub signals: Seq<SignalModel>,
}

/// `p` zero samples.
pub open spec fn zeros(p: nat) -> Seq<i32> {
    Seq::new(p, |i: int| 0i32)
}

/// The largest package of `n` signals with `p` samples each has a size that
/// fits the 32-bit size field.
pub open spec fn package_fits(n: nat, p: nat) -> bool {
    NAME_MAX + (NAME_MAX + 4 + 4 * p) * n <= 0xffff_ffff
}

/// The state that every signal map keeps: the cursor within the window,
/// at most `n` distinct valid names, `p` samples per signal.
pub open spec fn model_wf(m: MapModel, n: nat, p: nat) -> bool {
    &&& 1 <= n
    &&& 1 <= p
    &&& package_fits(n, p)
    &&& m.current < p
    &&& m.names.len() == m.signals.len()
    &&& m.names.len() <= n
    &&& forall|i: int| 0 <= i < m.names.len() ==> valid_name(#[trigger] m.names[i])
    &&& forall|i: int| 0 <= i < m.signals.len() ==> (#[trigger] m.signals[i]).vals.len() == p
    &&& forall|i: int, j: int|
        0 <= i < m.names.len() && 0 <= j < m.names.len() && i != j ==> m.names[i] != m.names[j]
}

/// The position of the registered name `k`.
pub open spec fn name_index(m: MapModel, k: Seq<u8>) -> int {
    choose|i: int| 0 <= i < m.names.len() && m.names[i] == k
}

/// Setting `k` needs a new entry and the map already holds `n`.
pub open spec fn set_overflows(m: MapModel, k: Seq<u8>, n: nat) -> bool {
    !m.names.contains(k) && m.names.len() >= n
}

/// A signal after `raw` was stored at slot `at` with the only-front flag `of`.
pub open spec fn store_sample(s: SignalModel, at: nat, raw: i32, of: bool) -> SignalModel {
    SignalModel { vtype: s.vtype, only_front: of, vals: s.vals.update(at as int, raw) }
}

/// The map after a successful `set` of `raw` under `k`: a new name is
/// registered with type `vt` and zero samples first.
pub open spec fn set_model(m: MapModel, k: Seq<u8>, vt: ValueType, raw: i32, of: bool, p: nat) -> MapModel {
    if m.names.contains(k) {
        let i = name_index(m, k);
        MapModel {
            current: m.current,
            names: m.names,
            signals: m.signals.update(i, store_sample(m.signals[i], m.current, raw, of)),
        }
    } else {
        let fresh = SignalModel { vtype: vt, only_front: false, vals: zeros(p) };
        MapModel {
            current: m.current,
            names: m.names.push(k),
            signals: m.signals.push(store_sample(fresh, m.current, raw, of)),
        }
    }
}

/// Value Record: the samples of one signal; `P` is the package size.
#[derive(Clone)]
pub struct ValueRec<const P: usize> {
    is_only_front: bool,
    vtype: ValueType,
    vals: [i32; P],
}

impl<const P: usize> View for ValueRec<P> {
    type V = SignalModel;

    closed spec fn view(&self) -> SignalModel {
        SignalModel { vtype: self.vtype, only_front: self.is_only_front, vals: self.vals@ }
    }
}

impl<const P: usize> ValueRec<P> {
    /// Create an empty Value Record.
    pub fn new(vtype: ValueType) -> (r: Self)
        ensures
            r@ == (SignalModel { vtype, only_front: false, vals: zeros(P as nat) }),
    {
        let r = Self { is_only_front: false, vtype, vals: [0; P] };
        proof {
            assert(r.vals@ =~= zeros(P as nat));
        }
        r
    }

    /// The declared type of the signal.
    pub fn vtype(&self) -> (r: ValueType)
        ensures
            r == self@.vtype,
    {
        self.vtype
    }

    /// Whether the last sample was an only-front impulse.
    pub fn is_only_front(&self) -> (r: bool)
        ensures
            r == self@.only_front,
    {
        self.is_only_front
    }

    /// The samples of the current window.
    pub fn vals(&self) -> (r: &[i32; P])
        ensures
            r@ == self@.vals,
            r@.len() == P,
    {
        &self.vals
    }
}

/// Errors of adding values to the container.
#[derive(Clone, Copy, Debug, PartialEq, Eq, Structural)]
pub enum AddError {
    /// Overflow of container
    MapOverflow,
}


/// What a signal table holds: names in the order of registration, and the
/// signal registered under each.
pub struct TableModel {
    pub names: Seq<Seq<u8>>,
    pub signals: Seq<SignalModel>,
}

/// A fixed-capacity map from signal name to Value Record, kept in the order
/// in which the names were registered; `N` is the capacity.
pub struct SignalTable<const N: usize, const P: usize> {
    names: Vec<&'static str>,
    recs: Vec<ValueRec<P>>,
}

impl<const N: usize, const P: usize> View for SignalTable<N, P> {
    type V = TableModel;

    closed spec fn view(&self) -> TableModel {
        TableModel {
            names: self.names@.map_values(|s: &'static str| s.spec_bytes()),
            signals: self.recs@.map_values(|r: ValueRec<P>| r@),
        }
    }
}

impl<const N: usize, const P: usize> SignalTable<N, P> {
    /// The number of registered signals.
    fn len(&self) -> (r: usize)
        requires
            self@.names.len() == self@.signals.len(),
        ensures
            r == self@.names.len(),
    {
        self.names.len()
    }

    /// The name registered at position `i`.
    fn name(&self, i: usize) -> (r: &'static str)
        requires
            i < self@.names.len(),
        ensures
            r.spec_bytes() == self@.names[i as int],
    {
        self.names[i]
    }

    /// The record registered at position `i`.
    fn record(&self, i: usize) -> (r: &ValueRec<P>)
        requires
            i < self@.signals.len(),
        ensures
            r@ == self@.signals[i as int],
    {
        &self.recs[i]
    }

    /// The position of `key`, if it is registered.
    fn find(&self, key: &str) -> (r: Option<usize>)
        requires
            self@.names.len() == self@.signals.len(),
        ensures
            r is None <==> !self@.names.contains(key.spec_bytes()),
            r matches Some(i) ==> i < self@.names.len() && self@.names[i as int] == key.spec_bytes(),
    {
        let mut i: usize = 0;
        while i < self.names.len()
            invariant
                self@.names.len() == self.names@.len(),
                i <= self.names@.len(),
                forall|j: int| 0 <= j < i ==> self@.names[j] != key.spec_bytes(),
            decreases self.names@.len() - i,
        {
            if equal(self.names[i], key) {
                proof {
                    assert(self@.names[i as int] == key.spec_bytes());
                }
                return Some(i);
            }
            i += 1;
        }
        proof {
            if self@.names.contains(key.spec_bytes()) {
                let j = choose|j: int| 0 <= j < self@.names.len() && self@.names[j] == key.spec_bytes();
                assert(self@.names[j] != key.spec_bytes());
            }
        }
        None
    }

    /// Stores `val` at slot `at` of the record at position `i`.
    fn store(&mut self, i: usize, at: usize, val: i32, only_front: bool)
        requires
            i < old(self)@.signals.len(),
            at < P,
        ensures
            final(self)@.names == old(self)@.names,
            final(self)@.signals == old(self)@.signals.update(
                i as int,
                store_sample(old(self)@.signals[i as int], at as nat, val, only_front),
            ),
    {
        let rec = &mut self.recs[i];
        rec.vals[at] = val;
        rec.is_only_front = only_front;
        proof {
            assert(self@.names =~= old(self)@.names);
            assert(self@.signals =~= old(self)@.signals.update(
                i as int,
                store_sample(old(self)@.signals[i as int], at as nat, val, only_front),
            ));
        }
    }

    /// Seeds slot `current` of every record from slot `previous`: zero for an
    /// only-front signal, the previous sample otherwise.
    fn roll(&mut self, previous: usize, current: usize)
        requires
            previous < P,
            current < P,
        ensures
            final(self)@.names == old(self)@.names,
            final(self)@.signals == old(self)@.signals.map_values(
                |s: SignalModel| roll_signal(s, previous as nat, current as nat),
            ),
    {
        let ghost old_signals = self@.signals;
        let mut i: usize = 0;
        while i < self.recs.len()
            invariant
                previous < P,
                current < P,
                self@.names == old(self)@.names,
                self.recs@.len() == old_signals.len(),
                old_signals == old(self)@.signals,
                i <= self.recs@.len(),
                forall|j: int| 0 <= j < i ==> self@.signals[j] == roll_signal(
                    old_signals[j], previous as nat, current as nat),
                forall|j: int| i <= j < self.recs@.len() ==> self@.signals[j] == old_signals[j],
            decreases self.recs@.len() - i,
        {
            let ghost pre = self.recs@;
            let ghost pre_sig = self@.signals;
            let rec = &mut self.recs[i];
            let v = if rec.is_only_front { 0 } else { rec.vals[previous] };
            rec.vals[current] = v;
            proof {
                assert(self@.names =~= old(self)@.names);
                assert(self@.signals[i as int].vals =~= roll_signal(
                    old_signals[i as int], previous as nat, current as nat).vals);
                assert forall|j: int| 0 <= j < i implies self@.signals[j] == roll_signal(
                    old_signals[j], previous as nat, current as nat) by {
                    assert(pre_sig[j] == roll_signal(old_signals[j], previous as nat, current as nat));
                    assert(pre_sig[j] == pre[j]@);
                    assert(self.recs@[j] == pre[j]);
                }
            }
            i += 1;
        }
        proof {
            assert(self@.signals =~= old_signals.map_values(
                |s: SignalModel| roll_signal(s, previous as nat, current as nat),
            ));
        }
    }
}

/// A signal after a tick from slot `previous` to slot `current`: the new slot
/// holds zero for an only-front signal and the previous sample otherwise.
pub open spec fn roll_signal(s: SignalModel, previous: nat, current: nat) -> SignalModel {
    SignalModel {
        vtype: s.vtype,
        only_front: s.only_front,
        vals: s.vals.update(current as int, if s.only_front { 0 } else { s.vals[previous as int] }),
    }
}

/// Go to the next sample position.
pub trait NextValue: Sized {
    /// The state in which the container may advance.
    spec fn wf(&self) -> bool;

    /// Advances the write position; on wrap-around `f` is called to send the
    /// package. Signals that get no update keep their previous value.
    fn next<F>(&mut self, f: F)
        where
            F: FnOnce(&Self),
        requires
            old(self).wf(),
            forall|s: &Self| #[trigger] f.requires((s,)),
        ensures
            final(self).wf(),
    ;
}

/// Generic signal container: a shared write cursor and a map of signals.
pub struct SVStruct<M> {
    current: usize,
    map: M,
}

/// Map of signals: at most `N` signals of `P` samples each.
pub type SVMap<const N: usize, const P: usize> = SVStruct<SignalTable<N, P>>;

impl<const N: usize, const P: usize> View for SVMap<N, P> {
    type V = MapModel;

    closed spec fn view(&self) -> MapModel {
        MapModel { current: self.current as nat, names: self.map@.names, signals: self.map@.signals }
    }
}

/// The cursor after a tick from `c` in a window of `p` slots.
pub open spec fn next_slot(c: nat, p: nat) -> nat {
    if c + 1 >= p { (c + 1 - p) as nat } else { c + 1 }
}

/// A tick from `m` wraps around and sends the package.
pub open spec fn tick_flushes(m: MapModel, p: nat) -> bool {
    m.current + 1 >= p
}

/// The map that a wrapping tick hands to the flush action: the cursor back
/// at the first slot, the signals as the window left them.
pub open spec fn flushed_model(m: MapModel) -> MapModel {
    MapModel { current: 0, names: m.names, signals: m.signals }
}

/// The map after a tick: the cursor moves on and every signal seeds its new slot.
pub open spec fn tick_model(m: MapModel, p: nat) -> MapModel {
    let c = next_slot(m.current, p);
    MapModel {
        current: c,
        names: m.names,
        signals: m.signals.map_values(|s: SignalModel| roll_signal(s, m.current, c)),
    }
}

impl<const N: usize, const P: usize> SVMap<N, P> {
    /// Create an empty map with the cursor at the first slot.
    pub fn new() -> (r: Self)
        requires
            1 <= N,
            1 <= P,
            package_fits(N as nat, P as nat),
        ensures
            r.wf(),
            r@.current == 0,
            r@.names.len() == 0,
    {
        let r = Self { current: 0, map: SignalTable { names: Vec::new(), recs: Vec::new() } };
        proof {
            assert(r@.names =~= Seq::<Seq<u8>>::empty());
        }
        r
    }

    /// The number of registered signals.
    pub fn len(&self) -> (r: usize)
        requires
            self.wf(),
        ensures
            r == self@.names.len(),
    {
        self.map.len()
    }

    /// The name of the signal registered at position `i`.
    pub fn name(&self, i: usize) -> (r: &'static str)
        requires
            self.wf(),
            i < self@.names.len(),
        ensures
            r.spec_bytes() == self@.names[i as int],
    {
        self.map.name(i)
    }

    /// The record of the signal registered at position `i`.
    pub fn record(&self, i: usize) -> (r: &ValueRec<P>)
        requires
            self.wf(),
            i < self@.names.len(),
        ensures
            r@ == self@.signals[i as int],
    {
        self.map.record(i)
    }

    /// Checks if package is empty.
    pub fn is_first(&self) -> (r: bool)
        ensures
            r == (self@.current == 0),
    {
        self.current == 0
    }

    /// Checks if package is full.
    pub fn is_last(&self) -> (r: bool)
        requires
            1 <= P,
        ensures
            r == (self@.current == P - 1),
    {
        self.current == P - 1
    }

    fn set_value(&mut self, name: &'static str, vtype: ValueType, val: i32, only_front: bool) -> (r:
        Result<(), AddError>)
        requires
            old(self).wf(),
            valid_name(name.spec_bytes()),
        ensures
            final(self).wf(),
            r is Err <==> set_overflows(old(self)@, name.spec_bytes(), N as nat),
            r is Ok ==> final(self)@ == set_model(
                old(self)@, name.spec_bytes(), vtype, val, only_front, P as nat),
            r is Err ==> final(self)@ == old(self)@,
    {
        let ghost m = self@;
        let ghost k = name.spec_bytes();
        let i = match self.map.find(name) {
            Some(i) => i,
            None => {
                if self.map.names.len() >= N {
                    return Err(AddError::MapOverflow);
                }
                self.map.names.push(name);
                self.map.recs.push(ValueRec::new(vtype));
                proof {
                    assert(self@.names =~= m.names.push(k));
                }
                self.map.names.len() - 1
            },
        };
        self.map.store(i, self.current, val, only_front);
        proof {
            if m.names.contains(k) {
                let j = name_index(m, k);
                assert(m.names[i as int] == k);
                assert(i == j);
                assert(self@.signals =~= set_model(m, k, vtype, val, only_front, P as nat).signals);
            } else {
                assert(self@.signals =~= set_model(m, k, vtype, val, only_front, P as nat).signals);
                assert forall|a: int, b: int|
                    0 <= a < self@.names.len() && 0 <= b < self@.names.len() && a != b implies
                    self@.names[a] != self@.names[b] by {
                    if a == i as int {
                        assert(m.names[b] != k);
                    } else if b == i as int {
                        assert(m.names[a] != k);
                    }
                }
            }
        }
        Ok(())
    }

    /// Update the value of the signal `name` at the current time position,
    /// registering the signal first if it is new.
    pub fn set<T: Value>(&mut self, name: &'static Name, value: T) -> (r: Result<(), AddError>)
        requires
            old(self).wf(),
        ensures
            final(self).wf(),
            r is Err <==> set_overflows(old(self)@, name.bytes(), N as nat),
            r is Ok ==> final(self)@ == set_model(
                old(self)@,
                name.bytes(),
                T::spec_value_type(),
                value.raw(),
                T::spec_only_front(),
                P as nat,
            ),
            r is Err ==> final(self)@ == old(self)@,
    {
        self.set_value(name.as_str(), T::value_type(), value.to_i32(), T::only_front())
    }
}

impl<const N: usize, const P: usize> NextValue for SVMap<N, P> {
    open spec fn wf(&self) -> bool {
        model_wf(self@, N as nat, P as nat)
    }

    fn next<F>(&mut self, f: F)
        where
            F: FnOnce(&Self),
        ensures
            final(self)@ == tick_model(old(self)@, P as nat),
            final(self)@.current < P,
            tick_flushes(old(self)@, P as nat) ==> exists|s: &Self| #[trigger] f.ensures((s,), ())
                && s@ == flushed_model(old(self)@),
    {
        let ghost m = self@;
        let ghost mut flushed: Option<Self> = None;
        let previous = self.current;
        self.current = self.current + 1;
        if self.current >= P {
            self.current = self.current - P;
            proof {
                flushed = Some(*self);
            }
            f(&*self);
        }
        self.map.roll(previous, self.current);
        proof {
            assert(self@.signals =~= tick_model(m, P as nat).signals);
            if tick_flushes(m, P as nat) {
                let w = flushed.unwrap();
                assert(f.ensures((&w,), ()));
                assert(w@ == flushed_model(m));
            }
        }
    }
}

} // verus!
