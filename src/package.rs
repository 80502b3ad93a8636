use vstd::prelude::*;
use vstd::string::StringSliceAdditionalSpecFns;

use crate::map::{model_wf, MapModel, NextValue, SVMap, SignalModel, ValueRec};
use crate::name::{begin_literal, begin_marker, end_literal, end_marker, valid_name, Name, NAME_MAX};
use crate::value::type_code;

verus! {

/// A name field: the name's bytes, NUL-padded on the right to `NAME_MAX`.
pub open spec fn padded(name: Seq<u8>) -> Seq<u8> {
    name + Seq::new((NAME_MAX - name.len()) as nat, |i: int| 0u8)
}

/// The four little-endian bytes of a 32-bit word `w`.
pub open spec fn word_bytes(w: nat) -> Seq<u8> {
    seq![(w % 256) as u8, ((w / 256) % 256) as u8, ((w / 65536) % 256) as u8, ((w / 16777216) % 256) as u8]
}

/// The two's-complement bit pattern of `x`, read as an unsigned number.
pub open spec fn unsigned(x: i32) -> nat {
    if x >= 0 { x as nat } else { (x + 0x1_0000_0000) as nat }
}

/// The samples, four little-endian bytes each.
pub open spec fn sample_bytes(vals: Seq<i32>) -> Seq<u8>
    decreases vals.len(),
{
    if vals.len() == 0 {
        Seq::empty()
    } else {
        sample_bytes(vals.drop_last()) + word_bytes(unsigned(vals.last()))
    }
}

/// One signal record: padded name, type code as a 32-bit word, samples.
pub open spec fn record_bytes(name: Seq<u8>, s: SignalModel) -> Seq<u8> {
    padded(name) + word_bytes(unsigned(type_code(s.vtype))) + sample_bytes(s.vals)
}

/// The records of the first `k` signals of `m`, in order.
pub open spec fn records_bytes(m: MapModel, k: nat) -> Seq<u8>
    decreases k,
{
    if k == 0 {
        Seq::empty()
    } else {
        records_bytes(m, (k - 1) as nat) + record_bytes(m.names[k - 1], m.signals[k - 1])
    }
}

/// The size of one record with `p` samples.
pub open spec fn record_size(p: nat) -> nat {
    (NAME_MAX + 4 + 4 * p) as nat
}

/// The value of the size field: module name plus all records.
pub open spec fn full_size(m: MapModel, p: nat) -> nat {
    (NAME_MAX + record_size(p) * m.names.len()) as nat
}

/// The opening of a package: marker, size field and module name.
pub open spec fn head_bytes(module: Seq<u8>, m: MapModel, p: nat) -> Seq<u8> {
    begin_marker() + word_bytes(full_size(m, p)) + padded(module)
}

/// The whole package for `module` and the map `m`.
pub open spec fn package_bytes(module: Seq<u8>, m: MapModel, p: nat) -> Seq<u8> {
    head_bytes(module, m, p) + records_bytes(m, m.names.len()) + end_marker()
}

/// Appends the four little-endian bytes of `w`.
fn push_word(out: &mut Vec<u8>, w: u32)
    ensures
        final(out)@ == old(out)@ + word_bytes(w as nat),
{
    out.push((w % 256) as u8);
    out.push(((w / 256) % 256) as u8);
    out.push(((w / 65536) % 256) as u8);
    out.push((w / 16777216) as u8);
    proof {
        assert(final(out)@ =~= old(out)@ + word_bytes(w as nat));
    }
}

/// The bit pattern of `x` as an unsigned word.
fn unsigned_word(x: i32) -> (r: u32)
    ensures
        r as nat == unsigned(x),
{
    if x >= 0 {
        x as u32
    } else {
        (x as i64 + 0x1_0000_0000i64) as u32
    }
}

/// Appends the name field of `name`.
fn push_padded(out: &mut Vec<u8>, name: &str)
    requires
        name.spec_bytes().len() <= NAME_MAX,
    ensures
        final(out)@ == old(out)@ + padded(name.spec_bytes()),
{
    let b = name.as_bytes();
    out.extend_from_slice(b);
    let mut i: usize = b.len();
    while i < NAME_MAX
        invariant
            b@ == name.spec_bytes(),
            b@.len() <= i <= NAME_MAX,
            out@ == old(out)@ + b@ + Seq::new((i - b@.len()) as nat, |j: int| 0u8),
        decreases NAME_MAX - i,
    {
        out.push(0);
        proof {
            assert(Seq::new((i + 1 - b@.len()) as nat, |j: int| 0u8) =~= Seq::new(
                (i - b@.len()) as nat,
                |j: int| 0u8,
            ).push(0u8));
        }
        i += 1;
    }
}

/// Appends the samples of `vals`.
fn push_samples<const P: usize>(out: &mut Vec<u8>, vals: &[i32; P])
    ensures
        final(out)@ == old(out)@ + sample_bytes(vals@),
{
    let mut i: usize = 0;
    while i < P
        invariant
            vals@.len() == P,
            i <= P,
            out@ == old(out)@ + sample_bytes(vals@.take(i as int)),
        decreases P - i,
    {
        let w = unsigned_word(vals[i]);
        push_word(out, w);
        proof {
            assert(vals@.take(i + 1).drop_last() =~= vals@.take(i as int));
        }
        i += 1;
    }
    proof {
        assert(vals@.take(P as int) =~= vals@);
    }
}

/// Appends the record of signal `name` with samples `rec`.
fn push_record<const P: usize>(out: &mut Vec<u8>, name: &str, rec: &ValueRec<P>)
    requires
        name.spec_bytes().len() <= NAME_MAX,
    ensures
        final(out)@ == old(out)@ + record_bytes(name.spec_bytes(), rec@),
{
    push_padded(out, name);
    let code = rec.vtype().code();
    push_word(out, unsigned_word(code));
    push_samples(out, rec.vals());
    proof {
        assert(final(out)@ =~= old(out)@ + record_bytes(name.spec_bytes(), rec@));
    }
}

/// The opening of the package for `module` and `values`: the begin marker,
/// the size field and the module name.
pub fn package_head<const N: usize, const P: usize>(module: &Name, values: &SVMap<N, P>) -> (r: Vec<u8>)
    requires
        values.wf(),
    ensures
        r@ == head_bytes(module.bytes(), values@, P as nat),
{
    let len = values.len();
    proof {
        let n = N as nat;
        let p = P as nat;
        let l = len as nat;
        assert((NAME_MAX + 4 + 4 * p) * l <= (NAME_MAX + 4 + 4 * p) * n) by (nonlinear_arith)
            requires l <= n;
        assert(NAME_MAX + 4 + 4 * p <= (NAME_MAX + 4 + 4 * p) * n) by (nonlinear_arith)
            requires 1 <= n;
    }
    let full = NAME_MAX + (NAME_MAX + 4 + 4 * P) * len;
    let mut out: Vec<u8> = Vec::new();
    out.extend_from_slice(begin_literal().as_bytes());
    push_word(&mut out, full as u32);
    push_padded(&mut out, module.as_str());
    proof {
        assert(out@ =~= head_bytes(module.bytes(), values@, P as nat));
    }
    out
}

/// The record of the signal at position `i` of `values`.
pub fn package_record<const N: usize, const P: usize>(values: &SVMap<N, P>, i: usize) -> (r: Vec<u8>)
    requires
        values.wf(),
        i < values@.names.len(),
    ensures
        r@ == record_bytes(values@.names[i as int], values@.signals[i as int]),
{
    let mut out: Vec<u8> = Vec::new();
    push_record(&mut out, values.name(i), values.record(i));
    proof {
        assert(out@ =~= record_bytes(values@.names[i as int], values@.signals[i as int]));
    }
    out
}

/// The closing marker of a package.
pub fn package_tail() -> (r: Vec<u8>)
    ensures
        r@ == end_marker(),
{
    let mut out: Vec<u8> = Vec::new();
    out.extend_from_slice(end_literal().as_bytes());
    proof {
        assert(out@ =~= end_marker());
    }
    out
}

/// The whole package for `module` and `values`, as the bytes that
/// `send_package` hands to the sink one after another.
pub fn package<const N: usize, const P: usize>(module: &Name, values: &SVMap<N, P>) -> (r: Vec<u8>)
    requires
        values.wf(),
    ensures
        r@ == package_bytes(module.bytes(), values@, P as nat),
{
    let mut out = package_head(module, values);
    let ghost head = out@;
    let len = values.len();
    let mut i: usize = 0;
    while i < len
        invariant
            values.wf(),
            len == values@.names.len(),
            i <= len,
            out@ == head + records_bytes(values@, i as nat),
        decreases len - i,
    {
        let mut rec = package_record(values, i);
        out.append(&mut rec);
        proof {
            assert(out@ =~= head + records_bytes(values@, (i + 1) as nat));
        }
        i += 1;
    }
    let mut tail = package_tail();
    out.append(&mut tail);
    proof {
        assert(out@ =~= package_bytes(module.bytes(), values@, P as nat));
    }
    out
}


proof fn lemma_sample_bytes_len(vals: Seq<i32>)
    ensures
        sample_bytes(vals).len() == 4 * vals.len(),
    decreases vals.len(),
{
    if vals.len() > 0 {
        lemma_sample_bytes_len(vals.drop_last());
    }
}

proof fn lemma_record_bytes_len(name: Seq<u8>, s: SignalModel)
    requires
        name.len() <= NAME_MAX,
    ensures
        record_bytes(name, s).len() == record_size(s.vals.len()),
{
    lemma_sample_bytes_len(s.vals);
}

proof fn lemma_records_bytes_len(m: MapModel, n: nat, p: nat, k: nat)
    requires
        model_wf(m, n, p),
        k <= m.names.len(),
    ensures
        records_bytes(m, k).len() == k * record_size(p),
    decreases k,
{
    if k > 0 {
        lemma_records_bytes_len(m, n, p, (k - 1) as nat);
        lemma_record_bytes_len(m.names[k - 1], m.signals[k - 1]);
        assert(m.signals[k - 1].vals.len() == p);
        assert((k - 1) * record_size(p) + record_size(p) == k * record_size(p)) by (nonlinear_arith)
            requires k >= 1;
    } else {
        assert(k * record_size(p) == 0) by (nonlinear_arith)
            requires k == 0;
    }
}

/// Record `i` of the first `k` sits at offset `i * record_size(p)`.
proof fn lemma_record_at(m: MapModel, n: nat, p: nat, k: nat, i: nat)
    requires
        model_wf(m, n, p),
        i < k <= m.names.len(),
    ensures
        records_bytes(m, k).subrange((i * record_size(p)) as int, (i * record_size(p) + record_size(p)) as int)
            == record_bytes(m.names[i as int], m.signals[i as int]),
    decreases k,
{
    let vl: int = record_size(p) as int;
    lemma_records_bytes_len(m, n, p, (k - 1) as nat);
    lemma_record_bytes_len(m.names[k - 1], m.signals[k - 1]);
    let prev = records_bytes(m, (k - 1) as nat);
    let last = record_bytes(m.names[k - 1], m.signals[k - 1]);
    if i == k - 1 {
        assert(records_bytes(m, k).subrange(i * vl, i * vl + vl) =~= last);
    } else {
        lemma_record_at(m, n, p, (k - 1) as nat, i);
        assert(i * vl + vl <= (k - 1) * vl) by (nonlinear_arith)
            requires i + 1 <= k - 1, vl >= 0;
        assert(records_bytes(m, k).subrange(i * vl, i * vl + vl) =~= prev.subrange(i * vl, i * vl + vl));
    }
}

proof fn lemma_package_layout(module: Seq<u8>, m: MapModel, n: nat, p: nat)
    requires
        model_wf(m, n, p),
        valid_name(module),
    ensures
        head_bytes(module, m, p).len() == 35,
        records_bytes(m, m.names.len()).len() == m.names.len() * record_size(p),
        package_bytes(module, m, p) == head_bytes(module, m, p) + records_bytes(m, m.names.len())
            + end_marker(),
{
    lemma_records_bytes_len(m, n, p, m.names.len());
}

/// A package is `7 + 4 + full_size + 5` bytes long, and its size field holds
/// `full_size`: the module name plus one record of `24 + 4 + 4 * p` bytes per
/// signal.
pub proof fn lemma_package_size(module: Seq<u8>, m: MapModel, n: nat, p: nat)
    requires
        model_wf(m, n, p),
        valid_name(module),
    ensures
        full_size(m, p) == NAME_MAX + (NAME_MAX + 4 + 4 * p) * m.names.len(),
        package_bytes(module, m, p).len() == 7 + 4 + full_size(m, p) + 5,
        package_bytes(module, m, p).subrange(7, 11) == word_bytes(full_size(m, p)),
{
    lemma_package_layout(module, m, n, p);
    assert(m.names.len() * record_size(p) == record_size(p) * m.names.len()) by (nonlinear_arith);
    assert(package_bytes(module, m, p).subrange(7, 11) =~= word_bytes(full_size(m, p)));
}

/// Bytes 11 to 34 of a package are the module name, NUL-padded to 24 bytes.
pub proof fn lemma_package_module(module: Seq<u8>, m: MapModel, n: nat, p: nat)
    requires
        model_wf(m, n, p),
        valid_name(module),
    ensures
        package_bytes(module, m, p).subrange(11, 35) == padded(module),
        padded(module).len() == NAME_MAX,
        padded(module).subrange(0, module.len() as int) == module,
        forall|j: int| module.len() <= j < NAME_MAX ==> #[trigger] padded(module)[j] == 0,
{
    lemma_package_layout(module, m, n, p);
    assert(package_bytes(module, m, p).subrange(11, 35) =~= padded(module));
    assert(padded(module).subrange(0, module.len() as int) =~= module);
}

/// Record `i` of a package starts at offset `35 + i * (24 + 4 + 4 * p)` with
/// the signal's NUL-padded name, then its type code as a little-endian
/// 32-bit word, then its samples.
pub proof fn lemma_package_record(module: Seq<u8>, m: MapModel, n: nat, p: nat, i: nat)
    requires
        model_wf(m, n, p),
        valid_name(module),
        i < m.names.len(),
    ensures
        ({
            let at = (35 + i * record_size(p)) as int;
            let bytes = package_bytes(module, m, p);
            &&& bytes.subrange(at, at + NAME_MAX) == padded(m.names[i as int])
            &&& bytes.subrange(at + NAME_MAX, at + NAME_MAX + 4) == word_bytes(
                unsigned(type_code(m.signals[i as int].vtype)),
            )
            &&& bytes.subrange(at + NAME_MAX + 4, at + record_size(p)) == sample_bytes(
                m.signals[i as int].vals,
            )
        }),
{
    let vl: int = record_size(p) as int;
    let k: nat = m.names.len();
    lemma_package_layout(module, m, n, p);
    lemma_record_at(m, n, p, k, i);
    assert(i * vl + vl <= k * vl) by (nonlinear_arith)
        requires i + 1 <= k, vl >= 0;
    let bytes = package_bytes(module, m, p);
    let recs = records_bytes(m, k);
    let at: int = 35 + i * vl;
    let r = record_bytes(m.names[i as int], m.signals[i as int]);
    assert(bytes.subrange(at, at + vl) =~= recs.subrange(i * vl, i * vl + vl));
    lemma_sample_bytes_len(m.signals[i as int].vals);
    assert(bytes.subrange(at, at + NAME_MAX) =~= r.subrange(0, NAME_MAX as int));
    assert(r.subrange(0, NAME_MAX as int) =~= padded(m.names[i as int]));
    assert(bytes.subrange(at + NAME_MAX, at + NAME_MAX + 4) =~= r.subrange(
        NAME_MAX as int,
        NAME_MAX + 4,
    ));
    assert(bytes.subrange(at + NAME_MAX + 4, at + vl) =~= r.subrange(NAME_MAX + 4, vl as int));
}

/// `after` is what a sink held as `before` followed by a prefix of `given`.
pub open spec fn sent_prefix(before: Seq<u8>, after: Seq<u8>, given: Seq<u8>) -> bool {
    &&& before.len() <= after.len() <= before.len() + given.len()
    &&& after == (before + given).take(after.len() as int)
}

proof fn lemma_sent_prefix_step(s0: Seq<u8>, done: Seq<u8>, seg: Seq<u8>, pkg: Seq<u8>, s: Seq<u8>)
    requires
        done.len() + seg.len() <= pkg.len(),
        pkg.take((done.len() + seg.len()) as int) == done + seg,
        sent_prefix(s0 + done, s, seg),
    ensures
        sent_prefix(s0, s, pkg),
{
    let pre = done + seg;
    assert forall|j: int| 0 <= j < s.len() implies s[j] == (s0 + pkg)[j] by {
        assert(s[j] == (s0 + done + seg)[j]);
        if j >= s0.len() {
            let t = j - s0.len();
            assert((s0 + done + seg)[j] == pre[t]);
            assert(pkg.take(pre.len() as int)[t] == pre[t]);
            assert((s0 + pkg)[j] == pkg[t]);
        } else {
            assert((s0 + done + seg)[j] == s0[j]);
        }
    }
    assert(s =~= (s0 + pkg).take(s.len() as int));
}

proof fn lemma_records_prefix(m: MapModel, i: nat, k: nat)
    requires
        i <= k,
    ensures
        records_bytes(m, i).len() <= records_bytes(m, k).len(),
        records_bytes(m, k).take(records_bytes(m, i).len() as int) == records_bytes(m, i),
    decreases k,
{
    if i < k {
        lemma_records_prefix(m, i, (k - 1) as nat);
        let prev = records_bytes(m, (k - 1) as nat);
        let ri = records_bytes(m, i);
        assert(records_bytes(m, k).take(ri.len() as int) =~= prev.take(ri.len() as int));
    } else {
        assert(records_bytes(m, k).take(records_bytes(m, i).len() as int) =~= records_bytes(m, i));
    }
}

/// The head and the first `i` records are the start of the package.
proof fn lemma_package_prefix(module: Seq<u8>, m: MapModel, p: nat, i: nat)
    requires
        i <= m.names.len(),
    ensures
        ({
            let done = head_bytes(module, m, p) + records_bytes(m, i);
            let pkg = package_bytes(module, m, p);
            &&& done.len() <= pkg.len()
            &&& pkg.take(done.len() as int) == done
        }),
{
    let head = head_bytes(module, m, p);
    let all = records_bytes(m, m.names.len());
    lemma_records_prefix(m, i, m.names.len());
    let done = head + records_bytes(m, i);
    let pkg = package_bytes(module, m, p);
    assert(pkg.take(done.len() as int) =~= done) by {
        assert forall|j: int| 0 <= j < done.len() implies pkg[j] == done[j] by {
            if j >= head.len() {
                assert(all.take(records_bytes(m, i).len() as int)[j - head.len()] == records_bytes(m, i)[j
                    - head.len()]);
            }
        }
    }
}

/// A blocking byte sink, such as a serial transmitter.
pub trait WriteIter {
    /// Error type
    type Error;

    /// The bytes that the sink has taken so far. A sink verified with this
    /// library defines it; for any other sink it is left unspecified.
    closed spec fn sent(&self) -> Seq<u8> {
        arbitrary()
    }

    /// Blocking write of all `bytes`, in order. On success the sink took them
    /// all; on an error it took a prefix of them.
    fn bwrite_iter(&mut self, bytes: &[u8]) -> (r: Result<(), Self::Error>)
        ensures
            r is Ok ==> final(self).sent() == old(self).sent() + bytes@,
            sent_prefix(old(self).sent(), final(self).sent(), bytes@),
    ;

    /// Blocking flush; it takes no bytes.
    fn bflush(&mut self) -> (r: Result<(), Self::Error>)
        ensures
            final(self).sent() == old(self).sent(),
    ;
}

/// Form and send a package.
pub trait SendPackage<V> {
    /// Error type
    type Error;

    /// The containers that this sender can put into a package.
    spec fn sendable(values: &V) -> bool;

    /// Send package with module name.
    fn send_package(&mut self, module: &'static Name, values: &V) -> Result<(), Self::Error>
        requires
            Self::sendable(values),
    ;
}

/// Writes the package of `package` to any byte sink: the head, each record
/// and the end marker, each followed by a flush. The first error of the sink
/// stops the package and is returned; the sink has then taken a prefix of
/// the package.
impl<Tx: WriteIter, const N: usize, const P: usize> SendPackage<SVMap<N, P>> for Tx {
    type Error = <Tx as WriteIter>::Error;

    open spec fn sendable(values: &SVMap<N, P>) -> bool {
        values.wf()
    }

    fn send_package(&mut self, module: &'static Name, values: &SVMap<N, P>) -> (r: Result<(), Self::Error>)
        ensures
            r is Ok ==> final(self).sent() == old(self).sent() + package_bytes(module.bytes(), values@, P as nat),
            sent_prefix(old(self).sent(), final(self).sent(), package_bytes(module.bytes(), values@, P as nat)),
    {
        let ghost s0 = self.sent();
        let ghost m = values@;
        let ghost pkg = package_bytes(module.bytes(), m, P as nat);
        let ghost empty = Seq::<u8>::empty();
        let head = package_head(module, values);
        proof {
            lemma_package_prefix(module.bytes(), m, P as nat, 0);
            assert(head@ + records_bytes(m, 0) =~= head@);
            assert(empty + head@ =~= head@);
            assert(s0 + empty =~= s0);
        }
        match self.bwrite_iter(head.as_slice()) {
            Ok(()) => {},
            Err(e) => {
                proof {
                    lemma_sent_prefix_step(s0, empty, head@, pkg, self.sent());
                }
                return Err(e);
            },
        }
        match self.bflush() {
            Ok(()) => {},
            Err(e) => {
                proof {
                    assert(head@ + empty =~= head@);
                    assert((s0 + head@ + empty).take(self.sent().len() as int) =~= self.sent());
                    lemma_sent_prefix_step(s0, head@, empty, pkg, self.sent());
                }
                return Err(e);
            },
        }
        let len = values.len();
        let mut i: usize = 0;
        while i < len
            invariant
                values.wf(),
                m == values@,
                len == m.names.len(),
                i <= len,
                pkg == package_bytes(module.bytes(), m, P as nat),
                head@ == head_bytes(module.bytes(), m, P as nat),
                self.sent() == s0 + (head@ + records_bytes(m, i as nat)),
                empty == Seq::<u8>::empty(),
                s0 == old(self).sent(),
            ensures
                self.sent() == s0 + (head@ + records_bytes(m, len as nat)),
            decreases len - i,
        {
            let ghost done = head@ + records_bytes(m, i as nat);
            let rec = package_record(values, i);
            proof {
                lemma_package_prefix(module.bytes(), m, P as nat, (i + 1) as nat);
                assert(done + rec@ =~= head@ + records_bytes(m, (i + 1) as nat));
            }
            match self.bwrite_iter(rec.as_slice()) {
                Ok(()) => {},
                Err(e) => {
                    proof {
                        lemma_sent_prefix_step(s0, done, rec@, pkg, self.sent());
                    }
                    return Err(e);
                },
            }
            proof {
                assert(self.sent() =~= s0 + (head@ + records_bytes(m, (i + 1) as nat)));
            }
            match self.bflush() {
                Ok(()) => {},
                Err(e) => {
                    proof {
                        let d1 = head@ + records_bytes(m, (i + 1) as nat);
                        assert(d1 + empty =~= d1);
                        assert((s0 + d1 + empty).take(self.sent().len() as int) =~= self.sent());
                        lemma_sent_prefix_step(s0, d1, empty, pkg, self.sent());
                    }
                    return Err(e);
                },
            }
            i += 1;
        }
        let ghost done = head@ + records_bytes(m, len as nat);
        let tail = package_tail();
        proof {
            assert(done + tail@ =~= pkg);
            assert(pkg.take(pkg.len() as int) =~= pkg);
        }
        match self.bwrite_iter(tail.as_slice()) {
            Ok(()) => {},
            Err(e) => {
                proof {
                    lemma_sent_prefix_step(s0, done, tail@, pkg, self.sent());
                }
                return Err(e);
            },
        }
        proof {
            assert(self.sent() =~= s0 + pkg);
            assert((s0 + pkg).take(self.sent().len() as int) =~= self.sent());
        }
        self.bflush()
    }
}

} // verus!
