use vstd::prelude::*;

use crate::map::{model_wf, MapModel};
use crate::name::{begin_marker, end_marker, valid_name, NAME_MAX};
use crate::package::{
    full_size, lemma_package_module, lemma_package_record, lemma_package_size, package_bytes, padded,
    record_size, sample_bytes, unsigned, word_bytes,
};
use crate::value::{type_code, ValueType};

verus! {

/// The 32-bit little-endian word at offset `at` of `b`.
pub open spec fn read_word(b: Seq<u8>, at: int) -> nat {
    b[at] as nat + 256 * (b[at + 1] as nat) + 65536 * (b[at + 2] as nat) + 16777216 * (b[at + 3] as nat)
}

/// The `i32` whose two's-complement bits are the word `w`.
pub open spec fn signed(w: nat) -> i32 {
    if w < 0x8000_0000 { w as i32 } else { (w - 0x1_0000_0000) as i32 }
}

/// A name field with its trailing NUL bytes removed.
pub open spec fn unpad(f: Seq<u8>) -> Seq<u8>
    decreases f.len(),
{
    if f.len() > 0 && f.last() == 0 {
        unpad(f.drop_last())
    } else {
        f
    }
}

/// The value type that the host reads from a type code.
pub open spec fn type_of_code(w: nat) -> ValueType {
    if w == 0 {
        ValueType::Bool
    } else if w == 1 {
        ValueType::Int
    } else {
        ValueType::Float
    }
}

/// What the host reads from one record at offset `at`: name, type and `p`
/// samples.
pub open spec fn read_record(b: Seq<u8>, at: int, p: nat) -> (Seq<u8>, ValueType, Seq<i32>) {
    (
        unpad(b.subrange(at, at + NAME_MAX)),
        type_of_code(read_word(b, at + NAME_MAX)),
        Seq::new(p, |j: int| signed(read_word(b, at + NAME_MAX + 4 + 4 * j))),
    )
}

/// The host's reading of a package with `p` samples per signal: the module
/// name and each record, or `None` where the framing does not hold.
pub open spec fn parse_package(b: Seq<u8>, p: nat) -> Option<(Seq<u8>, Seq<(Seq<u8>, ValueType, Seq<i32>)>)> {
    let full = read_word(b, 7);
    let vl = record_size(p);
    if b.len() >= 16 && b.subrange(0, 7) == begin_marker() && b.len() == 16 + full && full >= NAME_MAX
        && (full - NAME_MAX) % (vl as int) == 0 && b.subrange(b.len() - 5, b.len() as int)
        == end_marker() {
        let count = ((full - NAME_MAX) / (vl as int)) as nat;
        Some(
            (
                unpad(b.subrange(11, 35)),
                Seq::new(count, |i: int| read_record(b, 35 + i * vl, p)),
            ),
        )
    } else {
        None
    }
}

/// What a map holds, as the host sees it: each name with its type and samples.
pub open spec fn map_contents(m: MapModel) -> Seq<(Seq<u8>, ValueType, Seq<i32>)> {
    Seq::new(m.names.len(), |i: int| (m.names[i], m.signals[i].vtype, m.signals[i].vals))
}

proof fn lemma_word_round_trip(w: nat)
    requires
        w < 0x1_0000_0000,
    ensures
        read_word(word_bytes(w), 0) == w,
{
    assert(w == w % 256 + 256 * ((w / 256) % 256) + 65536 * ((w / 65536) % 256) + 16777216 * ((w
        / 16777216) % 256)) by (nonlinear_arith)
        requires w < 0x1_0000_0000;
}

proof fn lemma_signed_unsigned(x: i32)
    ensures
        unsigned(x) < 0x1_0000_0000,
        signed(unsigned(x)) == x,
{
}

proof fn lemma_unpad_padded(name: Seq<u8>, k: nat)
    requires
        name.len() == 0 || name.last() != 0,
    ensures
        unpad(name + Seq::new(k, |i: int| 0u8)) == name,
    decreases k,
{
    if k == 0 {
        assert(name + Seq::new(0, |i: int| 0u8) =~= name);
    } else {
        let f = name + Seq::new(k, |i: int| 0u8);
        assert(f.drop_last() =~= name + Seq::new((k - 1) as nat, |i: int| 0u8));
        lemma_unpad_padded(name, (k - 1) as nat);
    }
}

proof fn lemma_sample_word(vals: Seq<i32>, j: int)
    requires
        0 <= j < vals.len(),
    ensures
        sample_bytes(vals).len() == 4 * vals.len(),
        sample_bytes(vals).subrange(4 * j, 4 * j + 4) == word_bytes(unsigned(vals[j])),
    decreases vals.len(),
{
    let prev = vals.drop_last();
    if j < vals.len() - 1 {
        lemma_sample_word(prev, j);
        assert(sample_bytes(vals).subrange(4 * j, 4 * j + 4) =~= sample_bytes(prev).subrange(
            4 * j,
            4 * j + 4,
        ));
    } else {
        if prev.len() > 0 {
            lemma_sample_word(prev, 0);
        } else {
            assert(sample_bytes(prev) =~= Seq::<u8>::empty());
        }
        assert(sample_bytes(vals).subrange(4 * j, 4 * j + 4) =~= word_bytes(unsigned(vals[j])));
    }
}

proof fn lemma_read_record(module: Seq<u8>, m: MapModel, n: nat, p: nat, i: int)
    requires
        model_wf(m, n, p),
        valid_name(module),
        0 <= i < m.names.len(),
        m.names[i].last() != 0,
    ensures
        read_record(package_bytes(module, m, p), 35 + i * record_size(p), p) == map_contents(m)[i],
{
    let b = package_bytes(module, m, p);
    let vl = record_size(p) as int;
    let at = 35 + i * vl;
    let s = m.signals[i];
    lemma_package_record(module, m, n, p, i as nat);
    lemma_package_size(module, m, n, p);
    assert(i * vl + vl <= m.names.len() * vl) by (nonlinear_arith)
        requires i + 1 <= m.names.len(), vl >= 0;
    assert(m.names.len() * vl == vl * m.names.len()) by (nonlinear_arith);
    assert(at + vl <= b.len());
    lemma_unpad_padded(m.names[i], (NAME_MAX - m.names[i].len()) as nat);
    let code = unsigned(type_code(s.vtype));
    lemma_word_round_trip(code);
    assert(read_word(b, at + NAME_MAX) == read_word(word_bytes(code), 0)) by {
        let w = b.subrange(at + NAME_MAX, at + NAME_MAX + 4);
        assert(w[0] == b[at + NAME_MAX]);
        assert(w[1] == b[at + NAME_MAX + 1]);
        assert(w[2] == b[at + NAME_MAX + 2]);
        assert(w[3] == b[at + NAME_MAX + 3]);
    }
    let vals = Seq::new(p, |j: int| signed(read_word(b, at + NAME_MAX + 4 + 4 * j)));
    assert forall|j: int| 0 <= j < p implies vals[j] == s.vals[j] by {
        lemma_sample_word(s.vals, j);
        let u = unsigned(s.vals[j]);
        lemma_signed_unsigned(s.vals[j]);
        lemma_word_round_trip(u);
        let sb = b.subrange(at + NAME_MAX + 4, at + vl);
        let w = sb.subrange(4 * j, 4 * j + 4);
        assert(w[0] == b[at + NAME_MAX + 4 + 4 * j]);
        assert(w[1] == b[at + NAME_MAX + 4 + 4 * j + 1]);
        assert(w[2] == b[at + NAME_MAX + 4 + 4 * j + 2]);
        assert(w[3] == b[at + NAME_MAX + 4 + 4 * j + 3]);
        assert(read_word(b, at + NAME_MAX + 4 + 4 * j) == read_word(word_bytes(u), 0));
    }
    assert(vals =~= s.vals);
}

proof fn lemma_parse_header(module: Seq<u8>, m: MapModel, n: nat, p: nat)
    requires
        model_wf(m, n, p),
        valid_name(module),
    ensures
        ({
            let b = package_bytes(module, m, p);
            let full = full_size(m, p);
            &&& b.len() == 16 + full
            &&& read_word(b, 7) == full
            &&& b.subrange(0, 7) == begin_marker()
            &&& b.subrange(b.len() - 5, b.len() as int) == end_marker()
            &&& full >= NAME_MAX
            &&& (full - NAME_MAX) % (record_size(p) as int) == 0
            &&& (full - NAME_MAX) / (record_size(p) as int) == m.names.len()
        }),
{
    let b = package_bytes(module, m, p);
    let vl = record_size(p) as int;
    let count = m.names.len();
    lemma_package_size(module, m, n, p);
    let full = full_size(m, p);
    assert(full < 0x1_0000_0000) by {
        assert(vl * count <= vl * n) by (nonlinear_arith)
            requires count <= n, vl >= 0;
    }
    lemma_word_round_trip(full);
    assert(read_word(b, 7) == full) by {
        let w = b.subrange(7, 11);
        assert(w[0] == b[7]);
        assert(w[1] == b[8]);
        assert(w[2] == b[9]);
        assert(w[3] == b[10]);
    }
    assert(b.subrange(0, 7) =~= begin_marker());
    assert(b.subrange(b.len() - 5, b.len() as int) =~= end_marker());
    assert((full - NAME_MAX) % vl == 0 && (full - NAME_MAX) / vl == count) by (nonlinear_arith)
        requires full - NAME_MAX == vl * count, vl > 0;
}

/// Reading a package back gives the module name and, in order, every
/// signal's name, type and samples, for names that do not end in a NUL byte.
pub proof fn lemma_package_round_trip(module: Seq<u8>, m: MapModel, n: nat, p: nat)
    requires
        model_wf(m, n, p),
        valid_name(module),
        module.last() != 0,
        forall|i: int| 0 <= i < m.names.len() ==> (#[trigger] m.names[i]).last() != 0,
    ensures
        parse_package(package_bytes(module, m, p), p) == Some((module, map_contents(m))),
{
    let b = package_bytes(module, m, p);
    let vl = record_size(p) as int;
    let count = m.names.len();
    lemma_package_module(module, m, n, p);
    lemma_parse_header(module, m, n, p);
    lemma_unpad_padded(module, (NAME_MAX - module.len()) as nat);
    let recs = Seq::new(count, |i: int| read_record(b, 35 + i * vl, p));
    assert forall|i: int| 0 <= i < count implies recs[i] == map_contents(m)[i] by {
        lemma_read_record(module, m, n, p, i);
    }
    assert(recs =~= map_contents(m));
}

} // verus!
