use svisual::{
    equal, package, AddError, FloatBits, Name, NextValue, OnlyFront, SVMap, SendPackage, ValueType,
    WriteIter,
};

fn name(s: &'static str) -> &'static Name {
    Box::leak(Box::new(Name::new(s).unwrap()))
}

/// A sink that records what it is given and can fail at a chosen byte.
struct Capture {
    bytes: Vec<u8>,
    flushes: usize,
    fail_at: Option<usize>,
}

impl Capture {
    fn new() -> Self {
        Capture { bytes: Vec::new(), flushes: 0, fail_at: None }
    }
}

#[derive(Debug, PartialEq)]
struct SinkError;

impl WriteIter for Capture {
    type Error = SinkError;

    fn bwrite_iter(&mut self, bytes: &[u8]) -> Result<(), SinkError> {
        for &b in bytes {
            if self.fail_at == Some(self.bytes.len()) {
                return Err(SinkError);
            }
            self.bytes.push(b);
        }
        Ok(())
    }

    fn bflush(&mut self) -> Result<(), SinkError> {
        self.flushes += 1;
        Ok(())
    }
}

fn padded(s: &str) -> Vec<u8> {
    let mut v = s.as_bytes().to_vec();
    v.resize(24, 0);
    v
}

fn le(x: i32) -> Vec<u8> {
    x.to_le_bytes().to_vec()
}

/// Parses one package: module name and (name, type code, samples) per record.
fn parse(bytes: &[u8], p: usize) -> (String, Vec<(String, i32, Vec<i32>)>) {
    assert_eq!(&bytes[0..7], b"=begin=");
    let full = u32::from_le_bytes([bytes[7], bytes[8], bytes[9], bytes[10]]) as usize;
    assert_eq!(bytes.len(), 7 + 4 + full + 5);
    assert_eq!(&bytes[bytes.len() - 5..], b"=end=");
    let field = |b: &[u8]| String::from_utf8(b.iter().cloned().take_while(|&c| c != 0).collect()).unwrap();
    let module = field(&bytes[11..35]);
    let vl = 24 + 4 + 4 * p;
    let m = (full - 24) / vl;
    let mut recs = Vec::new();
    for i in 0..m {
        let r = &bytes[35 + i * vl..35 + (i + 1) * vl];
        let word = |at: usize| i32::from_le_bytes([r[at], r[at + 1], r[at + 2], r[at + 3]]);
        let vals = (0..p).map(|j| word(28 + 4 * j)).collect();
        recs.push((field(&r[0..24]), word(24), vals));
    }
    (module, recs)
}

#[test]
fn smallest_package() {
    let module = name("m");
    let a = name("a");
    let mut map: SVMap<4, 2> = SVMap::new();
    let mut sink = Capture::new();
    let mut flushes = 0;
    map.set(a, 7i32).unwrap();
    map.next(|_| flushes += 1);
    assert_eq!(flushes, 0);
    map.set(a, 9i32).unwrap();
    map.next(|v| {
        flushes += 1;
        sink.send_package(module, v).unwrap();
    });
    assert_eq!(flushes, 1);
    let mut expected = b"=begin=".to_vec();
    expected.extend_from_slice(&[0x3C, 0, 0, 0]);
    expected.extend(padded("m"));
    expected.extend(padded("a"));
    expected.extend(le(1));
    expected.extend(le(7));
    expected.extend(le(9));
    expected.extend_from_slice(b"=end=");
    assert_eq!(sink.bytes, expected);
    assert_eq!(sink.bytes.len(), 76);
}

#[test]
fn hold_across_silent_ticks() {
    let module = name("mod");
    let x = name("x");
    let mut map: SVMap<4, 3> = SVMap::new();
    let mut sent = Vec::new();
    map.set(x, true).unwrap();
    map.next(|v| sent.push(package(module, v)));
    map.next(|v| sent.push(package(module, v)));
    assert!(sent.is_empty());
    map.next(|v| sent.push(package(module, v)));
    assert_eq!(sent.len(), 1);
    let (m, recs) = parse(&sent[0], 3);
    assert_eq!(m, "mod");
    assert_eq!(recs, vec![("x".to_string(), 0, vec![1, 1, 1])]);
}

#[test]
fn only_front_impulses() {
    let module = name("mod");
    let p = name("p");
    let mut map: SVMap<4, 3> = SVMap::new();
    let mut sent = Vec::new();
    map.set(p, OnlyFront(true)).unwrap();
    map.next(|v| sent.push(package(module, v)));
    map.set(p, OnlyFront(true)).unwrap();
    map.next(|v| sent.push(package(module, v)));
    map.next(|v| sent.push(package(module, v)));
    assert_eq!(sent.len(), 1);
    let (_, recs) = parse(&sent[0], 3);
    assert_eq!(recs, vec![("p".to_string(), 0, vec![1, 1, 0])]);
}

#[test]
fn float_and_bool_records() {
    let module = name("mod");
    let mut map: SVMap<4, 1> = SVMap::new();
    let mut sent = Vec::new();
    map.set(name("f"), FloatBits(1.5f32.to_bits())).unwrap();
    map.set(name("b"), false).unwrap();
    map.next(|v| sent.push(package(module, v)));
    assert_eq!(sent.len(), 1);
    let bytes = &sent[0];
    assert_eq!(&bytes[7..11], &[88, 0, 0, 0]);
    assert_eq!(bytes.len(), 7 + 4 + 88 + 5);
    assert_eq!(&bytes[35 + 24..35 + 28], &[2, 0, 0, 0]);
    assert_eq!(&bytes[35 + 28..35 + 32], &[0x00, 0x00, 0xC0, 0x3F]);
    assert_eq!(&bytes[67 + 24..67 + 28], &[0, 0, 0, 0]);
    assert_eq!(&bytes[67 + 28..67 + 32], &[0, 0, 0, 0]);
}

#[test]
fn overflow_then_update() {
    let module = name("mod");
    let a = name("a");
    let mut map: SVMap<2, 1> = SVMap::new();
    assert_eq!(map.set(a, 0i32), Ok(()));
    assert_eq!(map.set(name("b"), 0i32), Ok(()));
    assert_eq!(map.set(name("c"), 0i32), Err(AddError::MapOverflow));
    assert_eq!(map.len(), 2);
    assert_eq!(map.set(a, 1i32), Ok(()));
    let (_, recs) = parse(&package(module, &map), 1);
    assert_eq!(recs, vec![("a".to_string(), 1, vec![1]), ("b".to_string(), 1, vec![0])]);
}

#[test]
fn sink_failure_then_resend() {
    let module = name("mod");
    let mut map: SVMap<4, 2> = SVMap::new();
    map.set(name("a"), 5i32).unwrap();
    let mut failing = Capture::new();
    failing.fail_at = Some(9);
    assert_eq!(failing.send_package(module, &map), Err(SinkError));
    assert_eq!(failing.bytes.len(), 9);
    let mut sink = Capture::new();
    sink.bytes.extend_from_slice(&failing.bytes);
    sink.send_package(module, &map).unwrap();
    let start = sink.bytes.windows(7).rposition(|w| w == b"=begin=").unwrap();
    let (m, recs) = parse(&sink.bytes[start..], 2);
    assert_eq!(m, "mod");
    assert_eq!(recs, vec![("a".to_string(), 1, vec![5, 0])]);
    assert_eq!(&sink.bytes[start..], &package(module, &map)[..]);
    assert_eq!(sink.flushes, 3);
}

#[test]
fn cursor_stays_in_window() {
    let mut map: SVMap<4, 3> = SVMap::new();
    let mut flushes = 0;
    assert!(map.is_first());
    for k in 1..=7 {
        map.set(name("s"), k).unwrap();
        map.next(|_| flushes += 1);
        assert!(!(map.is_first() && map.is_last()));
        assert_eq!(map.is_first(), k % 3 == 0);
        assert_eq!(map.is_last(), k % 3 == 2);
    }
    assert_eq!(flushes, 2);
}

#[test]
fn one_flush_per_window() {
    let mut map: SVMap<4, 5> = SVMap::new();
    let mut flushes = 0;
    for _ in 0..5 {
        map.next(|_| flushes += 1);
    }
    assert_eq!(flushes, 1);
    assert!(map.is_first());
}

#[test]
fn silent_window_holds_last_sample() {
    let module = name("mod");
    let mut map: SVMap<4, 4> = SVMap::new();
    map.next(|_| ());
    map.set(name("lvl"), -3i32).unwrap();
    let mut sent = Vec::new();
    for _ in 0..7 {
        map.next(|v| sent.push(package(module, v)));
    }
    assert_eq!(sent.len(), 2);
    let (_, recs) = parse(&sent[1], 4);
    assert_eq!(recs[0].2, vec![-3, -3, -3, -3]);
}

#[test]
fn silent_window_clears_only_front() {
    let module = name("mod");
    let mut map: SVMap<4, 3> = SVMap::new();
    map.set(name("edge"), OnlyFront(true)).unwrap();
    let mut sent = Vec::new();
    for _ in 0..6 {
        map.next(|v| sent.push(package(module, v)));
    }
    let (_, first) = parse(&sent[0], 3);
    assert_eq!(first[0].2, vec![1, 0, 0]);
    let (_, second) = parse(&sent[1], 3);
    assert_eq!(second[0].2, vec![0, 0, 0]);
}

#[test]
fn package_layout() {
    let module = name("module_name_23_bytes_xx");
    let mut map: SVMap<3, 2> = SVMap::new();
    map.set(name("first"), 1i32).unwrap();
    map.set(name("second"), true).unwrap();
    let bytes = package(module, &map);
    let vl = 24 + 4 + 8;
    let full = 24 + 2 * vl;
    assert_eq!(bytes.len(), 7 + 4 + full + 5);
    assert_eq!(&bytes[7..11], &(full as u32).to_le_bytes());
    assert_eq!(&bytes[11..35], &padded("module_name_23_bytes_xx")[..]);
    assert_eq!(&bytes[35..59], &padded("first")[..]);
    assert_eq!(&bytes[59..63], &le(1)[..]);
    assert_eq!(&bytes[35 + vl..59 + vl], &padded("second")[..]);
    assert_eq!(&bytes[59 + vl..63 + vl], &le(0)[..]);
}

#[test]
fn round_trip_through_parser() {
    let module = name("dev");
    let mut map: SVMap<4, 2> = SVMap::new();
    map.set(name("i"), i32::MIN).unwrap();
    map.set(name("f"), FloatBits((-2.25f32).to_bits())).unwrap();
    map.set(name("b"), true).unwrap();
    map.next(|_| ());
    map.set(name("i"), i32::MAX).unwrap();
    let (m, recs) = parse(&package(module, &map), 2);
    assert_eq!(m, "dev");
    assert_eq!(
        recs,
        vec![
            ("i".to_string(), 1, vec![i32::MIN, i32::MAX]),
            ("f".to_string(), 2, vec![(-2.25f32).to_bits() as i32; 2]),
            ("b".to_string(), 0, vec![1, 1]),
        ]
    );
    for (n, code, _) in &recs {
        let r = map.record((0..map.len()).find(|&i| map.name(i) == n).unwrap());
        let t = match code {
            0 => ValueType::Bool,
            1 => ValueType::Int,
            _ => ValueType::Float,
        };
        assert_eq!(r.vtype(), t);
    }
}

#[test]
fn set_twice_same_as_once() {
    let module = name("mod");
    let mut once: SVMap<4, 2> = SVMap::new();
    let mut twice: SVMap<4, 2> = SVMap::new();
    once.set(name("a"), 4i32).unwrap();
    twice.set(name("a"), 4i32).unwrap();
    twice.set(name("a"), 4i32).unwrap();
    assert_eq!(package(module, &once), package(module, &twice));
    assert_eq!(twice.len(), 1);
}

#[test]
fn single_slot_flushes_every_tick() {
    let mut map: SVMap<2, 1> = SVMap::new();
    let mut flushes = 0;
    for k in 1..=4 {
        map.set(name("v"), k).unwrap();
        map.next(|_| flushes += 1);
        assert_eq!(flushes, k);
        assert!(map.is_first() && map.is_last());
    }
}

#[test]
fn single_capacity_overflows() {
    let mut map: SVMap<1, 2> = SVMap::new();
    map.set(name("one"), 1i32).unwrap();
    assert_eq!(map.set(name("two"), 2i32), Err(AddError::MapOverflow));
    assert_eq!(map.len(), 1);
    assert_eq!(map.name(0), "one");
    assert_eq!(map.record(0).vals(), &[1, 0]);
}

#[test]
fn bad_names_rejected() {
    assert!(Name::new("").is_none());
    assert!(Name::new("abcdefghijklmnopqrstuvwx").is_none());
    assert!(Name::new("=begin=").is_none());
    assert!(Name::new("=end=").is_none());
    let longest = Name::new("abcdefghijklmnopqrstuvw").unwrap();
    assert_eq!(longest.as_str(), "abcdefghijklmnopqrstuvw");
    assert!(Name::new("=begin").is_some());
    assert!(Name::new("=end==").is_some());
}

#[test]
fn float_bits_round_trip() {
    let module = name("mod");
    let values = [0.0f32, -0.0f32, f32::NAN, f32::INFINITY, f32::NEG_INFINITY];
    let mut map: SVMap<8, 1> = SVMap::new();
    let names = ["pz", "nz", "nan", "pinf", "ninf"];
    for (n, v) in names.iter().zip(values.iter()) {
        map.set(name(*n), FloatBits(v.to_bits())).unwrap();
    }
    let (_, recs) = parse(&package(module, &map), 1);
    for (rec, v) in recs.iter().zip(values.iter()) {
        assert_eq!(rec.1, 2);
        assert_eq!(rec.2[0] as u32, v.to_bits());
        assert_eq!(f32::from_bits(rec.2[0] as u32).to_bits(), v.to_bits());
    }
    assert_eq!(recs[1].2[0] as u32, 0x8000_0000);
    assert!(f32::from_bits(recs[2].2[0] as u32).is_nan());
}

#[test]
fn int_extremes_little_endian() {
    let module = name("mod");
    let mut map: SVMap<2, 1> = SVMap::new();
    map.set(name("min"), i32::MIN).unwrap();
    map.set(name("max"), i32::MAX).unwrap();
    let bytes = package(module, &map);
    assert_eq!(&bytes[35 + 28..35 + 32], &[0x00, 0x00, 0x00, 0x80]);
    assert_eq!(&bytes[67 + 28..67 + 32], &[0xFF, 0xFF, 0xFF, 0x7F]);
}

#[test]
fn value_type_codes() {
    assert_eq!(ValueType::Bool.code(), 0);
    assert_eq!(ValueType::Int.code(), 1);
    assert_eq!(ValueType::Float.code(), 2);
}

#[test]
fn byte_equality() {
    assert!(equal("abc", "abc"));
    assert!(!equal("abc", "abd"));
    assert!(!equal("abc", "ab"));
    assert!(equal("", ""));
}

#[test]
fn new_record_is_zero() {
    let r: svisual::ValueRec<3> = svisual::ValueRec::new(ValueType::Float);
    assert_eq!(r.vals(), &[0, 0, 0]);
    assert_eq!(r.vtype(), ValueType::Float);
    assert!(!r.is_only_front());
}

#[test]
fn only_front_flag_follows_last_set() {
    let mut map: SVMap<2, 2> = SVMap::new();
    let e = name("e");
    map.set(e, OnlyFront(true)).unwrap();
    assert!(map.record(0).is_only_front());
    map.set(e, true).unwrap();
    assert!(!map.record(0).is_only_front());
}

#[test]
fn empty_map_package() {
    let module = name("m");
    let map: SVMap<4, 2> = SVMap::new();
    let mut sink = Capture::new();
    assert_eq!(sink.send_package(module, &map), Ok(()));
    let mut expected = b"=begin=".to_vec();
    expected.extend_from_slice(&[0x18, 0, 0, 0]);
    expected.extend(padded("m"));
    expected.extend_from_slice(b"=end=");
    assert_eq!(sink.bytes, expected);
    assert_eq!(sink.bytes.len(), 40);
    assert_eq!(sink.flushes, 2);
}

#[test]
fn failing_sink_gets_package_prefix() {
    let module = name("mod");
    let mut map: SVMap<4, 2> = SVMap::new();
    map.set(name("a"), 5i32).unwrap();
    map.set(name("b"), true).unwrap();
    let whole = package(module, &map);
    for cut in 0..whole.len() {
        let mut sink = Capture::new();
        sink.fail_at = Some(cut);
        assert_eq!(sink.send_package(module, &map), Err(SinkError));
        assert_eq!(&sink.bytes[..], &whole[..cut]);
    }
}
