use asmap::{Asmap, AsmapError, IpAddr, Ipv4Addr, Ipv6Addr};

// ---------------------------------------------------------------------------
// A small asmap encoder, used to build fixtures for the tests below.
// ---------------------------------------------------------------------------

const ASN_BIT_SIZES: &[u8] = &[15, 16, 17, 18, 19, 20, 21, 22, 23, 24];
const MATCH_BIT_SIZES: &[u8] = &[1, 2, 3, 4, 5, 6, 7, 8];
const JUMP_BIT_SIZES: &[u8] = &[
    5, 6, 7, 8, 9, 10, 11, 12, 13, 14, 15, 16, 17, 18, 19, 20, 21, 22, 23, 24, 25, 26, 27, 28, 29,
    30,
];

#[derive(Clone, Default)]
struct Bits(Vec<bool>);

impl Bits {
    fn push(&mut self, b: bool) {
        self.0.push(b);
    }

    fn append(&mut self, other: &Bits) {
        self.0.extend_from_slice(&other.0);
    }

    fn len(&self) -> usize {
        self.0.len()
    }

    fn push_int(&mut self, val: u32, minval: u32, sizes: &[u8]) {
        let mut rest = (val - minval) as u64;
        for (i, &size) in sizes.iter().enumerate() {
            let is_last = i + 1 == sizes.len();
            if rest >= (1u64 << size) {
                assert!(!is_last, "value too large for the class table");
                self.push(true);
                rest -= 1u64 << size;
            } else {
                if !is_last {
                    self.push(false);
                }
                for b in (0..size).rev() {
                    self.push((rest >> b) & 1 == 1);
                }
                return;
            }
        }
    }

    fn ret(&mut self, asn: u32) {
        self.push(false);
        self.push_int(asn, 1, ASN_BIT_SIZES);
    }

    fn jump(&mut self, skip: u32) {
        self.push(true);
        self.push(false);
        self.push_int(skip, 17, JUMP_BIT_SIZES);
    }

    fn match_bits(&mut self, pattern: &[bool]) {
        assert!(!pattern.is_empty() && pattern.len() <= 8);
        let mut val: u32 = 1;
        for &b in pattern {
            val = (val << 1) | (b as u32);
        }
        self.push(true);
        self.push(true);
        self.push(false);
        self.push_int(val, 2, MATCH_BIT_SIZES);
    }

    fn default_asn(&mut self, asn: u32) {
        self.push(true);
        self.push(true);
        self.push(true);
        self.push_int(asn, 1, ASN_BIT_SIZES);
    }

    fn to_bytes(&self) -> Vec<u8> {
        let mut out = vec![0u8; self.len().div_ceil(8)];
        for (i, &b) in self.0.iter().enumerate() {
            if b {
                out[i / 8] |= 1 << (i % 8);
            }
        }
        out
    }
}

fn prefix_bits(octets: &[u8], len: usize) -> Vec<bool> {
    (0..len).map(|i| (octets[i / 8] >> (7 - i % 8)) & 1 == 1).collect()
}

fn v4_prefix(a: u8, b: u8, c: u8, d: u8, len: usize) -> Vec<bool> {
    let octets = [0, 0, 0, 0, 0, 0, 0, 0, 0, 0, 0xff, 0xff, a, b, c, d];
    prefix_bits(&octets, 96 + len)
}

/// Compile a prefix table into asmap bytecode: JUMP where both subtrees are used,
/// MATCH along runs of shared bits, RETURN at the prefixes.
fn compile(entries: &[(Vec<bool>, u32)], depth: usize) -> Bits {
    let mut out = Bits::default();
    if let Some((_, asn)) = entries.iter().find(|(p, _)| p.len() == depth) {
        out.ret(*asn);
        return out;
    }
    let zero: Vec<_> = entries.iter().filter(|(p, _)| !p[depth]).cloned().collect();
    let one: Vec<_> = entries.iter().filter(|(p, _)| p[depth]).cloned().collect();
    if !zero.is_empty() && !one.is_empty() {
        let zero_code = compile(&zero, depth + 1);
        let one_code = compile(&one, depth + 1);
        out.jump(zero_code.len() as u32);
        out.append(&zero_code);
        out.append(&one_code);
        return out;
    }
    // All entries share the next bits: match the longest shared run.
    let first = &entries[0].0;
    let mut run = depth;
    while entries.iter().all(|(p, _)| p.len() > run && p[run] == first[run]) {
        run += 1;
    }
    let mut at = depth;
    while at < run {
        let take = (run - at).min(8);
        out.match_bits(&first[at..at + take]);
        at += take;
    }
    out.append(&compile(entries, run));
    out
}

/// The asmap used by most tests: 250.0.0.0/8 is AS1000, and 101.k.0.0/16 is ASk for
/// k from 1 to 8.
fn small_table() -> Vec<(Vec<bool>, u32)> {
    let mut entries = vec![(v4_prefix(250, 0, 0, 0, 8), 1000)];
    for k in 1u8..=8 {
        entries.push((v4_prefix(101, k, 0, 0, 16), k as u32));
    }
    entries
}

fn small_fixture_bytes() -> Vec<u8> {
    compile(&small_table(), 0).to_bytes()
}

fn load_fixture() -> Asmap {
    Asmap::from_bytes(small_fixture_bytes()).expect("the small fixture should validate")
}

fn v4(a: u8, b: u8, c: u8, d: u8) -> Ipv4Addr {
    Ipv4Addr::new(a, b, c, d)
}

// ---------------------------------------------------------------------------
// Validation
// ---------------------------------------------------------------------------

#[test]
fn validation_accepts_fixture() {
    load_fixture();
}

#[test]
fn validation_rejects_empty() {
    assert!(Asmap::from_bytes(vec![]).is_err());
}

#[test]
fn validation_rejects_garbage() {
    assert!(Asmap::from_bytes(vec![0xFF; 64]).is_err());
}

#[test]
fn validation_rejects_truncated() {
    let map = small_fixture_bytes();
    // Cut it in half
    let truncated = map[..map.len() / 2].to_vec();
    assert!(Asmap::from_bytes(truncated).is_err());
}

#[test]
fn validation_rejects_corrupted_first_byte() {
    let mut data = small_fixture_bytes();
    data[0] ^= 0xFF;
    assert!(Asmap::from_bytes(data).is_err());
}

#[test]
fn validation_rejects_corrupted_middle() {
    let mut data = small_fixture_bytes();
    let mid = data.len() / 2;
    data[mid] ^= 0xFF;
    assert!(Asmap::from_bytes(data).is_err());
}

#[test]
fn validation_rejects_appended_bytes() {
    let mut data = small_fixture_bytes();
    data.extend_from_slice(&[0xFF; 16]);
    assert!(Asmap::from_bytes(data).is_err());
}

#[test]
fn validation_rejects_single_byte() {
    assert!(Asmap::from_bytes(vec![0x00]).is_err());
    assert!(Asmap::from_bytes(vec![0x01]).is_err());
    assert!(Asmap::from_bytes(vec![0x80]).is_err());
}

// ---------------------------------------------------------------------------
// Lookups
// ---------------------------------------------------------------------------

#[test]
fn lookup_250_0_0_0_as1000() {
    let map = load_fixture();
    // 250.0.0.0/8 -> AS1000, test several addresses in this range
    assert_eq!(map.lookup_v4(v4(250, 0, 0, 0)), 1000);
    assert_eq!(map.lookup_v4(v4(250, 1, 2, 3)), 1000);
    assert_eq!(map.lookup_v4(v4(250, 255, 255, 255)), 1000);
}

#[test]
fn lookup_101_x_subnets() {
    let map = load_fixture();
    // 101.1.0.0/16 AS1 through 101.8.0.0/16 AS8
    for asn in 1u32..=8 {
        let addr = v4(101, asn as u8, 0, 0);
        assert_eq!(map.lookup_v4(addr), asn, "101.{asn}.0.0 should be AS{asn}");

        let addr2 = v4(101, asn as u8, 128, 99);
        assert_eq!(map.lookup_v4(addr2), asn, "101.{asn}.128.99 should be AS{asn}");
    }
}

#[test]
fn lookup_via_ipaddr() {
    let map = load_fixture();
    let addr = IpAddr::V4(Ipv4Addr::new(250, 0, 0, 1));
    assert_eq!(map.lookup(addr), 1000);
}

#[test]
fn lookup_unmapped_returns_zero() {
    let map = load_fixture();
    // 127.0.0.1 is not mapped in the test asmap
    let asn = map.lookup_v4(v4(127, 0, 0, 1));
    assert_eq!(asn, 0, "unmapped address should return ASN 0");
}

#[test]
fn lookup_v6_mapped_ipv4() {
    let map = load_fixture();
    // ::ffff:250.0.0.1 is the IPv6-mapped form of 250.0.0.1
    let addr = v4(250, 0, 0, 1).to_ipv6_mapped();
    assert_eq!(map.lookup_v6(addr), 1000);
}

#[test]
fn lookup_v6_native() {
    let map = load_fixture();
    // Pure IPv6 address — unmapped in this fixture
    let addr = Ipv6Addr::new(0x2001, 0xdb8, 0, 0, 0, 0, 0, 1);
    let asn = map.lookup_v6(addr);
    assert_eq!(asn, 0);
}

#[test]
fn as_bytes_matches_file() {
    let raw = small_fixture_bytes();
    let map = Asmap::from_bytes(raw.clone()).unwrap();
    assert_eq!(map.as_bytes(), &raw[..]);
}

// ---------------------------------------------------------------------------
// Errors
// ---------------------------------------------------------------------------

#[test]
fn error_display_invalid() {
    let err = Asmap::from_bytes(vec![0x00]).unwrap_err();
    let msg = err.to_string();
    assert!(msg.contains("validation"), "got: {msg}");
}

#[test]
fn error_from_io() {
    let io_err = std::io::Error::new(std::io::ErrorKind::NotFound, "gone");
    let asmap_err: AsmapError = io_err.into();
    let msg = asmap_err.to_string();
    assert!(msg.contains("gone"));
}

// ---------------------------------------------------------------------------
// Further behaviour of lookups and validation
// ---------------------------------------------------------------------------

/// Matches for the 96 bits of `::ffff:` and then the first octet `first`.
fn mapped_first_octet(out: &mut Bits, first: u8) {
    let prefix = v4_prefix(first, 0, 0, 0, 8);
    for chunk in prefix.chunks(8) {
        out.match_bits(chunk);
    }
}

#[test]
fn lookup_total_on_fixture() {
    let map = load_fixture();
    for a in 0..=255u8 {
        for b in [0u8, 1, 5, 8, 9, 200, 255] {
            let asn = map.lookup_v4(v4(a, b, 7, 9));
            let expected = match (a, b) {
                (250, _) => 1000,
                (101, 1..=8) => b as u32,
                _ => 0,
            };
            assert_eq!(asn, expected, "{a}.{b}.7.9");
        }
    }
}

#[test]
fn lookup_v4_equals_mapped_v6() {
    let map = load_fixture();
    for a in [0u8, 1, 100, 101, 127, 250, 251, 255] {
        for b in [0u8, 3, 8, 128, 255] {
            let addr = v4(a, b, 1, 2);
            assert_eq!(map.lookup_v4(addr), map.lookup_v6(addr.to_ipv6_mapped()));
            assert_eq!(map.lookup_v4(addr), map.lookup(IpAddr::V4(addr)));
        }
    }
}

#[test]
fn lookup_single_return_answers_everything() {
    for asn in [1u32, 2, 1000, 32768, 32769, 98304, 98305, 16_000_000, (1 << 25) - (1 << 15)] {
        let mut code = Bits::default();
        code.ret(asn);
        let map = Asmap::from_bytes(code.to_bytes()).expect("a lone RETURN is valid");
        assert_eq!(map.lookup_v4(v4(1, 2, 3, 4)), asn);
        assert_eq!(map.lookup_v6(Ipv6Addr::new(0x2001, 0xdb8, 0, 0, 0, 0, 0, 1)), asn);
    }
}

#[test]
fn lookup_default_asn_on_mismatch() {
    let mut code = Bits::default();
    code.default_asn(7);
    mapped_first_octet(&mut code, 250);
    code.ret(1000);
    let map = Asmap::from_bytes(code.to_bytes()).expect("valid");
    assert_eq!(map.lookup_v4(v4(250, 1, 2, 3)), 1000);
    assert_eq!(map.lookup_v4(v4(10, 0, 0, 1)), 7);
    assert_eq!(map.lookup_v6(Ipv6Addr::new(0x2001, 0xdb8, 0, 0, 0, 0, 0, 1)), 7);
}

#[test]
fn lookup_jump_on_address_bit() {
    // First address bit 0 -> AS10, 1 -> AS20.
    let mut zero = Bits::default();
    zero.ret(10);
    let mut one = Bits::default();
    one.ret(20);
    let mut code = Bits::default();
    code.jump(zero.len() as u32);
    code.append(&zero);
    code.append(&one);
    let map = Asmap::from_bytes(code.to_bytes()).expect("valid");
    assert_eq!(map.lookup_v6(Ipv6Addr::new(0x7fff, 0, 0, 0, 0, 0, 0, 0)), 10);
    assert_eq!(map.lookup_v6(Ipv6Addr::new(0x8000, 0, 0, 0, 0, 0, 0, 0)), 20);
    assert_eq!(map.lookup_v4(v4(255, 255, 255, 255)), 10);
}

#[test]
fn validation_rejects_appended_zero_byte() {
    let mut data = small_fixture_bytes();
    data.push(0);
    assert!(Asmap::from_bytes(data).is_err());
}

#[test]
fn validation_rejects_nonzero_padding() {
    let mut code = Bits::default();
    code.ret(1000);
    let mut data = code.to_bytes();
    assert!(code.len() % 8 != 0);
    *data.last_mut().unwrap() |= 0x80;
    assert!(Asmap::from_bytes(data).is_err());
}

#[test]
fn validation_rejects_default_then_return() {
    let mut code = Bits::default();
    code.default_asn(7);
    code.ret(1000);
    assert!(Asmap::from_bytes(code.to_bytes()).is_err());
}

#[test]
fn validation_rejects_two_defaults() {
    let mut code = Bits::default();
    code.default_asn(7);
    code.default_asn(8);
    mapped_first_octet(&mut code, 250);
    code.ret(1000);
    assert!(Asmap::from_bytes(code.to_bytes()).is_err());
}

#[test]
fn validation_rejects_two_short_matches() {
    let mut code = Bits::default();
    code.match_bits(&[true, false]);
    code.match_bits(&[true]);
    code.ret(1000);
    assert!(Asmap::from_bytes(code.to_bytes()).is_err());
    // A short match followed by a full one is fine.
    let mut code = Bits::default();
    code.match_bits(&[true, false]);
    code.match_bits(&[true; 8]);
    code.ret(1000);
    assert!(Asmap::from_bytes(code.to_bytes()).is_ok());
}

#[test]
fn validation_rejects_more_than_128_address_bits() {
    let mut code = Bits::default();
    for _ in 0..17 {
        code.match_bits(&[false; 8]);
    }
    code.ret(1000);
    assert!(Asmap::from_bytes(code.to_bytes()).is_err());
    let mut code = Bits::default();
    for _ in 0..16 {
        code.match_bits(&[false; 8]);
    }
    code.ret(1000);
    let map = Asmap::from_bytes(code.to_bytes()).expect("128 address bits are allowed");
    assert_eq!(map.lookup_v6(Ipv6Addr::new(0, 0, 0, 0, 0, 0, 0, 0)), 1000);
    assert_eq!(map.lookup_v6(Ipv6Addr::new(0, 0, 0, 0, 0, 0, 0, 1)), 0);
}

#[test]
fn validation_rejects_jump_past_end() {
    let mut zero = Bits::default();
    zero.ret(10);
    let mut one = Bits::default();
    one.ret(20);
    let mut code = Bits::default();
    code.jump(zero.len() as u32 + one.len() as u32 + 8);
    code.append(&zero);
    code.append(&one);
    assert!(Asmap::from_bytes(code.to_bytes()).is_err());
}

#[test]
fn validation_rejects_unreachable_code() {
    let mut code = Bits::default();
    code.ret(10);
    code.ret(20);
    assert!(Asmap::from_bytes(code.to_bytes()).is_err());
}

#[test]
fn as_bytes_round_trips() {
    let mut code = Bits::default();
    code.default_asn(7);
    mapped_first_octet(&mut code, 9);
    code.ret(19281);
    let raw = code.to_bytes();
    let map = Asmap::from_bytes(raw.clone()).unwrap();
    assert_eq!(map.as_bytes(), &raw[..]);
    assert_eq!(map.lookup_v4(v4(9, 9, 9, 9)), 19281);
}

#[test]
fn error_display_io_message() {
    let io_err = std::io::Error::new(std::io::ErrorKind::NotFound, "no such file");
    let err = AsmapError::from(io_err);
    assert_eq!(err.to_string(), "failed to read asmap file: no such file");
    assert_eq!(AsmapError::Invalid.to_string(), "asmap data failed validation");
}

// ---------------------------------------------------------------------------
// Addresses
// ---------------------------------------------------------------------------

#[test]
fn ipv4_octets_and_mapping() {
    let a = v4(192, 0, 2, 33);
    assert_eq!(a.octets(), [192, 0, 2, 33]);
    assert_eq!(
        a.to_ipv6_mapped().octets(),
        [0, 0, 0, 0, 0, 0, 0, 0, 0, 0, 0xff, 0xff, 192, 0, 2, 33]
    );
}

#[test]
fn ipv6_segments_are_big_endian() {
    let a = Ipv6Addr::new(0x2001, 0x0db8, 0, 0, 0, 0, 0xabcd, 0x0001);
    assert_eq!(
        a.octets(),
        [0x20, 0x01, 0x0d, 0xb8, 0, 0, 0, 0, 0, 0, 0, 0, 0xab, 0xcd, 0x00, 0x01]
    );
    let b = Ipv6Addr::from_octets([9; 16]);
    assert_eq!(b.octets(), [9; 16]);
}
