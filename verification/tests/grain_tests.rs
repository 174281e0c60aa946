use grain_lfsr::Field;
use grain_lfsr::FieldType;
use grain_lfsr::Grain;
use grain_lfsr::SboxType;
use grain_lfsr::field::from_repr;
use grain_lfsr::field::lt_bytes;
use grain_lfsr::field::pack;

/// The Pasta base field: 255 bits, modulus
/// 0x40000000000000000000000000000000224698fc094cf91b992d30ed00000001,
/// little-endian.
fn pasta_fp() -> Field {
    let mut modulus = vec![
        0x01, 0x00, 0x00, 0x00, 0xed, 0x30, 0x2d, 0x99, 0x1b, 0xf9, 0x4c, 0x09, 0xfc, 0x98, 0x46,
        0x22,
    ];
    modulus.extend_from_slice(&[0x00; 15]);
    modulus.push(0x40);
    Field { num_bits: 255, modulus }
}

fn tiny_field() -> Field {
    Field { num_bits: 8, modulus: vec![251] }
}

#[test]
fn grain() {
    let mut grain = Grain::new(pasta_fp(), SboxType::Pow, 3, 8, 56);
    let _f = grain.next_field_element();
}

#[test]
fn tag_values() {
    assert_eq!(FieldType::Binary.tag(), 0);
    assert_eq!(FieldType::PrimeOrder.tag(), 1);
    assert_eq!(SboxType::Pow.tag(), 0);
    assert_eq!(SboxType::Inv.tag(), 1);
}

#[test]
fn determinism_across_instances() {
    let mut a = Grain::new(pasta_fp(), SboxType::Pow, 3, 8, 56);
    let mut b = Grain::new(pasta_fp(), SboxType::Pow, 3, 8, 56);
    for _ in 0..1000 {
        assert_eq!(a.next(), b.next());
    }
    for _ in 0..3 {
        assert_eq!(a.next_field_element(), b.next_field_element());
    }
}

#[test]
fn derived_bits_match_reconstruction() {
    // Replays the self-shrinking rule through the raw-bit interface and
    // checks it against the extractor itself.
    let mut a = Grain::new(pasta_fp(), SboxType::Pow, 3, 8, 56);
    let mut b = Grain::new(pasta_fp(), SboxType::Pow, 3, 8, 56);
    for _ in 0..1000 {
        let expected = loop {
            let control = b.get_next_bit();
            let candidate = b.get_next_bit();
            if control {
                break candidate;
            }
        };
        assert_eq!(a.next(), Some(expected));
    }
}

#[test]
fn consumption_rate_is_about_four_raw_bits_per_derived_bit() {
    let mut g = Grain::new(pasta_fp(), SboxType::Pow, 3, 8, 56);
    let derived: u64 = 10_000;
    let mut raw: u64 = 0;
    let mut produced: u64 = 0;
    while produced < derived {
        let control = g.get_next_bit();
        let _candidate = g.get_next_bit();
        raw += 2;
        if control {
            produced += 1;
        }
    }
    assert!(raw > 3 * derived + derived / 2, "raw bit count {} is far below 4x", raw);
    assert!(raw < 4 * derived + derived / 2, "raw bit count {} is far above 4x", raw);
}

#[test]
fn second_element_differs() {
    let mut g = Grain::new(pasta_fp(), SboxType::Pow, 3, 8, 56);
    let first = g.next_field_element();
    let second = g.next_field_element();
    assert_ne!(first, second);
}

#[test]
fn changing_one_seed_parameter_changes_the_stream() {
    let mut a = Grain::new(pasta_fp(), SboxType::Pow, 3, 8, 56);
    let mut b = Grain::new(pasta_fp(), SboxType::Pow, 4, 8, 56);
    let bits_a: Vec<Option<bool>> = (0..64).map(|_| a.next()).collect();
    let bits_b: Vec<Option<bool>> = (0..64).map(|_| b.next()).collect();
    assert_ne!(bits_a, bits_b);

    let mut c = Grain::new(pasta_fp(), SboxType::Pow, 3, 8, 57);
    let bits_c: Vec<Option<bool>> = (0..64).map(|_| c.next()).collect();
    assert_ne!(bits_a, bits_c);
}

#[test]
fn sampled_elements_round_trip() {
    let f = pasta_fp();
    let mut g = Grain::new(pasta_fp(), SboxType::Pow, 3, 8, 56);
    for _ in 0..3 {
        let e = g.next_field_element();
        let reparsed = from_repr(&f, e.bytes.clone());
        assert_eq!(reparsed, Some(e));
    }
}

#[test]
fn sampled_elements_stay_below_a_tiny_modulus() {
    let mut g = Grain::new(tiny_field(), SboxType::Pow, 3, 8, 56);
    for _ in 0..50 {
        let e = g.next_field_element();
        assert_eq!(e.bytes.len(), 1);
        assert!(e.bytes[0] < 251);
    }
}

#[test]
fn from_repr_rejects_the_gap() {
    let f = tiny_field();
    assert_eq!(from_repr(&f, vec![0]).map(|e| e.bytes), Some(vec![0]));
    assert_eq!(from_repr(&f, vec![250]).map(|e| e.bytes), Some(vec![250]));
    assert!(from_repr(&f, vec![251]).is_none());
    assert!(from_repr(&f, vec![255]).is_none());
}

#[test]
fn packing_is_little_endian_within_bytes() {
    let bits = vec![true, false, false, false, false, false, false, false, true];
    assert_eq!(pack(&bits), vec![0x01, 0x01]);
    let bits = vec![false, true, true, false, false, false, false, false];
    assert_eq!(pack(&bits), vec![0x06]);
    let bits = vec![true; 9];
    assert_eq!(pack(&bits), vec![0xff, 0x01]);
}

#[test]
fn byte_strings_compare_by_value() {
    assert!(lt_bytes(&vec![1, 0], &vec![0, 1]));
    assert!(!lt_bytes(&vec![0, 1], &vec![1, 0]));
    assert!(!lt_bytes(&vec![7, 3], &vec![7, 3]));
    assert!(lt_bytes(&vec![255, 0, 9], &vec![0, 1, 9]));
}
