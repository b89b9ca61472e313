use routed_turboquant::qjl_bits::{sign_seed, signs_from_coins};
use routed_turboquant::order_key::order_key;
use routed_turboquant::qjl_bits::{pack_sign_rows, qjl_memory_bytes, quantize_level, random_signs, sign_bit};

#[test]
fn pack_signs_is_msb_first() {
    let signs = vec![true, false, false, false, false, false, false, true];
    assert_eq!(pack_sign_rows(&signs, 8), Some(vec![0x81]));
    let signs: Vec<bool> = (0..16).map(|j| j % 3 == 0).collect();
    assert_eq!(pack_sign_rows(&signs, 16), Some(vec![0b1001_0010, 0b0100_1001]));
    assert_eq!(pack_sign_rows(&signs, 8), Some(vec![0b1001_0010, 0b0100_1001]));
}

#[test]
fn ragged_rows_spill_into_the_next_row() {
    // dim 10: one byte per row; coordinates 8 and 9 of a row land in the
    // next row's first byte, bits 0 and 1.
    let mut signs = vec![false; 20];
    signs[8] = true;
    signs[3] = true;
    assert_eq!(pack_sign_rows(&signs, 10), Some(vec![0b0001_0000, 0b1000_0000]));
    // in the last row they land past the end
    signs[19] = true;
    assert_eq!(pack_sign_rows(&signs, 10), None);
    // dim below 8: no bytes at all, so any set sign lands past the end
    assert_eq!(pack_sign_rows(&vec![false; 6], 3), Some(vec![]));
    assert_eq!(pack_sign_rows(&vec![false, true, false], 3), None);
}

#[test]
fn sign_bits_read_back_what_was_packed() {
    let dim = 32;
    let n = 5;
    let signs: Vec<bool> = (0..n * dim).map(|p| (p * 7 + p / 3) % 5 < 2).collect();
    let bytes = pack_sign_rows(&signs, dim).unwrap();
    assert_eq!(bytes.len(), n * dim / 8);
    for i in 0..n {
        for j in 0..dim {
            assert_eq!(sign_bit(&bytes, i, dim / 8, j), signs[i * dim + j]);
        }
    }
}

#[test]
fn quantize_level_counts_exceeded_boundaries() {
    let b: Vec<u32> = [-0.9816f32, 0.0, 0.9816].iter().map(|x| order_key(x.to_bits())).collect();
    let level = |v: f32| quantize_level(order_key(v.to_bits()), &b);
    assert_eq!(level(-2.0), 0);
    assert_eq!(level(-0.5), 1);
    assert_eq!(level(0.0), 1);
    assert_eq!(level(0.5), 2);
    assert_eq!(level(3.0), 3);
}

#[test]
fn random_signs_are_unit_and_seeded() {
    let a = random_signs(64, 42);
    assert_eq!(a.len(), 64);
    assert!(a.iter().all(|&s| s == 1 || s == -1));
    assert!(a.iter().any(|&s| s == 1) && a.iter().any(|&s| s == -1));
    assert_eq!(a, random_signs(64, 42));
}

#[test]
fn qjl_memory_formula() {
    // 100 * 4 sign bytes + 100 * 4 scales + 32 signs + 32 * 32 * 4 rotation
    assert_eq!(qjl_memory_bytes(100, 32), 400 + 400 + 32 + 4096);
}

#[test]
fn coins_become_signs() {
    assert_eq!(signs_from_coins(&vec![true, false, false, true]), vec![1i8, -1, -1, 1]);
    assert!(signs_from_coins(&Vec::new()).is_empty());
    assert_eq!(sign_seed(42), 43);
}
