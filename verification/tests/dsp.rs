use enigma_firmware::dsp::{strongest, Chain};

#[test]
fn test_std() {
    println!("hello");
}

#[test]
fn strongest_of_empty_bank_is_zero() {
    let norms: [u32; 0] = [];
    assert_eq!(strongest(&norms), (0, 0));
}

#[test]
fn strongest_of_silent_bank_is_first() {
    assert_eq!(strongest(&[0, 0, 0]), (0, 0));
}

#[test]
fn strongest_takes_first_of_equal_maxima() {
    assert_eq!(strongest(&[3, 7, 7, 2]), (1, 7));
}

#[test]
fn strongest_single_resonator() {
    assert_eq!(strongest(&[5]), (0, 5));
}

#[test]
fn strongest_at_the_end() {
    assert_eq!(strongest(&[1, 2, 3, 4, 9]), (4, 9));
}

#[test]
fn strongest_orders_float_magnitudes_by_bits() {
    let mags: [f32; 4] = [0.25, 1.5, 0.75, 1.25];
    let keys: Vec<u32> = mags.iter().map(|m| m.to_bits()).collect();
    let (index, key) = strongest(&keys);
    assert_eq!(index, 1);
    assert_eq!(f32::from_bits(key), 1.5);
}

#[test]
fn chain_holds_both_stages() {
    let chain = Chain { first: 1u8, then: 2u16 };
    let copy = chain;
    assert_eq!(copy.first, 1);
    assert_eq!(copy.then, 2);
}
