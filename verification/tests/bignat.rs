use d3_format::bignat::BigNat;
use d3_format::FormatError;
use std::cmp::Ordering;

/// Decimal rendering of a value, nine digits at a time.
fn decimal(value: &BigNat) -> String {
    if value.is_zero() {
        return "0".to_string();
    }
    let mut work = value.clone();
    let mut chunks = Vec::new();
    while !work.is_zero() {
        chunks.push(work.divmod_small(1_000_000_000));
    }
    let mut out = chunks.pop().map(|top| top.to_string()).unwrap_or_default();
    while let Some(chunk) = chunks.pop() {
        out.push_str(&format!("{chunk:09}"));
    }
    out
}

#[test]
fn builds_from_a_shifted_u64() {
    let value = BigNat::try_from_u64_shl(3, 100).unwrap();
    assert_eq!(decimal(&value), "3802951800684688204490109616128");
    assert_eq!(value.bit_len(), 102);
    assert!(BigNat::try_from_u64_shl(0, 100).unwrap().is_zero());
}

#[test]
fn multiplies_by_powers_of_ten() {
    let mut value = BigNat::try_from_u64_shl(7, 0).unwrap();
    value.try_mul_pow10(30).unwrap();
    assert_eq!(decimal(&value), "7000000000000000000000000000000");
}

#[test]
fn adds_and_subtracts_across_limb_boundaries() {
    let mut value = BigNat::try_from_u64_shl(u64::MAX, 0).unwrap();
    let one = BigNat::try_from_u64_shl(1, 0).unwrap();
    value.try_add_assign(&one).unwrap();
    assert_eq!(decimal(&value), "18446744073709551616");
    value.sub_assign(&one);
    assert_eq!(decimal(&value), "18446744073709551615");
}

#[test]
fn subtracting_more_than_it_holds_clamps_to_zero_instead_of_panicking() {
    let mut value = BigNat::try_from_u64_shl(1, 0).unwrap();
    let bigger = BigNat::try_from_u64_shl(2, 0).unwrap();
    value.sub_assign(&bigger);
    assert!(value.is_zero());
}

#[test]
fn shifts_right_across_limbs_and_off_the_end() {
    let mut value = BigNat::try_from_u64_shl(1, 1000).unwrap();
    assert_eq!(value.bit_len(), 1001);
    value.shr_assign(999);
    assert_eq!(decimal(&value), "2");
    value.shr_assign(64);
    assert!(value.is_zero());
}

#[test]
fn orders_by_magnitude() {
    let small = BigNat::try_from_u64_shl(1, 64).unwrap();
    let large = BigNat::try_from_u64_shl(1, 65).unwrap();
    assert!(small < large);
    assert_eq!(small.cmp(&small.clone()), Ordering::Equal);
    assert!(BigNat::zero() < small);
}

#[test]
fn reaches_the_1024_bit_representation_of_f64_max() {
    let mantissa = (1u64 << 53) - 1;
    let value = BigNat::try_from_u64_shl(mantissa, 971).unwrap();
    assert_eq!(value.bit_len(), 1024);
    assert_eq!(decimal(&value).len(), 309);
    assert!(decimal(&value).starts_with("17976931348623157"));
}

#[test]
fn refuses_growth_beyond_the_limb_cap_instead_of_allocating() {
    assert_eq!(
        BigNat::try_from_u64_shl(1, 1_000_000),
        Err(FormatError::AllocationFailed)
    );
    let mut value = BigNat::try_from_u64_shl(1, 0).unwrap();
    let mut last = Ok(());
    for _ in 0..64 {
        last = value.try_mul_pow10(1000);
        if last.is_err() {
            break;
        }
    }
    assert_eq!(last, Err(FormatError::AllocationFailed));
}

#[test]
fn divides_by_a_single_limb() {
    let mut value = BigNat::try_from_u64_shl(1, 0).unwrap();
    value.try_mul_pow10(38).unwrap();
    let remainder = value.divmod_small(7);
    assert_eq!(remainder, (10u128.pow(38) % 7) as u32);
    assert_eq!(decimal(&value), (10u128.pow(38) / 7).to_string());
}

#[test]
fn reads_low_bits_for_the_power_of_two_radices() {
    let mut value = BigNat::try_from_u64_shl(0b1011, 0).unwrap();
    assert_eq!(value.low_bits(1), 1);
    assert_eq!(value.low_bits(3), 0b011);
    assert_eq!(value.low_bits(4), 0b1011);
    value.shr_assign(4);
    assert!(value.is_zero());
}

#[test]
fn clone_from_copies_the_value_and_pow2_is_a_shifted_one() {
    let source = BigNat::try_pow2(70).unwrap();
    let mut target = BigNat::zero();
    target.try_clone_from(&source).unwrap();
    assert_eq!(decimal(&target), "1180591620717411303424");
    assert_eq!(target.bit_len(), 71);
    assert!(source.cmp(&target) == Ordering::Equal);
}

#[test]
fn multiplies_by_a_single_limb_and_divides_back() {
    let mut value = BigNat::try_from_u64_shl(123_456_789, 40).unwrap();
    value.try_mul_small(1_000_003).unwrap();
    assert_eq!(value.divmod_small(1_000_003), 0);
    assert_eq!(decimal(&value), "135742175033388171264");
    assert_eq!(value.divmod_small(0), 0);
    assert_eq!(decimal(&value), "135742175033388171264");
}
