use num_bigint::BigUint;
use usort::{
    usort_body, usort_enter_scope, verify_multiplicity_assert, verify_multiplicity_body,
    verify_usort, UsortError, Value,
};

#[test]
fn usort_out_of_range() {
    let mut scope = usort_enter_scope(Some(1));
    let input: Vec<Value> = vec![];
    let r = usort_body(&mut scope, &input, &Value::from_u64(5));
    assert_eq!(r, Err(UsortError::SizeExceeded(1, Value::from_u64(5))));
}

#[test]
fn enter_scope_inherits_cap() {
    let scope = usort_enter_scope(Some(7));
    assert_eq!(scope.max_size, Some(7));
    let scope = usort_enter_scope(None);
    assert_eq!(scope.max_size, None);
}

#[test]
fn single_value_roundtrip() {
    let mut scope = usort_enter_scope(Some(1));
    let input = vec![Value::from_u64(5)];
    let out = usort_body(&mut scope, &input, &Value::from_u64(1)).unwrap();
    assert_eq!(out.output, vec![Value::from_u64(5)]);
    assert_eq!(out.multiplicities, vec![1usize]);
    assert_eq!(verify_usort(&mut scope, &Value::from_u64(5)), Ok(()));
    // the single occurrence stands at position 0, so the gap is 0 - 0
    assert_eq!(verify_multiplicity_body(&mut scope), Ok(0));
    assert_eq!(verify_multiplicity_assert(&scope), Ok(()));
}

#[test]
fn three_values_two_distinct() {
    let mut scope = usort_enter_scope(None);
    let input = vec![Value::from_u64(3), Value::from_u64(1), Value::from_u64(3)];
    let out = usort_body(&mut scope, &input, &Value::from_u64(3)).unwrap();
    assert_eq!(out.output, vec![Value::from_u64(1), Value::from_u64(3)]);
    assert_eq!(out.multiplicities, vec![1usize, 2usize]);
    assert_eq!(verify_usort(&mut scope, &Value::from_u64(1)), Ok(()));
    assert_eq!(verify_multiplicity_body(&mut scope), Ok(1));
    assert_eq!(verify_multiplicity_assert(&scope), Ok(()));
    assert_eq!(verify_usort(&mut scope, &Value::from_u64(3)), Ok(()));
    assert_eq!(verify_multiplicity_body(&mut scope), Ok(0));
    assert_eq!(verify_multiplicity_body(&mut scope), Ok(1));
    assert_eq!(verify_multiplicity_assert(&scope), Ok(()));
}

#[test]
fn empty_input_yields_empty_output() {
    let mut scope = usort_enter_scope(None);
    let input: Vec<Value> = vec![];
    let out = usort_body(&mut scope, &input, &Value::from_u64(0)).unwrap();
    assert_eq!(out.output, Vec::<Value>::new());
    assert_eq!(out.multiplicities, Vec::<usize>::new());
}

#[test]
fn only_the_claimed_prefix_is_read() {
    let mut scope = usort_enter_scope(None);
    let input = vec![Value::from_u64(7), Value::from_u64(9)];
    let out = usort_body(&mut scope, &input, &Value::from_u64(1)).unwrap();
    assert_eq!(out.output, vec![Value::from_u64(7)]);
    assert_eq!(out.multiplicities, vec![1usize]);
}

#[test]
fn multiplicities_sum_to_length() {
    let mut scope = usort_enter_scope(None);
    let input: Vec<Value> = [9u64, 2, 9, 7, 2, 9].iter().map(|&v| Value::from_u64(v)).collect();
    let out = usort_body(&mut scope, &input, &Value::from_u64(6)).unwrap();
    assert_eq!(
        out.output,
        vec![Value::from_u64(2), Value::from_u64(7), Value::from_u64(9)]
    );
    assert_eq!(out.multiplicities, vec![2usize, 1, 3]);
    let total: usize = out.multiplicities.iter().sum();
    assert_eq!(total, input.len());
}

#[test]
fn gaps_follow_positions() {
    // values 4 at positions 0, 1, 3 and 9 at position 2
    let mut scope = usort_enter_scope(None);
    let input: Vec<Value> = [4u64, 4, 9, 4].iter().map(|&v| Value::from_u64(v)).collect();
    let out = usort_body(&mut scope, &input, &Value::from_u64(4)).unwrap();
    assert_eq!(out.multiplicities, vec![3usize, 1]);
    assert_eq!(verify_usort(&mut scope, &Value::from_u64(4)), Ok(()));
    assert_eq!(verify_multiplicity_body(&mut scope), Ok(0));
    assert_eq!(verify_multiplicity_body(&mut scope), Ok(0));
    assert_eq!(verify_multiplicity_body(&mut scope), Ok(1));
    assert_eq!(verify_multiplicity_assert(&scope), Ok(()));
    assert_eq!(verify_usort(&mut scope, &Value::from_u64(9)), Ok(()));
    assert_eq!(verify_multiplicity_body(&mut scope), Ok(2));
    assert_eq!(verify_multiplicity_assert(&scope), Ok(()));
}

#[test]
fn verify_same_value_twice_fails() {
    let mut scope = usort_enter_scope(None);
    let input = vec![Value::from_u64(8), Value::from_u64(8)];
    usort_body(&mut scope, &input, &Value::from_u64(2)).unwrap();
    assert_eq!(verify_usort(&mut scope, &Value::from_u64(8)), Ok(()));
    assert_eq!(
        verify_usort(&mut scope, &Value::from_u64(8)),
        Err(UsortError::MissingWitnessEntry)
    );
}

#[test]
fn verify_unknown_value_fails() {
    let mut scope = usort_enter_scope(None);
    let input = vec![Value::from_u64(8)];
    usort_body(&mut scope, &input, &Value::from_u64(1)).unwrap();
    assert_eq!(
        verify_usort(&mut scope, &Value::from_u64(4)),
        Err(UsortError::MissingWitnessEntry)
    );
}

#[test]
fn early_assert_and_extra_walk_fail() {
    let mut scope = usort_enter_scope(None);
    let input = vec![Value::from_u64(6), Value::from_u64(6)];
    usort_body(&mut scope, &input, &Value::from_u64(2)).unwrap();
    assert_eq!(verify_usort(&mut scope, &Value::from_u64(6)), Ok(()));
    // one of the two positions is still unconsumed
    assert_eq!(verify_multiplicity_body(&mut scope), Ok(0));
    assert_eq!(
        verify_multiplicity_assert(&scope),
        Err(UsortError::MultiplicityUnderflow)
    );
    // walking once more than the multiplicity fails
    assert_eq!(verify_multiplicity_body(&mut scope), Ok(0));
    assert_eq!(
        verify_multiplicity_body(&mut scope),
        Err(UsortError::MultiplicityOverflow)
    );
}

#[test]
fn oversized_length_claim_fails_conversion() {
    let mut scope = usort_enter_scope(None);
    let input = vec![Value::from_u64(1)];
    // 2^64 does not fit a machine word
    let huge = Value::from_limbs(vec![0, 1]);
    assert_eq!(
        usort_body(&mut scope, &input, &huge),
        Err(UsortError::IndexConversionFailure)
    );
}

#[test]
fn length_claim_beyond_input_fails_read() {
    let mut scope = usort_enter_scope(None);
    let input = vec![Value::from_u64(5)];
    assert_eq!(
        usort_body(&mut scope, &input, &Value::from_u64(2)),
        Err(UsortError::MemoryAccessFailure)
    );
}

#[test]
fn cap_checked_before_reads() {
    // the cap rejection fires even though the claimed cells exist
    let mut scope = usort_enter_scope(Some(2));
    let input: Vec<Value> = [1u64, 2, 3].iter().map(|&v| Value::from_u64(v)).collect();
    assert_eq!(
        usort_body(&mut scope, &input, &Value::from_u64(3)),
        Err(UsortError::SizeExceeded(2, Value::from_u64(3)))
    );
}

#[test]
fn values_beyond_one_word_sort_by_magnitude() {
    let mut scope = usort_enter_scope(None);
    let big = Value::from_limbs(vec![0, 1]); // 2^64
    let bigger = Value::from_limbs(vec![1, 1]); // 2^64 + 1
    let small = Value::from_u64(u64::MAX);
    let input = vec![bigger.clone(), small.clone(), big.clone()];
    let out = usort_body(&mut scope, &input, &Value::from_u64(3)).unwrap();
    assert_eq!(out.output, vec![small, big, bigger]);
    assert_eq!(out.multiplicities, vec![1usize, 1, 1]);
}

#[test]
fn from_limbs_normalizes() {
    assert_eq!(Value::from_limbs(vec![5, 0, 0]), Value::from_u64(5));
    assert_eq!(Value::from_limbs(vec![]), Value::from_u64(0));
    assert_eq!(Value::from_limbs(vec![0]), Value::from_u64(0));
}

#[test]
fn to_u64_inverts_small_values() {
    assert_eq!(Value::from_u64(12345).to_u64(), Some(12345));
    assert_eq!(Value::from_u64(0).to_u64(), Some(0));
    assert_eq!(Value::from_limbs(vec![7, 3]).to_u64(), None);
}

#[test]
fn biguint_values_carry_over() {
    // a digit sequence handed back unchanged would misrepresent the number
    let b = BigUint::from(1u128 << 64) + BigUint::from(5u32);
    let v = Value::from_biguint(&b);
    assert_eq!(v, Value::from_limbs(vec![5, 1]));
    assert_eq!(Value::from_biguint(&BigUint::from(42u32)), Value::from_u64(42));
    assert_eq!(v.limbs().as_slice(), &[5u64, 1]);
}
