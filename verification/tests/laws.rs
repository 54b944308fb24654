use dd_algorithms_lib::{
    calculate_fair_division_equal_weights, calculate_fair_division_weighted, get_k_dd_rand_num,
    get_k_dd_rand_num_with_whitelist, get_one_dd_3d_rand_num, get_one_dd_rand_num, Error,
};

fn basic_groups() -> Vec<Vec<u128>> {
    vec![
        vec![100u128, 200, 300],
        vec![150u128, 250, 350],
        vec![120u128, 220, 320],
        vec![130u128, 230, 330],
    ]
}

#[test]
fn equal_weights_exact_allocation() {
    // n = 3, sumV = 60, maxV = 30 at index 2, delta = (90 - 60) / 9 = 3:
    // shares 10/3+3 = 6 and 20/3+3 = 9, the maximum absorbs -(6+9).
    let values = vec![10i128, 20, 30];
    let mut output = vec![0i128; 3];
    assert!(calculate_fair_division_equal_weights(&values, &mut output).is_ok());
    assert_eq!(output, vec![6i128, 9, -15]);
    assert_eq!(output[2], -(output[0] + output[1]));
    assert_eq!(output.iter().sum::<i128>(), 0);
}

#[test]
fn equal_weights_tie_first_occurrence_absorbs() {
    // Equal bids: the first of the tied maxima absorbs the remainder.
    let values = vec![5i128, 5];
    let mut output = vec![0i128; 2];
    assert!(calculate_fair_division_equal_weights(&values, &mut output).is_ok());
    assert_eq!(output, vec![-2i128, 2]);
}

#[test]
fn equal_weights_negative_values_sum_to_zero() {
    // n = 2, sumV = -30, maxV = -10 at index 0, delta = (-20 + 30) / 4 = 2:
    // share -20/2+2 = -8 for index 1, index 0 absorbs 8.
    let values = vec![-10i128, -20];
    let mut output = vec![0i128; 2];
    assert!(calculate_fair_division_equal_weights(&values, &mut output).is_ok());
    assert_eq!(output, vec![8i128, -8]);
}

#[test]
fn equal_weights_overflow_reports_calculation_failed() {
    let values = vec![i128::MAX, i128::MAX];
    let mut output = vec![7i128, 7];
    let res = calculate_fair_division_equal_weights(&values, &mut output);
    assert!(matches!(res, Err(Error::CalculationFailed)));
    // No partial writes on failure.
    assert_eq!(output, vec![7i128, 7]);
}

#[test]
fn weighted_exact_allocation() {
    // n = 1+2+3 = 6, sumV = 10+40+90 = 140, maxV = 30 at index 2,
    // delta = (180 - 140) / 36 = 1: shares (10/6+1)*1 = 2 and (20/6+1)*2 = 8,
    // the maximum absorbs -(2+8).
    let values = vec![10i128, 20, 30];
    let weights = vec![1i128, 2, 3];
    let mut output = vec![0i128; 3];
    assert!(calculate_fair_division_weighted(&values, &weights, &mut output).is_ok());
    assert_eq!(output, vec![2i128, 8, -10]);
    assert_eq!(output.iter().sum::<i128>(), 0);
}

#[test]
fn weighted_unit_weights_equal_scaled_by_one() {
    // Consistency: with every weight the same constant (one), the weighted
    // allocation is the equal-weight allocation scaled by that constant.
    let values = vec![10i128, 20, 30];
    let weights = vec![1i128, 1, 1];
    let mut equal_out = vec![0i128; 3];
    let mut weighted_out = vec![0i128; 3];
    assert!(calculate_fair_division_equal_weights(&values, &mut equal_out).is_ok());
    assert!(calculate_fair_division_weighted(&values, &weights, &mut weighted_out).is_ok());
    assert_eq!(weighted_out, equal_out);
    assert_eq!(equal_out, vec![6i128, 9, -15]);
}

#[test]
fn weighted_overflow_reports_calculation_failed() {
    let values = vec![i128::MAX, i128::MAX];
    let weights = vec![1i128, 1];
    let mut output = vec![0i128; 2];
    let res = calculate_fair_division_weighted(&values, &weights, &mut output);
    assert!(matches!(res, Err(Error::CalculationFailed)));
}

#[test]
fn weighted_not_enough_participants() {
    let values = vec![10i128];
    let weights = vec![1i128];
    let mut output = vec![0i128; 1];
    let res = calculate_fair_division_weighted(&values, &weights, &mut output);
    assert!(matches!(res, Err(Error::NotEnoughParticipants)));
}

#[test]
fn one_rand_exact_xor_value() {
    let values = vec![100u128, 200, 300, 400];
    let mut result = 0u128;
    assert!(get_one_dd_rand_num(&values, 4, &mut result).is_ok());
    assert_eq!(result, 100u128 ^ 200 ^ 300 ^ 400);
    assert_eq!(result, 16u128);
}

#[test]
fn one_rand_order_independent() {
    // Permuting the contributed values leaves the XOR reduction unchanged.
    let forward = vec![100u128, 200, 300, 400];
    let shuffled = vec![400u128, 300, 100, 200];
    let mut a = 0u128;
    let mut b = 0u128;
    assert!(get_one_dd_rand_num(&forward, 4, &mut a).is_ok());
    assert!(get_one_dd_rand_num(&shuffled, 4, &mut b).is_ok());
    assert_eq!(a, b);
}

#[test]
fn one_rand_rejects_non_power_of_two() {
    let values = vec![1u128, 2, 3];
    let mut out = 0u128;
    let res = get_one_dd_rand_num(&values, 3, &mut out);
    assert!(matches!(res, Err(Error::InvalidInput)));
    assert_eq!(out, 0);
}

#[test]
fn one_rand_3d_power_of_two_range() {
    // The range size k carries the power-of-two requirement, not n.
    let values = vec![100u128, 200, 300];
    let mut out = 0u128;
    assert!(get_one_dd_3d_rand_num(&values, 3, 8, &mut out).is_ok());
    assert_eq!(out, 100u128 ^ 200 ^ 300);
    let res = get_one_dd_3d_rand_num(&values, 3, 6, &mut out);
    assert!(matches!(res, Err(Error::InvalidInput)));
}

#[test]
fn k_rand_exact_indices_and_reproducible() {
    // Column XORs are 8, 8 and 120; all reduce to 0 modulo 4, so probing
    // yields 0, then 1, then 2.
    let groups = basic_groups();
    let mut output = vec![0usize; 3];
    assert!(get_k_dd_rand_num(&groups, 4, 3, &mut output).is_ok());
    assert_eq!(output, vec![0usize, 1, 2]);
    let mut again = vec![9usize; 3];
    assert!(get_k_dd_rand_num(&groups, 4, 3, &mut again).is_ok());
    assert_eq!(again, output);
}

#[test]
fn k_rand_rejects_non_power_of_two() {
    let groups = vec![vec![1u128], vec![2u128], vec![3u128]];
    let mut output = vec![0usize; 1];
    let res = get_k_dd_rand_num(&groups, 3, 1, &mut output);
    assert!(matches!(res, Err(Error::InvalidInput)));
    let res = get_k_dd_rand_num_with_whitelist(&groups, 3, 1, &Vec::new(), &mut output);
    assert!(matches!(res, Err(Error::InvalidInput)));
}

#[test]
fn k_rand_rejects_out_of_bounds_sizes() {
    let groups = vec![vec![1u128]];
    let mut output = vec![0usize; 1];
    // 2^17 is the smallest power of two above the participant cap.
    let res = get_k_dd_rand_num(&groups, 131072, 1, &mut output);
    assert!(matches!(res, Err(Error::InvalidInput)));
    let mut big_output = vec![0usize; 1001];
    let res = get_k_dd_rand_num(&groups, 1, 1001, &mut big_output);
    assert!(matches!(res, Err(Error::InvalidInput)));
}

#[test]
fn k_rand_rejects_mismatched_group_length() {
    let groups = vec![vec![1u128, 2], vec![3u128]];
    let mut output = vec![0usize; 2];
    let res = get_k_dd_rand_num(&groups, 2, 2, &mut output);
    assert!(matches!(res, Err(Error::InvalidInput)));
}

#[test]
fn whitelist_never_selected() {
    let groups = basic_groups();
    let whitelist = vec![0usize];
    let mut output = vec![0usize; 3];
    assert!(get_k_dd_rand_num_with_whitelist(&groups, 4, 3, &whitelist, &mut output).is_ok());
    assert_eq!(output, vec![1usize, 2, 3]);
    assert!(!output.contains(&0));
}

#[test]
fn whitelist_rejects_out_of_range_entry() {
    let groups = basic_groups();
    let whitelist = vec![4usize];
    let mut output = vec![0usize; 3];
    let res = get_k_dd_rand_num_with_whitelist(&groups, 4, 3, &whitelist, &mut output);
    assert!(matches!(res, Err(Error::InvalidInput)));
}

#[test]
fn whitelist_exhaustion_reports_calculation_failed() {
    // Two selections from two participants with one excluded: the second
    // slot probes a full cycle and finds nothing admissible.
    let groups = vec![vec![1u128, 2], vec![3u128, 4]];
    let whitelist = vec![0usize];
    let mut output = vec![0usize; 2];
    let res = get_k_dd_rand_num_with_whitelist(&groups, 2, 2, &whitelist, &mut output);
    assert!(matches!(res, Err(Error::CalculationFailed)));
}

#[test]
fn whitelist_empty_matches_plain_selection() {
    let groups = basic_groups();
    let mut plain = vec![0usize; 3];
    let mut listed = vec![0usize; 3];
    assert!(get_k_dd_rand_num(&groups, 4, 3, &mut plain).is_ok());
    assert!(get_k_dd_rand_num_with_whitelist(&groups, 4, 3, &Vec::new(), &mut listed).is_ok());
    assert_eq!(plain, listed);
}
