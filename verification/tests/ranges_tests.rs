use rcut::merge::merge_ranged_pairs;
use rcut::prepare_ranged_pairs;
use rcut::ranges::extract_ranged_pairs;
use rcut::ranges::str_to_ranged_pair;
use rcut::ranges::RangeError;

#[test]
fn test_str_to_ranged_pair_valid_inputs() {
    assert_eq!(str_to_ranged_pair("1"), Ok((1, 1)));
    assert_eq!(str_to_ranged_pair("2"), Ok((2, 2)));
    assert_eq!(str_to_ranged_pair("-20"), Ok((1, 20)));
    assert_eq!(str_to_ranged_pair("20-"), Ok((20, usize::MAX)));
    assert_eq!(str_to_ranged_pair("3-7"), Ok((3, 7)));
}

#[test]
fn lib_test_str_to_ranged_pair_valid_inputs() {
    assert_eq!(str_to_ranged_pair("1"), Ok((1, 1)));
    assert_eq!(str_to_ranged_pair("2"), Ok((2, 2)));
    assert_eq!(str_to_ranged_pair("-20"), Ok((1, 20)));
    assert_eq!(str_to_ranged_pair("20-"), Ok((20, usize::MAX)));
    assert_eq!(str_to_ranged_pair("3-7"), Ok((3, 7)));
}

#[test]
fn test_str_to_ranged_pair_empty_input() {
    assert_eq!(str_to_ranged_pair(""), Err(RangeError::InvalidRangeToken));
}

#[test]
fn test_str_to_ranged_pair_no_range() {
    assert_eq!(str_to_ranged_pair("-"), Err(RangeError::InvalidRangeToken));
}

#[test]
fn test_str_to_ranged_pair_invalid_char() {
    assert_eq!(str_to_ranged_pair(";"), Err(RangeError::InvalidRangeToken));
}

#[test]
fn test_str_to_ranged_pair_space() {
    assert_eq!(str_to_ranged_pair(" "), Err(RangeError::InvalidRangeToken));
}

#[test]
fn test_str_to_ranged_pair_tab() {
    assert_eq!(str_to_ranged_pair("\t"), Err(RangeError::InvalidRangeToken));
}

#[test]
fn test_str_to_ranged_pair_double_dash() {
    assert_eq!(str_to_ranged_pair("1-2-3"), Err(RangeError::InvalidRangeToken));
}

#[test]
fn test_str_to_ranged_pair_overflow() {
    assert_eq!(
        str_to_ranged_pair("99999999999999999999999999999999999999"),
        Err(RangeError::InvalidRangeToken)
    );
}

#[test]
fn test_str_to_ranged_pair_zero() {
    assert_eq!(str_to_ranged_pair("0"), Ok((0, 0)));
}

#[test]
fn test_extract_ranged_pairs_basic_valid_inputs() {
    assert_eq!(extract_ranged_pairs("1").unwrap(), vec![(1, 1)]);
    assert_eq!(extract_ranged_pairs("1-8").unwrap(), vec![(1, 8)]);
    assert_eq!(extract_ranged_pairs("5-9").unwrap(), vec![(5, 9)]);
    assert_eq!(extract_ranged_pairs("9-5").unwrap(), vec![]);
    assert_eq!(extract_ranged_pairs("-5").unwrap(), vec![(1, 5)]);
    assert_eq!(extract_ranged_pairs("5-").unwrap(), vec![(5, usize::MAX)]);
}

#[test]
fn lib_test_extract_ranged_pairs_basic_valid_inputs() {
    assert_eq!(extract_ranged_pairs("1").unwrap(), vec![(1, 1)]);
    assert_eq!(extract_ranged_pairs("1-8").unwrap(), vec![(1, 8)]);
    assert_eq!(extract_ranged_pairs("5-9").unwrap(), vec![(5, 9)]);
    assert_eq!(extract_ranged_pairs("9-5").unwrap(), vec![]);
    assert_eq!(extract_ranged_pairs("-5").unwrap(), vec![(1, 5)]);
    assert_eq!(extract_ranged_pairs("5-").unwrap(), vec![(5, usize::MAX)]);
}

#[test]
fn test_extract_ranged_pairs_ensure_no_sorting() {
    assert_eq!(
        extract_ranged_pairs("3,4,5-").unwrap(),
        vec![(3, 3), (4, 4), (5, usize::MAX)]
    );
    assert_eq!(
        extract_ranged_pairs("5-,3,4").unwrap(),
        vec![(5, usize::MAX), (3, 3), (4, 4)]
    );
    assert_eq!(
        extract_ranged_pairs("6-10,5-").unwrap(),
        vec![(6, 10), (5, usize::MAX)]
    );
    assert_eq!(
        extract_ranged_pairs("7,6-10,5-").unwrap(),
        vec![(7, 7), (6, 10), (5, usize::MAX)]
    );
}

#[test]
fn lib_test_extract_ranged_pairs_ensure_no_sorting() {
    assert_eq!(
        extract_ranged_pairs("3,4,5-").unwrap(),
        vec![(3, 3), (4, 4), (5, usize::MAX)]
    );
    assert_eq!(
        extract_ranged_pairs("5-,3,4").unwrap(),
        vec![(5, usize::MAX), (3, 3), (4, 4)]
    );
    assert_eq!(
        extract_ranged_pairs("6-10,5-").unwrap(),
        vec![(6, 10), (5, usize::MAX)]
    );
    assert_eq!(
        extract_ranged_pairs("7,6-10,5-").unwrap(),
        vec![(7, 7), (6, 10), (5, usize::MAX)]
    );
}

#[test]
fn test_extract_ranged_pairs_empty() {
    assert_eq!(extract_ranged_pairs(""), Err(RangeError::InvalidRangeToken));
}

#[test]
fn test_extract_ranged_pairs_bad_range() {
    assert_eq!(extract_ranged_pairs("-"), Err(RangeError::InvalidRangeToken));
}

#[test]
fn test_extract_ranged_pairs_bad_middle_token() {
    assert_eq!(extract_ranged_pairs("1,x,3"), Err(RangeError::InvalidRangeToken));
}

#[test]
fn test_merge_ranged_pairs() {
    assert_eq!(
        merge_ranged_pairs(extract_ranged_pairs("3,4,5-").unwrap()),
        vec![(3, usize::MAX)]
    );
    assert_eq!(
        merge_ranged_pairs(extract_ranged_pairs("3-4,5-").unwrap()),
        vec![(3, usize::MAX)]
    );
    assert_eq!(
        merge_ranged_pairs(extract_ranged_pairs("3-5,5-").unwrap()),
        vec![(3, usize::MAX)]
    );
    assert_eq!(
        merge_ranged_pairs(extract_ranged_pairs("3-6,5-").unwrap()),
        vec![(3, usize::MAX)]
    );
    assert_eq!(
        merge_ranged_pairs(extract_ranged_pairs("7,6-10,5-").unwrap()),
        vec![(5, usize::MAX)]
    );
    assert_eq!(
        merge_ranged_pairs(extract_ranged_pairs("3-7,8,2-10,12-20").unwrap()),
        vec![(2, 10), (12, 20)]
    );
    assert_eq!(
        merge_ranged_pairs(extract_ranged_pairs("3-7,8,2-10,11-20").unwrap()),
        vec![(2, 20)]
    );
}

#[test]
fn lib_test_merge_ranged_pairs() {
    assert_eq!(
        merge_ranged_pairs(extract_ranged_pairs("3,4,5-").unwrap()),
        vec![(3, usize::MAX)]
    );
    assert_eq!(
        merge_ranged_pairs(extract_ranged_pairs("3-4,5-").unwrap()),
        vec![(3, usize::MAX)]
    );
    assert_eq!(
        merge_ranged_pairs(extract_ranged_pairs("3-5,5-").unwrap()),
        vec![(3, usize::MAX)]
    );
    assert_eq!(
        merge_ranged_pairs(extract_ranged_pairs("3-6,5-").unwrap()),
        vec![(3, usize::MAX)]
    );
    assert_eq!(
        merge_ranged_pairs(extract_ranged_pairs("7,6-10,5-").unwrap()),
        vec![(5, usize::MAX)]
    );
    assert_eq!(
        merge_ranged_pairs(extract_ranged_pairs("3-7,8,2-10,12-20").unwrap()),
        vec![(2, 10), (12, 20)]
    );
    assert_eq!(
        merge_ranged_pairs(extract_ranged_pairs("3-7,8,2-10,11-20").unwrap()),
        vec![(2, 20)]
    );
}

#[test]
fn test_merge_ranged_pairs_empty() {
    assert_eq!(merge_ranged_pairs(vec![]), vec![]);
}

#[test]
fn test_merge_ranged_pairs_single() {
    assert_eq!(merge_ranged_pairs(vec![(4, 9)]), vec![(4, 9)]);
}

#[test]
fn test_merge_ranged_pairs_idempotent_sample() {
    let once = merge_ranged_pairs(extract_ranged_pairs("7,6-10,5-,1,3-7").unwrap());
    let twice = merge_ranged_pairs(once.clone());
    assert_eq!(once, twice);
}

#[test]
fn test_prepare_ranged_pairs_merged() {
    assert_eq!(
        prepare_ranged_pairs(false, "3,4,5-").unwrap(),
        vec![(3, usize::MAX)]
    );
}

#[test]
fn test_prepare_ranged_pairs_no_merge() {
    assert_eq!(
        prepare_ranged_pairs(true, "3,4,5-").unwrap(),
        vec![(3, 3), (4, 4), (5, usize::MAX)]
    );
}

#[test]
fn test_prepare_ranged_pairs_error() {
    assert_eq!(prepare_ranged_pairs(false, "-"), Err(RangeError::InvalidRangeToken));
}

#[test]
fn test_str_to_ranged_pair_max_value() {
    let max_str = usize::MAX.to_string();
    assert_eq!(str_to_ranged_pair(&max_str), Ok((usize::MAX, usize::MAX)));
}

#[test]
fn test_merge_ranged_pairs_zero_start() {
    assert_eq!(merge_ranged_pairs(vec![(0, 1), (0, 2)]), vec![(0, 2)]);
}
