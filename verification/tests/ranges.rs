use rollkit::RangeLiteral;

#[test]
fn test_range_to_vec_examples() {
    assert_eq!(
        RangeLiteral { start: 1, end: 5, step: Some(2) }.to_vec(),
        vec![1, 3, 5]
    );
    assert_eq!(
        RangeLiteral { start: 5, end: 1, step: Some(2) }.to_vec(),
        vec![5, 3, 1]
    );
    assert_eq!(
        RangeLiteral { start: 1, end: 5, step: None }.to_vec(),
        vec![1, 2, 3, 4, 5]
    );
}

#[test]
fn test_range_direction_and_step_sign() {
    // the sign of the step is forced to match the range's direction
    assert_eq!(
        RangeLiteral { start: 1, end: 5, step: Some(-2) }.to_vec(),
        vec![1, 3, 5]
    );
    assert_eq!(
        RangeLiteral { start: 3, end: 1, step: None }.to_vec(),
        vec![3, 2, 1]
    );
}

#[test]
fn test_range_single_point() {
    assert_eq!(RangeLiteral { start: 2, end: 2, step: None }.to_vec(), vec![2]);
    assert_eq!(
        RangeLiteral { start: 7, end: 9, step: Some(5) }.to_vec(),
        vec![7]
    );
}

#[test]
fn test_range_zero_step_stops() {
    // a zero step cannot advance, so enumeration yields only the start
    assert_eq!(
        RangeLiteral { start: 1, end: 5, step: Some(0) }.to_vec(),
        vec![1]
    );
}

#[test]
fn test_range_near_boundary() {
    assert_eq!(
        RangeLiteral { start: i64::MAX - 1, end: i64::MAX, step: None }.to_vec(),
        vec![i64::MAX - 1, i64::MAX]
    );
    assert_eq!(
        RangeLiteral { start: i64::MIN, end: i64::MIN + 1, step: None }.to_vec(),
        vec![i64::MIN, i64::MIN + 1]
    );
    assert_eq!(
        RangeLiteral { start: i64::MAX, end: i64::MAX, step: None }.to_vec(),
        vec![i64::MAX]
    );
}
