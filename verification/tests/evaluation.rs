use rollkit::{eval, eval_with, parse, EvalError, SeededRng, Value};

fn eval_seeded(input: &str, seed: u64) -> Result<Value, EvalError> {
    let expr = parse(input).unwrap();
    let mut rng = SeededRng::new(seed);
    eval_with(&expr, &mut rng)
}

#[test]
fn test_eval_integer_and_sums() {
    assert_eq!(eval_seeded("5 + 10", 0), Ok(Value::Integer(15)));
    assert_eq!(eval_seeded("2 * 3 + 4", 0), Ok(Value::Integer(10)));
    // a range literal is a weak list and collapses to its sum in arithmetic
    assert_eq!(eval_seeded("[1, 3] + 1", 0), Ok(Value::Integer(7)));
    // a single-integer brace list is weak
    assert_eq!(eval_seeded("{5} + 1", 0), Ok(Value::Integer(6)));
    // a brace list with several elements is strong: the scalar broadcasts
    assert_eq!(eval_seeded("{1,2,3} + 1", 0), Ok(Value::List(vec![2, 3, 4])));
}

#[test]
fn test_eval_wrapping_arithmetic() {
    assert_eq!(
        eval_seeded("9223372036854775807 + 1", 0),
        Ok(Value::Integer(i64::MIN))
    );
    assert_eq!(
        eval_seeded("-9223372036854775808 - 1", 0),
        Ok(Value::Integer(i64::MAX))
    );
}

#[test]
fn test_eval_comparisons() {
    assert_eq!(eval_seeded("5 == 5", 0), Ok(Value::Integer(1)));
    assert_eq!(eval_seeded("5 != 5", 0), Ok(Value::Integer(0)));
    assert_eq!(eval_seeded("5 < 3", 0), Ok(Value::Integer(0)));
    assert_eq!(eval_seeded("3 <= 3", 0), Ok(Value::Integer(1)));
    assert_eq!(eval_seeded("5 > 3", 0), Ok(Value::Integer(1)));
    assert_eq!(eval_seeded("3 >= 4", 0), Ok(Value::Integer(0)));
}

#[test]
fn test_eval_dice_seeded() {
    let result = eval_seeded("3d6", 42).unwrap();
    match &result {
        Value::List(values) => {
            assert_eq!(values.len(), 3);
            for v in values {
                assert!((1..=6).contains(v));
            }
        }
        other => panic!("expected a list, got {:?}", other),
    }
    // the same seed gives the same rolls
    assert_eq!(result, eval_seeded("3d6", 42).unwrap());
}

#[test]
fn test_eval_dice_default_source() {
    let expr = parse("3d6").unwrap();
    let value = eval(&expr).unwrap();
    match value {
        Value::List(values) => {
            assert_eq!(values.len(), 3);
            for v in &values {
                assert!((1..=6).contains(v));
            }
        }
        other => panic!("expected a list, got {:?}", other),
    }
}

#[test]
fn test_eval_dice_on_list_faces() {
    let result = eval_seeded("2d{1,2,3,5,8}", 7).unwrap();
    match result {
        Value::List(values) => {
            assert_eq!(values.len(), 2);
            for v in &values {
                assert!([1, 2, 3, 5, 8].contains(v));
            }
        }
        other => panic!("expected a list, got {:?}", other),
    }
}

#[test]
fn test_eval_keep_highest() {
    // keep highest of fixed values: the retained multiset is fixed
    let result = eval_seeded("{5,1,4,2} kh 3", 9).unwrap();
    match result {
        Value::List(mut values) => {
            values.sort();
            assert_eq!(values, vec![2, 4, 5]);
        }
        other => panic!("expected a list, got {:?}", other),
    }
    // rolled keep: always 3 values within the faces
    for seed in 0..20 {
        match eval_seeded("4d6kh3", seed).unwrap() {
            Value::List(values) => {
                assert_eq!(values.len(), 3);
                for v in &values {
                    assert!((1..=6).contains(v));
                }
            }
            other => panic!("expected a list, got {:?}", other),
        }
    }
}

#[test]
fn test_eval_keep_drop_variants() {
    let result = eval_seeded("{5,1,4} kl 2", 3).unwrap();
    match result {
        Value::List(mut values) => {
            values.sort();
            assert_eq!(values, vec![1, 4]);
        }
        other => panic!("expected a list, got {:?}", other),
    }
    let result = eval_seeded("{5,1,4} dh 1", 3).unwrap();
    match result {
        Value::List(mut values) => {
            values.sort();
            assert_eq!(values, vec![1, 4]);
        }
        other => panic!("expected a list, got {:?}", other),
    }
    let result = eval_seeded("{5,1,4} dl 1", 3).unwrap();
    match result {
        Value::List(mut values) => {
            values.sort();
            assert_eq!(values, vec![4, 5]);
        }
        other => panic!("expected a list, got {:?}", other),
    }
}

#[test]
fn test_eval_keep_drop_errors() {
    assert_eq!(
        eval_seeded("{1,2,3} kh -1", 0),
        Err(EvalError::KeepTooLess { requested: -1 })
    );
    assert_eq!(
        eval_seeded("{1,2,3} kh 5", 0),
        Err(EvalError::KeepTooMany {
            available: 3,
            requested: 5
        })
    );
    assert_eq!(
        eval_seeded("{1,2,3} dl -1", 0),
        Err(EvalError::DropTooLess { requested: -1 })
    );
    assert_eq!(
        eval_seeded("{1,2,3} dh 5", 0),
        Err(EvalError::DropTooMany {
            available: 3,
            requested: 5
        })
    );
}

#[test]
fn test_eval_type_errors() {
    assert_eq!(eval_seeded("5 kh 1", 0), Err(EvalError::ListExpected));
    assert_eq!(eval_seeded("{1,2} d 6", 0), Err(EvalError::IntegerExpected));
}

#[test]
fn test_eval_elementwise_lists() {
    assert_eq!(
        eval_seeded("{1,2,3} + {4,5,6}", 0),
        Ok(Value::List(vec![5, 7, 9]))
    );
    assert_eq!(
        eval_seeded("{1,2} + {1,2,3}", 0),
        Err(EvalError::ListMismatch {
            left_len: 2,
            right_len: 3
        })
    );
    assert_eq!(
        eval_seeded("{1,2,3} * {2,2,2}", 0),
        Ok(Value::List(vec![2, 4, 6]))
    );
}

#[test]
fn test_eval_strong_list_broadcast() {
    // the strong wrapper forces elementwise addition, not a sum
    let result = eval_seeded("{2d6} + 1", 5).unwrap();
    match result {
        Value::List(values) => {
            assert_eq!(values.len(), 2);
            for v in &values {
                assert!((2..=7).contains(v));
            }
        }
        other => panic!("expected a list, got {:?}", other),
    }
}

#[test]
fn test_eval_function_call_unsupported() {
    assert_eq!(
        eval_seeded("max(3d6)", 0),
        Err(EvalError::FunctionCallUnsupported)
    );
}

#[test]
fn test_eval_empty_face_set() {
    assert_eq!(eval_seeded("1d({1,2}kh0)", 0), Err(EvalError::EmptyFaceSet));
}

#[test]
fn test_value_methods() {
    let int_value = Value::Integer(5);
    let list_value = Value::List(vec![1, 2, 3]);

    assert!(int_value.is_integer());
    assert!(!list_value.is_integer());
    assert!(!int_value.is_list());
    assert!(list_value.is_list());
    assert_eq!(int_value.sum(), 5);
    assert_eq!(list_value.sum(), 6);
    assert_eq!(int_value.into_list(), vec![5]);
    assert_eq!(list_value.into_list(), vec![1, 2, 3]);
}

#[test]
fn test_value_render() {
    assert_eq!(Value::Integer(5).render(), "5");
    assert_eq!(Value::Integer(-17).render(), "-17");
    assert_eq!(Value::List(vec![1, 2, 3]).render(), "{1, 2, 3}");
    assert_eq!(Value::List(vec![]).render(), "{}");
}

#[test]
fn test_error_messages() {
    assert_eq!(
        EvalError::IntegerExpected.describe(),
        "Expected an integer, but got a list"
    );
    assert_eq!(
        EvalError::ListExpected.describe(),
        "Expected a list, but got an integer"
    );
    assert_eq!(
        EvalError::KeepTooMany {
            available: 3,
            requested: 5
        }
        .describe(),
        "Cannot keep 5 elements from a list of 3 elements"
    );
    assert_eq!(
        EvalError::DropTooLess { requested: -1 }.describe(),
        "Cannot drop -1 elements (must be non-negative)"
    );
    assert_eq!(
        EvalError::ListMismatch {
            left_len: 2,
            right_len: 3
        }
        .describe(),
        "List length mismatch: left has 2 elements, right has 3 elements"
    );
}
