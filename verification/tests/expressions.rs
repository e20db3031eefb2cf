use kataru::comparator::Comparator;
use kataru::conditional::Conditional;
use kataru::operator::Operator;
use kataru::state::{update_state, StateMod};
use kataru::structs::Value;
use kataru::ValidationError;

#[test]
fn test_value_cmp() {
    let v1 = Value::Number(1);
    let v2 = Value::Number(2);
    assert_eq!(v1 < v2, true);

    let v1 = Value::Number(1);
    let v2 = Value::Str("test".to_string());
    assert_eq!(v1 < v2, false);
}

/// Tests construction and comparison of conditional
#[test]
fn test_cond_cmp() {
    let res = Conditional::parse("if var > 5");
    assert!(res.is_ok(), "Parsing failed: {:?}", res.as_ref().unwrap_err());

    let cond = res.unwrap();
    assert_eq!(
        cond,
        Conditional { var: "var".to_string(), val: Value::Number(5), cmp: Comparator::GT }
    );
}

#[test]
fn comparator_accepts_exactly_six_tokens() {
    assert_eq!(Comparator::parse("==").unwrap(), Comparator::EQ);
    assert_eq!(Comparator::parse("!=").unwrap(), Comparator::NEQ);
    assert_eq!(Comparator::parse(">").unwrap(), Comparator::GT);
    assert_eq!(Comparator::parse(">=").unwrap(), Comparator::GEQ);
    assert_eq!(Comparator::parse("<").unwrap(), Comparator::LT);
    assert_eq!(Comparator::parse("<=").unwrap(), Comparator::LEQ);
    assert_eq!(Comparator::parse("").unwrap_err(), ValidationError::ParseError);
    assert_eq!(Comparator::parse(" ==").unwrap_err(), ValidationError::ParseError);
    assert_eq!(Comparator::parse("== ").unwrap_err(), ValidationError::ParseError);
    assert_eq!(Comparator::parse("=>").unwrap_err(), ValidationError::ParseError);
}

#[test]
fn operator_accepts_exactly_three_tokens() {
    assert!(matches!(Operator::parse("+=").unwrap(), Operator::ADD));
    assert!(matches!(Operator::parse("-=").unwrap(), Operator::SUB));
    assert!(matches!(Operator::parse("=").unwrap(), Operator::SET));
    assert_eq!(Operator::parse("").unwrap_err(), ValidationError::ParseError);
    assert_eq!(Operator::parse(" =").unwrap_err(), ValidationError::ParseError);
    assert_eq!(Operator::parse("==").unwrap_err(), ValidationError::ParseError);
}

#[test]
fn value_parse_recognizes_booleans_then_numbers_then_strings() {
    assert_eq!(Value::parse("true").unwrap(), Value::Bool(true));
    assert_eq!(Value::parse("false").unwrap(), Value::Bool(false));
    assert_eq!(Value::parse("5").unwrap(), Value::Number(5));
    assert_eq!(Value::parse("-12").unwrap(), Value::Number(-12));
    assert_eq!(
        Value::parse("999999999999999999").unwrap(),
        Value::Number(999999999999999999)
    );
    assert_eq!(Value::parse("5.5").unwrap(), Value::Str("5.5".to_string()));
    assert_eq!(Value::parse("hello").unwrap(), Value::Str("hello".to_string()));
    assert_eq!(Value::parse("").unwrap(), Value::Str("".to_string()));
}

#[test]
fn same_type_excludes_null_and_differing_kinds() {
    assert!(Value::Number(1).same_type(&Value::Number(9)));
    assert!(Value::Bool(true).same_type(&Value::Bool(false)));
    assert!(Value::Str("a".to_string()).same_type(&Value::Str("b".to_string())));
    assert!(!Value::Null.same_type(&Value::Null));
    assert!(!Value::Null.same_type(&Value::Number(0)));
    assert!(!Value::Number(0).same_type(&Value::Str("0".to_string())));
    assert!(!Value::Bool(true).same_type(&Value::Number(1)));
}

#[test]
fn arithmetic_follows_the_documented_permissiveness() {
    let mut v = Value::Number(2);
    v.add_assign(&Value::Number(3));
    assert_eq!(v, Value::Number(5));

    let mut v = Value::Str("x".to_string());
    v.add_assign(&Value::Number(3));
    assert_eq!(v, Value::Str("x".to_string()));

    let mut v = Value::Number(7);
    v.sub_assign(&Value::Number(2));
    assert_eq!(v, Value::Number(5));

    let mut v = Value::Str("x".to_string());
    v.sub_assign(&Value::Number(3));
    assert_eq!(v, Value::Null);
}

#[test]
fn conditional_grammar_is_exactly_four_tokens() {
    assert!(Conditional::parse("if x == 1").is_ok());
    assert_eq!(
        Conditional::parse("x == 1").unwrap_err(),
        ValidationError::ParseError
    );
    assert_eq!(
        Conditional::parse("if x == 1 extra").unwrap_err(),
        ValidationError::ParseError
    );
    assert_eq!(
        Conditional::parse("when x == 1").unwrap_err(),
        ValidationError::ParseError
    );
    assert_eq!(
        Conditional::parse("if x => 1").unwrap_err(),
        ValidationError::ParseError
    );
}

#[test]
fn geq_means_greater_or_equal() {
    let state = vec![("x".to_string(), Value::Number(2))];
    let cond = Conditional::parse("if x >= 2").unwrap();
    assert_eq!(cond.eval(&state).unwrap(), true);
    let cond = Conditional::parse("if x >= 3").unwrap();
    assert_eq!(cond.eval(&state).unwrap(), false);
    let cond = Conditional::parse("if x >= 1").unwrap();
    assert_eq!(cond.eval(&state).unwrap(), true);
}

#[test]
fn ordering_within_one_kind_is_total() {
    let a = Value::Str("apple".to_string());
    let b = Value::Str("apricot".to_string());
    assert_eq!(a.value_lt(&b), true);
    assert_eq!(b.value_lt(&a), false);
    assert_eq!(a.value_eq(&b), false);
    assert_eq!(a.value_eq(&Value::Str("apple".to_string())), true);
    assert_eq!(
        Value::Str("ab".to_string()).value_lt(&Value::Str("abc".to_string())),
        true
    );
    assert_eq!(Value::Bool(false).value_lt(&Value::Bool(true)), true);
    assert_eq!(Value::Bool(true).value_lt(&Value::Bool(false)), false);
    assert_eq!(Value::Number(-3).value_lt(&Value::Number(2)), true);
    // Differing kinds are never ordered, in either direction.
    assert_eq!(Value::Number(1).value_lt(&Value::Str("1".to_string())), false);
    assert_eq!(Value::Str("1".to_string()).value_lt(&Value::Number(1)), false);
    assert_eq!(Value::Null.value_lt(&Value::Null), false);
}

#[test]
fn string_conditions_compare_lexicographically() {
    let state = vec![("name".to_string(), Value::Str("mira".to_string()))];
    let cond = Conditional::parse("if name < sol").unwrap();
    assert_eq!(cond.eval(&state).unwrap(), true);
    let cond = Conditional::parse("if name < ada").unwrap();
    assert_eq!(cond.eval(&state).unwrap(), false);
    let cond = Conditional::parse("if name == mira").unwrap();
    assert_eq!(cond.eval(&state).unwrap(), true);
}

#[test]
fn comparing_differing_kinds_is_refused() {
    let cond = Conditional::parse("if x == 1").unwrap();
    assert_eq!(
        cond.cmp(&Value::Str("1".to_string())).unwrap_err(),
        ValidationError::TypeMismatch
    );
    assert_eq!(cond.cmp(&Value::Null).unwrap_err(), ValidationError::TypeMismatch);
    assert_eq!(cond.cmp(&Value::Number(1)).unwrap(), true);
}

#[test]
fn statemod_grammar_is_exactly_two_tokens() {
    assert!(StateMod::parse("gold +=").is_ok());
    assert_eq!(
        StateMod::parse("gold += 5").unwrap_err(),
        ValidationError::ParseError
    );
    assert_eq!(StateMod::parse("gold").unwrap_err(), ValidationError::ParseError);
    assert_eq!(StateMod::parse("gold %=").unwrap_err(), ValidationError::ParseError);
    let m = StateMod::parse("gold +=").unwrap();
    assert_eq!(m.var, "gold");
    assert!(matches!(m.op, Operator::ADD));
}

#[test]
fn set_add_sub_mutate_the_named_entry() {
    let mut state = vec![
        ("score".to_string(), Value::Number(2)),
        ("name".to_string(), Value::Str("ida".to_string())),
    ];
    let mods = vec![("score +=".to_string(), Value::Number(3))];
    update_state(&mut state, &mods).unwrap();
    assert_eq!(state[0].1, Value::Number(5));
    assert_eq!(state[1].1, Value::Str("ida".to_string()));

    let mut state = vec![("score".to_string(), Value::Str("x".to_string()))];
    let mods = vec![("score +=".to_string(), Value::Number(3))];
    update_state(&mut state, &mods).unwrap();
    assert_eq!(state[0].1, Value::Str("x".to_string()));

    let mut state = vec![("score".to_string(), Value::Number(2))];
    let mods = vec![("score =".to_string(), Value::Str("won".to_string()))];
    update_state(&mut state, &mods).unwrap();
    assert_eq!(state[0].1, Value::Str("won".to_string()));
}
