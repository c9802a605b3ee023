use protobj::value::InternedString;
use protobj::value::StringRegistry;
use protobj::value::Value;

#[test]
fn nil_and_boolean_predicates() {
    assert!(Value::Nil.is_nil());
    assert!(!Value::Bool(true).is_nil());
    assert!(Value::Bool(false).is_boolean());
    assert!(!Value::Int(0).is_boolean());
}

#[test]
fn truthiness_is_everything_but_false() {
    assert!(!Value::Bool(false).to_bool());
    assert!(Value::Bool(true).to_bool());
    assert!(Value::Nil.to_bool());
    assert!(Value::Int(0).to_bool());
}

#[test]
fn as_int_ok_and_error_message() {
    assert_eq!(Value::Int(42).as_int("op"), Ok(42));
    assert_eq!(
        Value::Nil.as_int("vector-ref"),
        Err("vector-ref: number required".to_string())
    );
}

#[test]
fn as_index_ok_negative_and_wrong_type() {
    assert_eq!(Value::Int(3).as_index("op"), Ok(3usize));
    assert_eq!(
        Value::Int(-1).as_index("op"),
        Err("op: negative vector index".to_string())
    );
    assert_eq!(
        Value::Bool(true).as_index("op"),
        Err("op: vector index required".to_string())
    );
}

#[test]
fn symbol_and_string_accessors() {
    let mut reg = StringRegistry::new();
    let s = InternedString::get(&mut reg, "sym");
    assert!(Value::Symbol(s.clone()).is_symbol());
    assert!(!Value::Symbol(s.clone()).is_string());
    assert!(Value::ImmString(s.clone()).is_string());
    let got = Value::Symbol(s.clone()).as_symbol("want symbol").unwrap();
    assert!(got == s);
    assert_eq!(
        Value::Nil.as_symbol("want symbol"),
        Err("want symbol".to_string())
    );
    let got = Value::ImmString(s.clone()).as_string("want string").unwrap();
    assert!(got == s);
    assert_eq!(
        Value::Int(1).as_string("want string"),
        Err("want string".to_string())
    );
}

#[test]
fn value_equality_is_identity_based_for_names() {
    let mut reg = StringRegistry::new();
    let a1 = InternedString::get(&mut reg, "a");
    let a2 = InternedString::get(&mut reg, "a");
    let g = InternedString::gensym(&mut reg);
    assert_eq!(Value::Symbol(a1.clone()), Value::Symbol(a2.clone()));
    assert_ne!(Value::Symbol(a1.clone()), Value::Symbol(g.clone()));
    assert_eq!(Value::Int(1), Value::Int(1));
    assert_ne!(Value::Int(1), Value::Int(2));
    assert_ne!(Value::Nil, Value::Bool(false));
    assert_ne!(Value::Symbol(a1.clone()), Value::ImmString(a1));
}
