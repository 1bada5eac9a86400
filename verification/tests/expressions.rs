//! Tests of the condition grammar and its evaluation.

use limitador::expr::{CmpOp, Condition, Context, Descriptor, Entry, Selector};

fn ctx(descriptors: Vec<Vec<(&str, &str)>>) -> Context {
    Context {
        descriptors: descriptors
            .into_iter()
            .map(|entries| Descriptor {
                entries: entries
                    .into_iter()
                    .map(|(k, v)| Entry { key: k.to_string(), value: v.to_string() })
                    .collect(),
            })
            .collect(),
    }
}

#[test]
fn parses_member_access() {
    let c = Condition::parse("descriptors[0].x == '1'").unwrap();
    assert_eq!(c.selector.descriptor_index, 0);
    assert_eq!(c.selector.key, "x");
    assert_eq!(c.op, CmpOp::Equal);
    assert_eq!(c.literal, "1");
}

#[test]
fn parses_quoted_key_and_not_equal() {
    let c = Condition::parse("descriptors[2]['req.method'] != 'GET'").unwrap();
    assert_eq!(c.selector.descriptor_index, 2);
    assert_eq!(c.selector.key, "req.method");
    assert_eq!(c.op, CmpOp::NotEqual);
    assert_eq!(c.literal, "GET");
}

#[test]
fn parses_integer_literal() {
    let c = Condition::parse("descriptors[0].n == 42").unwrap();
    assert_eq!(c.literal, "42");
}

#[test]
fn parses_variable() {
    let v = Selector::parse("  descriptors[1].user  ").unwrap();
    assert_eq!(v.descriptor_index, 1);
    assert_eq!(v.key, "user");
}

#[test]
fn rejects_bad_grammar() {
    assert!(Condition::parse("").is_err());
    assert!(Condition::parse("descriptors[0].x").is_err());
    assert!(Condition::parse("something[0].x == '1'").is_err());
    assert!(Condition::parse("descriptors[].x == '1'").is_err());
    assert!(Condition::parse("descriptors[0].x < '1'").is_err());
    assert!(Condition::parse("descriptors[0].x == '1' trailing").is_err());
    assert!(Condition::parse("descriptors[0]['unclosed == '1'").is_err());
    assert!(Selector::parse("descriptors[0]").is_err());
}

#[test]
fn evaluates_against_the_context() {
    let c = ctx(vec![vec![("x", "1"), ("y", "2")]]);
    let holds = Condition::parse("descriptors[0].x == '1'").unwrap();
    let fails = Condition::parse("descriptors[0].y == '1'").unwrap();
    let negated = Condition::parse("descriptors[0].y != '1'").unwrap();
    assert!(limitador::expr::eval_condition(&c, &holds));
    assert!(!limitador::expr::eval_condition(&c, &fails));
    assert!(limitador::expr::eval_condition(&c, &negated));
}

#[test]
fn missing_key_is_unbound_and_false() {
    let c = ctx(vec![vec![("x", "1")]]);
    let missing_key = Condition::parse("descriptors[0].z == '1'").unwrap();
    let missing_descriptor = Condition::parse("descriptors[7].x == '1'").unwrap();
    // An unbound selector makes a condition false, even a `!=` one.
    let missing_ne = Condition::parse("descriptors[0].z != '1'").unwrap();
    assert!(!limitador::expr::eval_condition(&c, &missing_key));
    assert!(!limitador::expr::eval_condition(&c, &missing_descriptor));
    assert!(!limitador::expr::eval_condition(&c, &missing_ne));

    let sel = Selector::parse("descriptors[0].z").unwrap();
    assert!(limitador::expr::eval_selector(&c, &sel).is_none());
}

#[test]
fn repeated_key_binds_to_its_last_value() {
    let c = ctx(vec![vec![("x", "first"), ("x", "second")]]);
    let sel = Selector::parse("descriptors[0].x").unwrap();
    assert_eq!(limitador::expr::eval_selector(&c, &sel), Some("second".to_string()));
}
