use libsrl::cell::CellType;
use libsrl::gen::{case, complex, equals_cell, false_cell, scope, simple_by_str, true_cell, var};
use libsrl::misc::{contains_only, contains_some, index_in_len};

#[test]
fn equality_arguments() {
    let e = equals_cell(simple_by_str("a"), var(2));
    let (a, b) = e.get_equals_cell_arguments().unwrap();
    assert_eq!(a, simple_by_str("a"));
    assert_eq!(b, var(2));
    assert!(complex(vec![simple_by_str("+"), var(0), var(1)]).get_equals_cell_arguments().is_err());
    assert!(simple_by_str("=").get_equals_cell_arguments().is_err());
}

#[test]
fn constants_and_types() {
    assert!(true_cell().is_constant());
    assert!(simple_by_str("'x'").is_constant());
    assert!(!simple_by_str("x").is_constant());
    assert!(!simple_by_str("'").is_constant());
    assert_eq!(false_cell().to_string(), "'false'");
    assert_eq!(var(3).get_type(), CellType::Var);
    assert_eq!(scope(0, var(0)).get_type(), CellType::Scope);
    assert_eq!(case(var(0), var(1)).get_type(), CellType::Case);
}

#[test]
fn substitution_and_children() {
    let t = complex(vec![simple_by_str("f"), var(0), scope(1, var(0))]);
    let r = t.replace_all(&var(0), &simple_by_str("c"));
    assert_eq!(r.to_string(), "(f c {1 c})");
    assert_eq!(t.count_subcells(), 3);
    assert_eq!(t.get_subcell(1), var(0));
    assert_eq!(t.with_subcell(simple_by_str("z"), 0).to_string(), "(z 0 {1 0})");
    assert!(t.contains_name("f"));
    assert!(!t.contains_name("c"));
    assert!(t.matches(&t.clone()));
    assert!(!t.matches(&r));
}

#[test]
fn string_helpers() {
    assert!(contains_only("abba".to_string(), "ab".to_string()));
    assert!(!contains_only("abc".to_string(), "ab".to_string()));
    assert!(contains_some("xyz".to_string(), "az".to_string()));
    assert!(!contains_some("xyz".to_string(), "ab".to_string()));
    assert!(index_in_len(2, 3));
    assert!(!index_in_len(3, 3));
}
