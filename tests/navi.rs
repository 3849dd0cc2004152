use libsrl::cell::{Cell, CellType};
use libsrl::gen::{complex, scope, simple_by_str, var};
use libsrl::navi::{CellID, CellPath};

#[test]
fn test_cell_id_and_cell_path() {
    let mut rules: Vec<Cell> = Vec::new();
    rules.push(simple_by_str("truth"));
    rules.push(complex(vec![simple_by_str("truth"), simple_by_str("wot")]));

    assert_eq!(
        CellPath::create(rules[0].clone(), Vec::new()).unwrap().get_cell(),
        simple_by_str("truth")
    );

    assert_eq!(
        CellPath::create(rules[1].clone(), vec![0]).unwrap().get_cell(),
        simple_by_str("truth")
    );

    assert_eq!(
        CellPath::create(rules[1].clone(), vec![1]).unwrap().get_cell(),
        simple_by_str("wot")
    );
}

#[test]
fn test_cell_path_replace_by() {
    let mut rules: Vec<Cell> = Vec::new();
    rules.push(simple_by_str("truth"));
    rules.push(complex(vec![simple_by_str("truth"), simple_by_str("wot")]));

    assert_eq!(
        CellPath::create(rules[1].clone(), vec![1]).unwrap().replace_by(simple_by_str("wow")),
        complex(vec![simple_by_str("truth"), simple_by_str("wow")])
    );
}

#[test]
fn replace_then_read_gives_the_new_term() {
    let root = complex(vec![
        simple_by_str("f"),
        scope(0, complex(vec![simple_by_str("g"), var(0), simple_by_str("h")])),
    ]);
    let path = CellPath::create(root.clone(), vec![1, 0, 2]).unwrap();
    let new_root = path.replace_by(simple_by_str("k"));
    let again = CellPath::create(new_root, vec![1, 0, 2]).unwrap();
    assert_eq!(again.get_cell(), simple_by_str("k"));
    assert_eq!(root.to_string(), "(f {0 (g 0 h)})");
    assert_eq!(again.get_root_cell().to_string(), "(f {0 (g 0 k)})");
}

#[test]
fn cell_path_rejects_bad_indices() {
    let root = complex(vec![simple_by_str("f"), var(3)]);
    assert!(CellPath::create(root.clone(), vec![2]).is_err());
    assert!(CellPath::create(root.clone(), vec![1, 0]).is_err());
    assert!(CellPath::create(scope(0, var(0)), vec![1]).is_err());
    assert!(CellPath::create(root, vec![1]).is_ok());
}

#[test]
fn cell_path_walks_between_positions() {
    let root = complex(vec![simple_by_str("a"), simple_by_str("b"), simple_by_str("c")]);
    let p = CellPath::create(root, vec![1]).unwrap();
    assert_eq!(p.get_left_sibling().unwrap().get_cell(), simple_by_str("a"));
    assert_eq!(p.get_right_sibling().unwrap().get_cell(), simple_by_str("c"));
    let last = p.get_right_sibling().unwrap();
    assert!(last.get_right_sibling().is_err());
    let first = p.get_left_sibling().unwrap();
    assert!(first.get_left_sibling().is_err());
    let parent = p.get_parent().unwrap();
    assert!(parent.get_indices().is_empty());
    assert!(parent.get_parent().is_err());
    assert_eq!(parent.get_type(), CellType::Complex);
    assert_eq!(p.get_type(), CellType::Simple);
    assert!(parent.get_child(3).is_err());
    assert_eq!(parent.get_child(2).unwrap().get_cell(), simple_by_str("c"));
}

#[test]
fn boolean_slots() {
    // {0 wow}: the body of a binder is a boolean slot, though `wow` is no
    // full boolean term.
    let root = scope(0, simple_by_str("wow"));
    let body = CellPath::create(root.clone(), vec![0]).unwrap();
    assert!(!body.is_complete_bool());
    assert!(body.is_bool());
    assert!(CellPath::create(root, vec![]).unwrap().is_complete_bool());
    let group = complex(vec![simple_by_str("p"), simple_by_str("'true'"), simple_by_str("x")]);
    assert!(CellPath::create(group.clone(), vec![1]).unwrap().is_complete_bool());
    assert!(!CellPath::create(group.clone(), vec![2]).unwrap().is_bool());
    assert!(CellPath::create(group, vec![]).unwrap().is_bool());
}

#[test]
fn cell_id_arithmetic() {
    let id = CellID::create(2, vec![0, 3]);
    assert_eq!(id.get_rule_id(), 2);
    assert_eq!(id.get_parent().unwrap().get_indices(), vec![0]);
    assert_eq!(id.get_child(5).unwrap().get_indices(), vec![0, 3, 5]);
    assert_eq!(id.get_left_sibling().unwrap().get_indices(), vec![0, 2]);
    assert_eq!(id.get_right_sibling().unwrap().get_indices(), vec![0, 4]);
    let root = CellID::create(1, vec![]);
    assert!(root.get_parent().is_err());
    assert!(root.get_left_sibling().is_err());
    assert!(root.get_right_sibling().is_err());
    assert!(CellID::create(1, vec![0]).get_left_sibling().is_err());
    let rules = vec![simple_by_str("a"), scope(0, var(0))];
    assert!(CellID::create(1, vec![0]).is_valid(&rules));
    assert!(!CellID::create(1, vec![1]).is_valid(&rules));
    assert!(!CellID::create(2, vec![]).is_valid(&rules));
    assert_eq!(CellID::create(1, vec![0]).get_path(&rules).unwrap().get_cell(), var(0));
}

#[test]
fn handles_compare_by_rule_and_path() {
    assert!(CellID::create(1, vec![0, 2]) == CellID::create(1, vec![0, 2]));
    assert!(CellID::create(1, vec![0, 2]) != CellID::create(2, vec![0, 2]));
    assert!(CellID::create(1, vec![0]) != CellID::create(1, vec![0, 2]));
    let root = complex(vec![simple_by_str("a"), var(0)]);
    let p = CellPath::create(root.clone(), vec![1]).unwrap();
    assert!(p == CellPath::create(root.clone(), vec![1]).unwrap());
    assert!(p != CellPath::create(root, vec![0]).unwrap());
}
