use libsrl::db::Database;
use libsrl::gen::{equals_cell, simple_by_str};
use libsrl::navi::CellID;

#[test]
fn equals_law_impl_substitutes_inside_a_branch() {
    let mut db = Database::by_string("[=> (= p q) (r p)].").unwrap();
    let evi = CellID::create(1, vec![0]);
    let src = CellID::create(1, vec![1, 1]);
    let r = db.equals_law_impl(src, evi).unwrap();
    assert_eq!(r.to_rule_string(), "[=> (= p q) (r q)].");
    assert_eq!(db.count_rules(), 3);
}

#[test]
fn equals_law_impl_needs_a_condition() {
    let mut db = Database::by_string("[=> (= p q) (r p)]. (= p q).").unwrap();
    // The evidence is the conclusion, not the condition.
    assert!(db.equals_law_impl(CellID::create(1, vec![1, 1]), CellID::create(1, vec![1])).is_err());
    // The source lies in another rule.
    assert!(db.equals_law_impl(CellID::create(2, vec![1]), CellID::create(1, vec![0])).is_err());
    assert_eq!(db.count_rules(), 3);
}

#[test]
fn equals_law_failures_leave_the_database() {
    let mut db = Database::by_string("(= x y). p z. = 'false' {0 (= a b)}.").unwrap();
    // The source matches neither side.
    assert!(db.equals_law(CellID::create(2, vec![1]), CellID::create(1, vec![])).is_err());
    // Out of range.
    assert!(db.equals_law(CellID::create(9, vec![]), CellID::create(1, vec![])).is_err());
    assert!(db.equals_law(CellID::create(2, vec![5]), CellID::create(1, vec![])).is_err());
    // The evidence is no equality.
    assert!(db.equals_law(CellID::create(2, vec![1]), CellID::create(2, vec![])).is_err());
    // The evidence sits behind an existential binder.
    assert!(db.equals_law(CellID::create(2, vec![1]), CellID::create(3, vec![2, 0])).is_err());
    assert_eq!(db.count_rules(), 4);
}

#[test]
fn inequal_constants_needs_distinct_constants() {
    let mut db = Database::by_string("= p (= 'x' 'x'). = p (= x 'y').").unwrap();
    assert!(db.inequal_constants(CellID::create(1, vec![2])).is_err());
    assert!(db.inequal_constants(CellID::create(2, vec![2])).is_err());
    assert!(db.inequal_constants(CellID::create(2, vec![1])).is_err());
}

#[test]
fn truth_wraps_need_boolean_slots() {
    let mut db = Database::by_string("p x. (= 'true' a b). (= q x).").unwrap();
    // `x` inside `(p x)` is no boolean slot.
    assert!(db.add_eqt(CellID::create(1, vec![1])).is_err());
    // The parent has three operands after the head.
    assert!(db.rm_eqt(CellID::create(2, vec![2])).is_err());
    // The parent's first operand is not 'true'.
    assert!(db.rm_eqt(CellID::create(3, vec![2])).is_err());
    // A whole rule is always a boolean slot.
    let r = db.add_eqt(CellID::create(1, vec![])).unwrap();
    assert_eq!(r.to_rule_string(), "= 'true' (p x).");
}

#[test]
fn scope_insertion_renumbers_each_copy() {
    let mut db = Database::by_string("{0 (= (f 0) (g 0))}.").unwrap();
    let copy = db.get_rule(0);
    let r = db.scope_insertion(CellID::create(1, vec![]), copy).unwrap();
    assert_eq!(r.to_rule_string(), "= (f {0 (= 0 0)}) (g {1 (= 1 1)}).");
}

#[test]
fn scope_insertion_needs_a_positive_binder() {
    let mut db = Database::by_string("= 'false' {0 (= 0 0)}. {0 wow}. p.").unwrap();
    let c = simple_by_str("c");
    assert!(db.scope_insertion(CellID::create(1, vec![2]), c.clone()).is_err());
    assert!(db.scope_insertion(CellID::create(2, vec![]), c.clone()).is_err());
    assert!(db.scope_insertion(CellID::create(3, vec![]), c).is_err());
}

#[test]
fn scope_creation_checks_its_paths() {
    let mut db = Database::by_string("= 'false' (= x x). = 'false' (= x y). (= x x).").unwrap();
    let r = db.scope_creation(CellID::create(1, vec![2]), vec![vec![1], vec![2]]).unwrap();
    assert_eq!(r.to_rule_string(), "= 'false' {0 (= 0 0)}.");
    // The paths lead to different terms.
    assert!(db.scope_creation(CellID::create(2, vec![2]), vec![vec![1], vec![2]]).is_err());
    // A path out of range.
    assert!(db.scope_creation(CellID::create(2, vec![2]), vec![vec![7]]).is_err());
    // A positive wrapper.
    assert!(db.scope_creation(CellID::create(3, vec![]), vec![vec![1]]).is_err());
}

#[test]
fn implications_derivation_takes_the_shared_conclusion() {
    let mut db = Database::by_string("[=> (= a b) z]. [=> (= 'false' (= a b)) z]. [=> c z].").unwrap();
    let r = db
        .implications_derivation(CellID::create(1, vec![]), CellID::create(2, vec![]))
        .unwrap();
    assert_eq!(r.to_rule_string(), "z.");
    assert!(db
        .implications_derivation(CellID::create(1, vec![]), CellID::create(3, vec![]))
        .is_err());
    assert!(db
        .implications_derivation(CellID::create(2, vec![]), CellID::create(1, vec![]))
        .is_err());
}

#[test]
fn scope_exchange_needs_two_binders() {
    let mut db = Database::by_string("{0 (p 0)}.").unwrap();
    assert!(db.scope_exchange(CellID::create(1, vec![])).is_err());
    assert!(db.scope_exchange(CellID::create(1, vec![0])).is_err());
}

#[test]
fn case_creation_needs_a_positive_wrapper() {
    let mut db = Database::by_string("= 'false' x.").unwrap();
    let c = equals_cell(simple_by_str("'true'"), simple_by_str("x"));
    assert!(db.case_creation(CellID::create(1, vec![2]), c.clone()).is_err());
    let r = db.case_creation(CellID::create(1, vec![]), c).unwrap();
    assert_eq!(r.to_rule_string(), "[=> (= 'true' x) (= 'false' x)].");
}

#[test]
fn declaration_needs_a_fresh_name() {
    let mut db = Database::by_string("= 'false' {0 (= 'false' (p 0))}.").unwrap();
    assert!(db.declaration(CellID::create(1, vec![]), "p").is_err());
    assert!(db.declaration(CellID::create(1, vec![]), "7").is_err());
    assert!(db.declaration(CellID::create(1, vec![2]), "fresh").is_err());
    assert_eq!(db.count_rules(), 2);
}

#[test]
fn equals_law_needs_the_source_inside_the_wrapper() {
    // The evidence `(= a b)` sits under a negation: its wrapper at [2] does
    // not surround the root of another rule.
    let mut db = Database::by_string("= 'false' (= a b). a.").unwrap();
    assert!(db.equals_law(CellID::create(2, vec![]), CellID::create(1, vec![2])).is_err());
    assert_eq!(db.count_rules(), 3);
}
