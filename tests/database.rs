use libsrl::db::Database;
use libsrl::gen::{simple_by_str, try_simple};
use libsrl::navi::CellID;

#[test]
fn database_text_round_trip() {
    let db = Database::by_string("a. (= b c).\n[=> x y].").unwrap();
    assert_eq!(db.count_rules(), 4);
    assert_eq!(db.to_string(), "{0 (= 0 0)}.\na.\n= b c.\n[=> x y].\n");
    // Read back, the text gives the same rules after a second identity rule.
    let again = Database::by_string(&db.to_string()).unwrap();
    assert_eq!(again.get_rules()[1..].to_vec(), db.get_rules());
}

#[test]
fn database_rejects_bad_text() {
    assert!(Database::by_string("a").is_err());
    assert!(Database::by_string("(a b.").is_err());
    assert!(Database::by_string("().").is_err());
    assert!(Database::by_string("{0 (p 1)}.").is_err());
    assert!(Database::by_string("[=> a].").is_err());
    assert!(Database::by_string("{0 {0 x}}.").is_err());
    assert!(Database::by_string("  ").is_ok());
}

#[test]
fn delete_rule_protects_parsed_rules() {
    let mut db = Database::by_string("(= x y). p x.").unwrap();
    assert!(db.delete_rule(0).is_err());
    assert!(db.delete_rule(2).is_err());
    assert!(db.delete_rule(3).is_err());
    db.equals_law(CellID::create(2, vec![1]), CellID::create(1, vec![])).unwrap();
    assert_eq!(db.count_rules(), 4);
    assert_eq!(db.get_rule(3).to_rule_string(), "p y.");
    assert!(db.delete_rule(4).is_err());
    assert!(db.delete_rule(3).is_ok());
    assert_eq!(db.count_rules(), 3);
}

#[test]
fn contains_cellname_searches_every_rule() {
    let db = Database::by_string("(= x y). {0 (p 0 'c')}.").unwrap();
    assert!(db.contains_cellname("p"));
    assert!(db.contains_cellname("'c'"));
    assert!(db.contains_cellname("="));
    assert!(!db.contains_cellname("q"));
}

#[test]
fn names_of_atoms() {
    assert!(try_simple("abc".to_string()).is_ok());
    assert!(try_simple("12".to_string()).is_err());
    assert!(try_simple("a b".to_string()).is_err());
    assert!(try_simple("".to_string()).is_err());
    assert!(try_simple("x.".to_string()).is_err());
    assert_eq!(try_simple("x1".to_string()).unwrap(), simple_by_str("x1"));
}
