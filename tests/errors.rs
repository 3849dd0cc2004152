use libsrl::db::Database;
use libsrl::error::SRLError;
use libsrl::navi::CellID;

#[test]
fn error_text_lists_frames_in_order() {
    let mut e = SRLError::new("here", 3, "bad".to_string());
    assert_eq!(e.to_string(), "\nERR(here:3 \"bad\")\n");
    e.add_outer(SRLError::new("outer", 12, String::new()));
    assert_eq!(e.to_string(), "\nERR(here:3 \"bad\")\nERR(outer:12)\n");
}

#[test]
fn forwarded_failures_gain_a_frame() {
    let mut db = Database::by_string("(= x y). p x.").unwrap();
    let e = db
        .equals_law(CellID::create(9, vec![]), CellID::create(1, vec![]))
        .unwrap_err();
    assert_eq!(
        e.to_string(),
        "\nERR(CellID::get_path:0 \"index of rule_id out of range\")\nERR(equals_law:0)\n"
    );
    assert_eq!(db.count_rules(), 3);
}
