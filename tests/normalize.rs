use libsrl::gen::{complex, scope, simple_by_str, var};

#[test]
fn test_get_normalized() {
    if let Ok(_) = complex(vec![var(0), scope(0, simple_by_str("ok"))]).get_normalized() {
        panic!("test_get_normalized(): should not accept (0)");
    }
    if let Ok(_) = complex(vec![scope(0, simple_by_str("ok")), var(0)]).get_normalized() {
        panic!("test_get_normalized(): should not accept (1)");
    }
    if let Ok(_) = scope(0, scope(0, simple_by_str("wow"))).get_normalized() {
        panic!("test_get_normalized(): should not accept (2)");
    }
    assert_eq!(
        scope(0, scope(1, var(1))).to_string(),
        scope(1, scope(2, var(2))).get_normalized().unwrap().to_string()
    );
}

#[test]
fn normalization_is_idempotent() {
    let t = complex(vec![
        scope(7, complex(vec![simple_by_str("p"), var(7)])),
        scope(3, scope(9, complex(vec![var(9), var(3)]))),
    ]);
    let once = t.get_normalized().unwrap();
    let twice = once.get_normalized().unwrap();
    assert_eq!(once, twice);
    assert_eq!(once.to_string(), "({0 (p 0)} {1 {2 (2 1)}})");
}

#[test]
fn normalization_is_alpha_invariant() {
    let a = scope(3, scope(5, complex(vec![var(5), var(3)])));
    let b = scope(40, scope(2, complex(vec![var(2), var(40)])));
    assert_eq!(a.get_normalized().unwrap(), b.get_normalized().unwrap());
}

#[test]
fn normalization_rejects_reuse_in_siblings() {
    // The raw id stays taken after its binder closes.
    let t = complex(vec![scope(1, simple_by_str("a")), scope(1, simple_by_str("b"))]);
    assert!(t.get_normalized().is_err());
}

#[test]
fn normalization_rejects_unbound_references() {
    assert!(var(3).get_normalized().is_err());
    let nested = scope(0, complex(vec![scope(1, simple_by_str("x")), var(1)]));
    assert!(nested.get_normalized().is_err());
    // A reference escaping after a nested binder has closed.
    let after = complex(vec![scope(0, scope(1, simple_by_str("x"))), var(0)]);
    assert!(after.get_normalized().is_err());
}

#[test]
fn normalization_from_an_offset() {
    let t = scope(4, complex(vec![simple_by_str("p"), var(4)]));
    assert_eq!(t.get_normalized_from(5).unwrap().to_string(), "{5 (p 5)}");
}

#[test]
fn next_id_is_highest_plus_one() {
    assert_eq!(complex(vec![simple_by_str("p"), var(8)]).get_next_id(), 0);
    assert_eq!(simple_by_str("x").get_next_id(), 0);
    let t = complex(vec![scope(4, scope(2, var(2))), scope(1, var(1))]);
    assert_eq!(t.get_next_id(), 5);
    assert_eq!(scope(0, var(0)).get_next_id(), 1);
}
