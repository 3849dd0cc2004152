use libsrl::gen::{equals_cell, false_cell, simple_by_str, true_cell};
use libsrl::navi::CellPath;

#[test]
fn test_get_wrapper() {
    let path = match CellPath::create(
        equals_cell(false_cell(), equals_cell(true_cell(), simple_by_str("x"))),
        vec![2],
    ) {
        Ok(x) => x,
        Err(_) => panic!("panic! :/"),
    };

    if let None = path.get_wrapper() {
        assert!(false);
    }
}

#[test]
fn wrapper_flags_follow_binders_and_negations() {
    // {0 (p 0)}: the body lies behind a binder on the positive side.
    let root = libsrl::gen::scope(
        0,
        libsrl::gen::complex(vec![simple_by_str("p"), libsrl::gen::var(0)]),
    );
    let w = CellPath::create(root, vec![0]).unwrap().get_wrapper().unwrap();
    assert!(w.is_positive());
    assert!(!w.is_nallq());
    assert!(w.is_nexq());

    // (= 'false' {0 x}): the binder lies on the negative side.
    let root = equals_cell(false_cell(), libsrl::gen::scope(0, simple_by_str("x")));
    let w = CellPath::create(root, vec![2, 0]).unwrap().get_wrapper().unwrap();
    assert!(!w.is_positive());
    assert!(w.is_nallq());
    assert!(!w.is_nexq());
}

#[test]
fn wrapper_rejects_other_steps() {
    // A branch condition is never in a wrapper; a plain group neither.
    let root = libsrl::gen::case(simple_by_str("c"), simple_by_str("d"));
    assert!(CellPath::create(root.clone(), vec![0]).unwrap().get_wrapper().is_none());
    assert!(CellPath::create(root, vec![1]).unwrap().get_wrapper().is_some());
    let group = libsrl::gen::complex(vec![simple_by_str("p"), simple_by_str("q")]);
    assert!(CellPath::create(group, vec![1]).unwrap().get_wrapper().is_none());
}

#[test]
fn wrapper_is_around_compares_outside_the_hole() {
    let a = equals_cell(false_cell(), equals_cell(simple_by_str("u"), simple_by_str("v")));
    let b = equals_cell(false_cell(), equals_cell(simple_by_str("w"), simple_by_str("z")));
    let w = CellPath::create(a.clone(), vec![2]).unwrap().get_wrapper().unwrap();
    assert!(w.is_around(&CellPath::create(b.clone(), vec![2, 1]).unwrap()));
    let c = equals_cell(simple_by_str("other"), simple_by_str("v"));
    assert!(!w.is_around(&CellPath::create(c, vec![2]).unwrap()));
    let w2 = CellPath::create(b, vec![2]).unwrap().get_wrapper().unwrap();
    assert!(w == w2);
}

#[test]
fn wrapper_is_not_around_a_shorter_path() {
    let a = equals_cell(false_cell(), equals_cell(simple_by_str("u"), simple_by_str("v")));
    let w = CellPath::create(a.clone(), vec![2]).unwrap().get_wrapper().unwrap();
    assert!(!w.is_around(&CellPath::create(a.clone(), vec![]).unwrap()));
    assert!(w.is_around(&CellPath::create(a, vec![2]).unwrap()));
}
