//! Polarity and quantifier exposure of a position, walking from the root
//! of its rule down to it.
use vstd::prelude::*;
use crate::term::Term;
use crate::cell::{Cell, child, with_child, is_equals, false_term};
use crate::gen::false_cell;
use crate::navi::{CellPath, valid_path, replace, same_path};

verus! {

/// Walks `p` from `t` with the given polarity and flags. A binder may be
/// crossed into its body: on the positive side that clears `nallq`, on the
/// negative side `nexq`. A branch may be crossed into its conclusion only.
/// A negation `(= 'false' y)` may be crossed into `y`, flipping polarity.
/// Any other step leaves no wrapper.
pub open spec fn walk(t: Term, p: Seq<usize>, pos: bool, nallq: bool, nexq: bool) -> Option<
    (bool, bool, bool),
>
    decreases p.len(),
{
    if p.len() == 0 {
        Some((pos, nallq, nexq))
    } else {
        let i = p[0];
        let rest = p.subrange(1, p.len() as int);
        match t {
            Term::Binder(_, b) => if i == 0 {
                walk(*b, rest, pos, if pos { false } else { nallq }, if pos { nexq } else { false })
            } else {
                None
            },
            Term::Branch(_, d) => if i == 1 {
                walk(*d, rest, pos, nallq, nexq)
            } else {
                None
            },
            Term::Group(cs) => if is_equals(t) && cs[1] == false_term() && i == 2 {
                walk(cs[2], rest, !pos, nallq, nexq)
            } else {
                None
            },
            _ => None,
        }
    }
}

/// Polarity, universal-exposure-free and existential-exposure-free flags
/// of the position `p` in `t`, if it has a wrapper.
pub open spec fn wrapper_of(t: Term, p: Seq<usize>) -> Option<(bool, bool, bool)> {
    walk(t, p, true, true, true)
}

/// The position `p1` in `t1` syntactically surrounds `p2` in `t2`: `p2`
/// extends `p1`, and along `p1` the terms agree once the child taken is
/// blanked.
pub open spec fn around(t1: Term, p1: Seq<usize>, t2: Term, p2: Seq<usize>) -> bool
    decreases p1.len(),
{
    if p1.len() == 0 {
        true
    } else if p2.len() == 0 {
        false
    } else if p1[0] != p2[0] {
        false
    } else if with_child(t1, p1[0] as int, false_term()) != with_child(t2, p1[0] as int, false_term()) {
        false
    } else {
        around(
            child(t1, p1[0] as int),
            p1.subrange(1, p1.len() as int),
            child(t2, p1[0] as int),
            p2.subrange(1, p2.len() as int),
        )
    }
}

/// The wrapper of a position: the position, its polarity, and whether no
/// universal (`nallq`) or existential (`nexq`) binder is exposed above it.
pub struct Wrapper {
    cell_path: CellPath,
    positive: bool,
    nallq: bool,
    nexq: bool,
}

impl View for Wrapper {
    type V = (Term, Seq<usize>, bool, bool, bool);

    closed spec fn view(&self) -> (Term, Seq<usize>, bool, bool, bool) {
        (self.cell_path@.0, self.cell_path@.1, self.positive, self.nallq, self.nexq)
    }
}

impl PartialEq for Wrapper {
    /// Same path, and the same roots once each wrapped subterm is blanked.
    fn eq(&self, wrapper: &Wrapper) -> (r: bool)
        ensures
            r == (self@.1 == wrapper@.1 && replace(self@.0, self@.1, false_term()) == replace(
                wrapper@.0,
                wrapper@.1,
                false_term(),
            )),
    {
        proof {
            use_type_invariant(self);
            use_type_invariant(wrapper);
        }
        if !same_path(&self.cell_path.get_indices(), &wrapper.cell_path.get_indices()) {
            return false;
        }
        let c1 = self.cell_path.replace_by(false_cell());
        let c2 = wrapper.cell_path.replace_by(false_cell());
        c1.matches(&c2)
    }
}

impl vstd::std_specs::cmp::PartialEqSpecImpl for Wrapper {
    open spec fn obeys_eq_spec() -> bool {
        true
    }

    open spec fn eq_spec(&self, wrapper: &Wrapper) -> bool {
        self@.1 == wrapper@.1 && replace(self@.0, self@.1, false_term()) == replace(
            wrapper@.0,
            wrapper@.1,
            false_term(),
        )
    }
}

impl Wrapper {
    #[verifier::type_invariant]
    closed spec fn inv(&self) -> bool {
        self.cell_path.wf()
    }

    pub fn is_positive(&self) -> (r: bool)
        ensures
            r == self@.2,
    {
        self.positive
    }

    pub fn is_nallq(&self) -> (r: bool)
        ensures
            r == self@.3,
    {
        self.nallq
    }

    pub fn is_nexq(&self) -> (r: bool)
        ensures
            r == self@.4,
    {
        self.nexq
    }

    /// This wrapper's position surrounds the position `path`: `path` extends
    /// it, and the terms agree outside the children taken.
    pub fn is_around(&self, path: &CellPath) -> (r: bool)
        requires
            path.wf(),
        ensures
            r == around(self@.0, self@.1, path@.0, path@.1),
    {
        proof {
            use_type_invariant(self);
        }
        let indices1 = self.cell_path.get_indices();
        let indices2 = path.get_indices();
        let mut cell1 = self.cell_path.get_root_cell();
        let mut cell2 = path.get_root_cell();
        let mut i: usize = 0;
        assert(indices1@.subrange(0, indices1@.len() as int) =~= indices1@);
        assert(indices2@.subrange(0, indices2@.len() as int) =~= indices2@);
        while i < indices1.len()
            invariant
                i <= indices1@.len(),
                valid_path(cell1@, indices1@.subrange(i as int, indices1@.len() as int)),
                i <= indices2@.len() ==> valid_path(
                    cell2@,
                    indices2@.subrange(i as int, indices2@.len() as int),
                ),
                i <= indices2@.len(),
                around(self@.0, self@.1, path@.0, path@.1) == around(
                    cell1@,
                    indices1@.subrange(i as int, indices1@.len() as int),
                    cell2@,
                    indices2@.subrange(i as int, indices2@.len() as int),
                ),
            decreases indices1.len() - i,
        {
            let ghost r1 = indices1@.subrange(i as int, indices1@.len() as int);
            let ghost r2 = indices2@.subrange(i as int, indices2@.len() as int);
            if i >= indices2.len() {
                return false;
            }
            let index = indices1[i];
            if index != indices2[i] {
                return false;
            }
            assert(r1.subrange(1, r1.len() as int) =~= indices1@.subrange(i + 1, indices1@.len() as int));
            assert(r2.subrange(1, r2.len() as int) =~= indices2@.subrange(i + 1, indices2@.len() as int));
            if !cell1.with_subcell(false_cell(), index).matches(&cell2.with_subcell(false_cell(), index)) {
                return false;
            }
            cell1 = cell1.get_subcell(index);
            cell2 = cell2.get_subcell(index);
            i += 1;
        }
        true
    }
}

impl CellPath {
    /// The wrapper of this position, if the walk from the root admits one.
    pub fn get_wrapper(&self) -> (r: Option<Wrapper>)
        requires
            self.wf(),
        ensures
            r is Some <==> wrapper_of(self@.0, self@.1) is Some,
            r is Some ==> {
                let w = wrapper_of(self@.0, self@.1).unwrap();
                r->0@ == (self@.0, self@.1, w.0, w.1, w.2)
            },
    {
        let indices = self.get_indices();
        let mut positive: bool = true;
        let mut nallq: bool = true;
        let mut nexq: bool = true;
        let mut cell: Cell = self.get_root_cell();
        let mut i: usize = 0;
        assert(indices@.subrange(0, indices@.len() as int) =~= indices@);
        while i < indices.len()
            invariant
                i <= indices@.len(),
                indices@ == self@.1,
                wrapper_of(self@.0, self@.1) == walk(
                    cell@,
                    indices@.subrange(i as int, indices@.len() as int),
                    positive,
                    nallq,
                    nexq,
                ),
            decreases indices.len() - i,
        {
            let ghost rest = indices@.subrange(i as int, indices@.len() as int);
            assert(rest.subrange(1, rest.len() as int) =~= indices@.subrange(i + 1, indices@.len() as int));
            let index: usize = indices[i];
            match cell {
                Cell::Scope { body, .. } => {
                    if index != 0 {
                        return None;
                    }
                    cell = *body;
                    if positive {
                        nallq = false;
                    } else {
                        nexq = false;
                    }
                },
                Cell::Case { conclusion, .. } => {
                    if index != 1 {
                        return None;
                    }
                    cell = *conclusion;
                },
                Cell::Complex { .. } => {
                    let (x, y) = match cell.get_equals_cell_arguments() {
                        Ok((x, y)) => (x, y),
                        Err(_) => {
                            return None;
                        },
                    };
                    if index == 2 && x.matches(&false_cell()) {
                        cell = y;
                        positive = !positive;
                    } else {
                        return None;
                    }
                },
                _ => {
                    return None;
                },
            }
            i += 1;
        }
        assert(indices@.subrange(i as int, indices@.len() as int) =~= Seq::<usize>::empty());
        Some(Wrapper { cell_path: self.clone(), positive, nallq, nexq })
    }
}

} // verus!
