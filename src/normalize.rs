//! Binder normalization: canonical binder ids, with detection of id reuse
//! and of references that escape their binder.
use vstd::prelude::*;
use crate::cell::Cell;
use crate::error::{SRLResult, fail};
use crate::gen::{complex, scope, case};
use crate::term::{Term, lemma_group_view, view_cells};

verus! {

broadcast use crate::term::lemma_view_cells;

/// Index of the first occurrence of `id` in `ids`, or -1.
pub open spec fn position(ids: Seq<u32>, id: u32) -> int
    decreases ids.len(),
{
    if ids.len() == 0 {
        -1
    } else {
        let p = position(ids.subrange(0, ids.len() - 1), id);
        if p >= 0 {
            p
        } else if ids[ids.len() - 1] == id {
            ids.len() - 1
        } else {
            -1
        }
    }
}

/// The walk state: raw binder ids seen so far, and whether each is open.
pub type Scopes = (Seq<u32>, Seq<bool>);

/// Normalizes `t` in state `st`, numbering binders from `from`: the new term
/// and the new state, or `None` on id reuse, on a reference to no open
/// binder, or where an id would not fit in `u32`.
pub open spec fn norm_r(t: Term, st: Scopes, from: u32) -> Option<(Term, Scopes)>
    decreases t,
{
    match t {
        Term::Atom(_) => Some((t, st)),
        Term::Ref(id) => {
            let p = position(st.0, id);
            if p >= 0 && p < st.1.len() && st.1[p] && p + from <= u32::MAX {
                Some((Term::Ref((p + from) as u32), st))
            } else {
                None
            }
        },
        Term::Binder(id, b) => {
            let k = st.0.len();
            if position(st.0, id) >= 0 || k + from > u32::MAX {
                None
            } else {
                match norm_r(*b, (st.0.push(id), st.1.push(true)), from) {
                    Some((b2, st2)) => Some(
                        (
                            Term::Binder((k + from) as u32, Box::new(b2)),
                            (st2.0, st2.1.update(k as int, false)),
                        ),
                    ),
                    None => None,
                }
            }
        },
        Term::Group(cs) => match norm_seq(cs, st, from) {
            Some((cs2, st2)) => Some((Term::Group(cs2), st2)),
            None => None,
        },
        Term::Branch(c, d) => match norm_r(*c, st, from) {
            Some((c2, st1)) => match norm_r(*d, st1, from) {
                Some((d2, st2)) => Some((Term::Branch(Box::new(c2), Box::new(d2)), st2)),
                None => None,
            },
            None => None,
        },
    }
}

/// Normalizes the terms of `cs` left to right, threading the state.
pub open spec fn norm_seq(cs: Seq<Term>, st: Scopes, from: u32) -> Option<(Seq<Term>, Scopes)>
    decreases cs,
{
    if cs.len() == 0 {
        Some((Seq::empty(), st))
    } else {
        match norm_seq(cs.subrange(0, cs.len() - 1), st, from) {
            Some((pre, st1)) => match norm_r(cs[cs.len() - 1], st1, from) {
                Some((x, st2)) => Some((pre.push(x), st2)),
                None => None,
            },
            None => None,
        }
    }
}

/// The normal form of `t` with binder ids counted from `from`.
pub open spec fn normalize(t: Term, from: u32) -> Option<Term> {
    match norm_r(t, (seq![], seq![]), from) {
        Some((t2, _)) => Some(t2),
        None => None,
    }
}

/// One more than the highest binder id in `t`, or 0 without binders.
pub open spec fn next_id(t: Term) -> nat
    decreases t,
{
    match t {
        Term::Binder(id, b) => if id + 1 > next_id(*b) {
            (id + 1) as nat
        } else {
            next_id(*b)
        },
        Term::Group(cs) => next_id_seq(cs),
        Term::Branch(c, d) => if next_id(*c) > next_id(*d) {
            next_id(*c)
        } else {
            next_id(*d)
        },
        _ => 0,
    }
}

pub open spec fn next_id_seq(cs: Seq<Term>) -> nat
    decreases cs,
{
    if cs.len() == 0 {
        0
    } else {
        let a = next_id_seq(cs.subrange(0, cs.len() - 1));
        let b = next_id(cs[cs.len() - 1]);
        if a > b {
            a
        } else {
            b
        }
    }
}

/// A position found in a prefix is the position in the whole sequence.
pub proof fn lemma_position_prefix(ids: Seq<u32>, id: u32, k: int)
    requires
        0 <= k <= ids.len(),
        position(ids.subrange(0, k), id) >= 0,
    ensures
        position(ids, id) == position(ids.subrange(0, k), id),
    decreases ids.len() - k,
{
    if k < ids.len() {
        assert(ids.subrange(0, k + 1).subrange(0, k) =~= ids.subrange(0, k));
        lemma_position_prefix(ids, id, k + 1);
    } else {
        assert(ids.subrange(0, k) =~= ids);
    }
}

/// The position of `id`, if any, as an index.
fn position_of(ids: &Vec<u32>, id: u32) -> (r: Option<usize>)
    ensures
        r is Some <==> position(ids@, id) >= 0,
        r is Some ==> r->0 == position(ids@, id),
{
    let mut i: usize = 0;
    while i < ids.len()
        invariant
            i <= ids@.len(),
            position(ids@.subrange(0, i as int), id) == -1,
        decreases ids.len() - i,
    {
        assert(ids@.subrange(0, i + 1).subrange(0, i as int) =~= ids@.subrange(0, i as int));
        if ids[i] == id {
            proof {
                lemma_position_prefix(ids@, id, i + 1);
            }
            return Some(i);
        }
        i += 1;
    }
    assert(ids@.subrange(0, i as int) =~= ids@);
    None
}

/// The canonical index of the open binder `old_id` refers to.
fn get_new_id(old_id: u32, scope_ids: &Vec<u32>, in_scope_vec: &Vec<bool>) -> (r: SRLResult<u32>)
    ensures
        r is Ok <==> {
            let p = position(scope_ids@, old_id);
            p >= 0 && p < in_scope_vec@.len() && in_scope_vec@[p] && p <= u32::MAX
        },
        r is Ok ==> r->Ok_0 == position(scope_ids@, old_id),
{
    match position_of(scope_ids, old_id) {
        Some(index) => {
            if index >= in_scope_vec.len() || !in_scope_vec[index] {
                fail("get_new_id", "already out of scope")
            } else if index > 0xffff_ffff {
                fail("get_new_id", "index out of range")
            } else {
                Ok(index as u32)
            }
        },
        None => fail("get_new_id", "id is not in scope"),
    }
}

/// Normalization of a prefix fails implies normalization of the sequence fails.
pub proof fn lemma_norm_seq_prefix_fails(cs: Seq<Term>, st: Scopes, from: u32, k: int)
    requires
        0 <= k <= cs.len(),
        norm_seq(cs.subrange(0, k), st, from) is None,
    ensures
        norm_seq(cs, st, from) is None,
    decreases cs.len() - k,
{
    if k < cs.len() {
        assert(cs.subrange(0, k + 1).subrange(0, k) =~= cs.subrange(0, k));
        lemma_norm_seq_prefix_fails(cs, st, from, k + 1);
    } else {
        assert(cs.subrange(0, k) =~= cs);
    }
}

/// The state after a successful walk.
pub open spec fn norm_state(r: Option<(Term, Scopes)>) -> Scopes {
    r.unwrap().1
}

/// What normalization does to the state: the old entries and their flags
/// stay, the entries it adds are all closed, and both lists keep one length.
pub open spec fn state_grows(st: Scopes, st2: Scopes) -> bool {
    &&& st2.0.len() == st2.1.len()
    &&& st2.0.len() >= st.0.len()
    &&& st2.0.subrange(0, st.0.len() as int) == st.0
    &&& st2.1.subrange(0, st.1.len() as int) == st.1
    &&& forall|j: int| st.1.len() <= j < st2.1.len() ==> !#[trigger] st2.1[j]
}

pub proof fn lemma_norm_state(t: Term, st: Scopes, from: u32)
    requires
        st.0.len() == st.1.len(),
    ensures
        norm_r(t, st, from) is Some ==> state_grows(st, norm_state(norm_r(t, st, from))),
    decreases t,
{
    if let Term::Binder(id, b) = t {
        let k: int = st.0.len() as int;
        let st1 = (st.0.push(id), st.1.push(true));
        lemma_norm_state(*b, st1, from);
        if let Some((_, st2)) = norm_r(*b, st1, from) {
            assert(st2.0.subrange(0, k) =~= st2.0.subrange(0, k + 1).subrange(0, k));
            assert(st2.1.subrange(0, k) =~= st2.1.subrange(0, k + 1).subrange(0, k));
            assert(st.0.push(id).subrange(0, k) =~= st.0);
            assert(st.1.push(true).subrange(0, k) =~= st.1);
            let o = st2.1.update(k, false);
            assert(o.subrange(0, k) =~= st2.1.subrange(0, k));
            assert(st2.0.subrange(0, k) =~= st.0);
            assert(o.subrange(0, k) =~= st.1);
            assert forall|j: int| st.1.len() <= j < o.len() implies !#[trigger] o[j] by {
                if j > k {
                    assert(!st2.1[j]);
                }
            }
            assert(state_grows(st, (st2.0, o)));
        }
    } else if let Term::Group(cs) = t {
        lemma_norm_seq_state(cs, st, from);
    } else if let Term::Branch(c, d) = t {
        lemma_norm_state(*c, st, from);
        if let Some((_, st1)) = norm_r(*c, st, from) {
            lemma_norm_state(*d, st1, from);
            if let Some((_, st2)) = norm_r(*d, st1, from) {
                lemma_state_grows_trans(st, st1, st2);
            }
        }
    } else {
        assert(st.0.subrange(0, st.0.len() as int) =~= st.0);
        assert(st.1.subrange(0, st.1.len() as int) =~= st.1);
    }
}

pub proof fn lemma_norm_seq_state(cs: Seq<Term>, st: Scopes, from: u32)
    requires
        st.0.len() == st.1.len(),
    ensures
        norm_seq(cs, st, from) is Some ==> state_grows(st, norm_seq(cs, st, from).unwrap().1)
            && norm_seq(cs, st, from).unwrap().0.len() == cs.len(),
    decreases cs,
{
    if cs.len() > 0 {
        let pre = cs.subrange(0, cs.len() - 1);
        lemma_norm_seq_state(pre, st, from);
        if let Some((_, st1)) = norm_seq(pre, st, from) {
            lemma_norm_state(cs[cs.len() - 1], st1, from);
            if let Some((_, st2)) = norm_r(cs[cs.len() - 1], st1, from) {
                lemma_state_grows_trans(st, st1, st2);
            }
        }
    } else {
        assert(st.0.subrange(0, st.0.len() as int) =~= st.0);
        assert(st.1.subrange(0, st.1.len() as int) =~= st.1);
    }
}

pub proof fn lemma_state_grows_trans(a: Scopes, b: Scopes, c: Scopes)
    requires
        a.0.len() == a.1.len(),
        state_grows(a, b),
        state_grows(b, c),
    ensures
        state_grows(a, c),
{
    assert(c.0.subrange(0, a.0.len() as int) =~= c.0.subrange(0, b.0.len() as int).subrange(
        0,
        a.0.len() as int,
    ));
    assert(c.1.subrange(0, a.1.len() as int) =~= c.1.subrange(0, b.1.len() as int).subrange(
        0,
        a.1.len() as int,
    ));
    assert forall|j: int| a.1.len() <= j < c.1.len() implies !#[trigger] c.1[j] by {
        if j < b.1.len() {
            assert(c.1[j] == c.1.subrange(0, b.1.len() as int)[j]);
        }
    }
}

impl Cell {
    /// The normal form of this term, binder ids counted from 0.
    pub fn get_normalized(&self) -> (r: SRLResult<Cell>)
        ensures
            r is Ok <==> normalize(self@, 0) is Some,
            r is Ok ==> r->Ok_0@ == normalize(self@, 0)->0,
    {
        self.get_normalized_from(0)
    }

    /// The normal form of this term, binder ids counted from `from`.
    pub fn get_normalized_from(&self, from: u32) -> (r: SRLResult<Cell>)
        ensures
            r is Ok <==> normalize(self@, from) is Some,
            r is Ok ==> r->Ok_0@ == normalize(self@, from)->0,
    {
        let mut ids: Vec<u32> = Vec::new();
        let mut open: Vec<bool> = Vec::new();
        self.get_normalized_from_r(&mut ids, &mut open, from)
    }

    fn get_normalized_from_r(&self, vec: &mut Vec<u32>, in_scope_vec: &mut Vec<bool>, from: u32) -> (r:
        SRLResult<Cell>)
        requires
            old(vec)@.len() == old(in_scope_vec)@.len(),
        ensures
            r is Ok <==> norm_r(self@, (old(vec)@, old(in_scope_vec)@), from) is Some,
            r is Ok ==> {
                let (t, st) = norm_r(self@, (old(vec)@, old(in_scope_vec)@), from)->0;
                &&& r->Ok_0@ == t
                &&& final(vec)@ == st.0
                &&& final(in_scope_vec)@ == st.1
            },
        decreases self,
    {
        proof {
            lemma_norm_state(self@, (vec@, in_scope_vec@), from);
        }
        match self {
            Cell::Simple { .. } => Ok(self.clone()),
            Cell::Complex { cells } => {
                proof {
                    lemma_group_view(*self);
                }
                let ghost cs = self@->Group_0;
                let ghost st0: Scopes = (vec@, in_scope_vec@);
                let mut new_cells: Vec<Cell> = Vec::new();
                let mut i: usize = 0;
                while i < cells.len()
                    invariant
                        *self is Complex,
                        self->cells == *cells,
                        i <= cells.len(),
                        cs.len() == cells@.len(),
                        self@ == Term::Group(cs),
                        st0 == (old(vec)@, old(in_scope_vec)@),
                        forall|j: int| 0 <= j < cells@.len() ==> #[trigger] cs[j] == cells@[j]@,
                        st0.0.len() == st0.1.len(),
                        vec@.len() == in_scope_vec@.len(),
                        norm_seq(cs.subrange(0, i as int), st0, from) == Some(
                            (view_cells(new_cells@), (vec@, in_scope_vec@)),
                        ),
                    decreases cells.len() - i,
                {
                    proof {
                        crate::cell::lemma_child_decreases(*self, i as int);
                        assert(cs.subrange(0, i + 1).subrange(0, i as int) =~= cs.subrange(0, i as int));
                        assert(cs.subrange(0, i + 1)[i as int] == cs[i as int]);
                        lemma_norm_state(cs[i as int], (vec@, in_scope_vec@), from);
                    }
                    let ghost new_before = new_cells@;
                    let ghost st_i: Scopes = (vec@, in_scope_vec@);
                    match cells[i].get_normalized_from_r(vec, in_scope_vec, from) {
                        Ok(norm) => {
                            new_cells.push(norm);
                            proof {
                                assert(new_cells@.subrange(0, new_cells@.len() - 1) =~= new_before);
                            }
                        },
                        Err(e) => {
                            proof {
                                assert(norm_r(cs[i as int], st_i, from) is None);
                                assert(norm_seq(cs.subrange(0, i + 1), st0, from) is None);
                                lemma_norm_seq_prefix_fails(cs, st0, from, i + 1);
                            }
                            return Err(e);
                        },
                    }
                    i += 1;
                }
                assert(cs.subrange(0, i as int) =~= cs);
                Ok(complex(new_cells))
            },
            Cell::Scope { id, body } => {
                if position_of(vec, *id).is_some() {
                    return fail("get_normalized_from_r", "id used twice");
                }
                let k = vec.len();
                if k > 0xffff_ffff || k as u64 + from as u64 > 0xffff_ffff {
                    return fail("get_normalized_from_r", "too many binders");
                }
                vec.push(*id);
                in_scope_vec.push(true);
                let new_id = k as u32 + from;
                let new_body = match (**body).get_normalized_from_r(vec, in_scope_vec, from) {
                    Ok(b) => b,
                    Err(e) => {
                        return Err(e);
                    },
                };
                proof {
                    lemma_norm_state(
                        (**body)@,
                        (old(vec)@.push(*id), old(in_scope_vec)@.push(true)),
                        from,
                    );
                }
                in_scope_vec.set(k, false);
                Ok(scope(new_id, new_body))
            },
            Cell::Var { id } => {
                match get_new_id(*id, vec, in_scope_vec) {
                    Ok(new_id) => {
                        if new_id as u64 + from as u64 > 0xffff_ffff {
                            return fail("get_normalized_from_r", "id out of range");
                        }
                        Ok(Cell::Var { id: new_id + from })
                    },
                    Err(e) => Err(e),
                }
            },
            Cell::Case { condition, conclusion } => {
                let condition_new = match (**condition).get_normalized_from_r(vec, in_scope_vec, from) {
                    Ok(c) => c,
                    Err(e) => {
                        return Err(e);
                    },
                };
                proof {
                    lemma_norm_state((**condition)@, (old(vec)@, old(in_scope_vec)@), from);
                }
                let conclusion_new = match (**conclusion).get_normalized_from_r(vec, in_scope_vec, from) {
                    Ok(c) => c,
                    Err(e) => {
                        return Err(e);
                    },
                };
                Ok(case(condition_new, conclusion_new))
            },
        }
    }

    /// One more than the highest binder id in this term, or 0 without
    /// binders; ids from there on are fresh.
    pub fn get_next_id(&self) -> (r: u64)
        ensures
            r == next_id(self@),
        decreases self,
    {
        proof {
            lemma_next_id_bound(self@);
        }
        match self {
            Cell::Scope { id, body } => {
                let n = (**body).get_next_id();
                if *id as u64 + 1 > n {
                    *id as u64 + 1
                } else {
                    n
                }
            },
            Cell::Complex { cells } => {
                proof {
                    lemma_group_view(*self);
                }
                let ghost cs = self@->Group_0;
                let mut acc: u64 = 0;
                let mut i: usize = 0;
                while i < cells.len()
                    invariant
                        *self is Complex,
                        self->cells == *cells,
                        i <= cells.len(),
                        cs.len() == cells@.len(),
                        forall|j: int| 0 <= j < cells@.len() ==> #[trigger] cs[j] == cells@[j]@,
                        acc == next_id_seq(cs.subrange(0, i as int)),
                    decreases cells.len() - i,
                {
                    proof {
                        crate::cell::lemma_child_decreases(*self, i as int);
                        assert(cs.subrange(0, i + 1).subrange(0, i as int) =~= cs.subrange(0, i as int));
                        assert(cs.subrange(0, i + 1)[i as int] == cs[i as int]);
                    }
                    let n = cells[i].get_next_id();
                    if n > acc {
                        acc = n;
                    }
                    i += 1;
                }
                assert(cs.subrange(0, i as int) =~= cs);
                acc
            },
            Cell::Case { condition, conclusion } => {
                let a = (**condition).get_next_id();
                let b = (**conclusion).get_next_id();
                if a > b {
                    a
                } else {
                    b
                }
            },
            _ => 0,
        }
    }
}

/// Binder ids are `u32`, so the next id is at most 2^32.
pub proof fn lemma_next_id_bound(t: Term)
    ensures
        next_id(t) <= u32::MAX + 1,
    decreases t,
{
    match t {
        Term::Binder(_, b) => lemma_next_id_bound(*b),
        Term::Group(cs) => lemma_next_id_seq_bound(cs),
        Term::Branch(c, d) => {
            lemma_next_id_bound(*c);
            lemma_next_id_bound(*d);
        },
        _ => {},
    }
}

pub proof fn lemma_next_id_seq_bound(cs: Seq<Term>)
    ensures
        next_id_seq(cs) <= u32::MAX + 1,
    decreases cs,
{
    if cs.len() > 0 {
        lemma_next_id_seq_bound(cs.subrange(0, cs.len() - 1));
        lemma_next_id_bound(cs[cs.len() - 1]);
    }
}

/// `ids` holds `id` at the position found, which lies inside `ids`.
pub proof fn lemma_position_bounds(ids: Seq<u32>, id: u32)
    ensures
        -1 <= position(ids, id) < ids.len(),
        position(ids, id) >= 0 ==> ids[position(ids, id)] == id,
        position(ids, id) == -1 ==> forall|i: int| 0 <= i < ids.len() ==> ids[i] != id,
    decreases ids.len(),
{
    if ids.len() > 0 {
        let pre = ids.subrange(0, ids.len() - 1);
        lemma_position_bounds(pre, id);
        if position(pre, id) >= 0 {
            assert(pre[position(pre, id)] == ids[position(pre, id)]);
        } else {
            assert forall|i: int| 0 <= i < ids.len() - 1 implies ids[i] != id by {
                assert(pre[i] == ids[i]);
            }
        }
    }
}

/// The canonical ids `0, 1, ..., n - 1`.
pub open spec fn canon(n: nat) -> Seq<u32> {
    Seq::new(n, |i: int| i as u32)
}

proof fn lemma_position_canon_miss(n: nat, x: u32)
    requires
        n <= x,
    ensures
        position(canon(n), x) == -1,
    decreases n,
{
    if n > 0 {
        assert(canon(n).subrange(0, n - 1) =~= canon((n - 1) as nat));
        lemma_position_canon_miss((n - 1) as nat, x);
    }
}

proof fn lemma_position_canon_hit(n: nat, x: u32)
    requires
        x < n,
    ensures
        position(canon(n), x) == x,
    decreases n,
{
    assert(canon(n).subrange(0, n - 1) =~= canon((n - 1) as nat));
    if x < n - 1 {
        lemma_position_canon_hit((n - 1) as nat, x);
    } else {
        lemma_position_canon_miss((n - 1) as nat, x);
    }
}

/// Walking a normal form again, over the canonical ids of the first walk,
/// gives the same term and the same flags.
proof fn lemma_idem(t: Term, st: Scopes)
    requires
        st.0.len() == st.1.len(),
        norm_r(t, st, 0) is Some,
    ensures
        ({
            let (t2, st2) = norm_r(t, st, 0).unwrap();
            norm_r(t2, (canon(st.0.len()), st.1), 0) == Some((t2, (canon(st2.0.len()), st2.1)))
        }),
    decreases t,
{
    lemma_norm_state(t, st, 0);
    match t {
        Term::Ref(id) => {
            lemma_position_bounds(st.0, id);
            let p = position(st.0, id);
            lemma_position_canon_hit(st.0.len(), p as u32);
        },
        Term::Binder(id, b) => {
            let k = st.0.len();
            let st1 = (st.0.push(id), st.1.push(true));
            lemma_idem(*b, st1);
            lemma_position_canon_miss(k, k as u32);
            assert(canon(k).push(k as u32) =~= canon(k + 1));
        },
        Term::Group(cs) => {
            lemma_idem_seq(cs, st);
        },
        Term::Branch(c, d) => {
            lemma_idem(*c, st);
            let (c2, st1) = norm_r(*c, st, 0).unwrap();
            lemma_norm_state(*c, st, 0);
            lemma_idem(*d, st1);
        },
        _ => {},
    }
}

proof fn lemma_idem_seq(cs: Seq<Term>, st: Scopes)
    requires
        st.0.len() == st.1.len(),
        norm_seq(cs, st, 0) is Some,
    ensures
        ({
            let (cs2, st2) = norm_seq(cs, st, 0).unwrap();
            norm_seq(cs2, (canon(st.0.len()), st.1), 0) == Some(
                (cs2, (canon(st2.0.len()), st2.1)),
            )
        }),
    decreases cs,
{
    if cs.len() > 0 {
        let pre = cs.subrange(0, cs.len() - 1);
        lemma_idem_seq(pre, st);
        lemma_norm_seq_state(pre, st, 0);
        let (pre2, st1) = norm_seq(pre, st, 0).unwrap();
        lemma_idem(cs[cs.len() - 1], st1);
        let (x, st2) = norm_r(cs[cs.len() - 1], st1, 0).unwrap();
        let cs2 = pre2.push(x);
        assert(cs2.subrange(0, cs2.len() - 1) =~= pre2);
        assert(cs2[cs2.len() - 1] == x);
    }
}

/// Normalization is idempotent: a normal form is its own normal form.
pub proof fn lemma_normalize_idempotent(t: Term)
    requires
        normalize(t, 0) is Some,
    ensures
        normalize(normalize(t, 0).unwrap(), 0) == normalize(t, 0),
{
    let st: Scopes = (seq![], seq![]);
    lemma_idem(t, st);
    assert(canon(0) =~= seq![]);
}

/// `t` with every binder id and reference id `i` renamed to `f(i)`.
pub open spec fn rename(t: Term, f: spec_fn(u32) -> u32) -> Term
    decreases t,
{
    match t {
        Term::Atom(_) => t,
        Term::Ref(id) => Term::Ref(f(id)),
        Term::Binder(id, b) => Term::Binder(f(id), Box::new(rename(*b, f))),
        Term::Group(cs) => Term::Group(rename_seq(cs, f)),
        Term::Branch(c, d) => Term::Branch(Box::new(rename(*c, f)), Box::new(rename(*d, f))),
    }
}

pub open spec fn rename_seq(cs: Seq<Term>, f: spec_fn(u32) -> u32) -> Seq<Term>
    decreases cs,
{
    if cs.len() == 0 {
        Seq::empty()
    } else {
        rename_seq(cs.subrange(0, cs.len() - 1), f).push(rename(cs[cs.len() - 1], f))
    }
}

pub open spec fn injective(f: spec_fn(u32) -> u32) -> bool {
    forall|a: u32, b: u32| #[trigger] f(a) == #[trigger] f(b) ==> a == b
}

/// A walk result with the raw ids of its state renamed by `f`.
pub open spec fn renamed_result(r: Option<(Term, Scopes)>, f: spec_fn(u32) -> u32) -> Option<
    (Term, Scopes),
> {
    match r {
        Some((t2, st2)) => Some((t2, (st2.0.map_values(f), st2.1))),
        None => None,
    }
}

proof fn lemma_position_rename(ids: Seq<u32>, id: u32, f: spec_fn(u32) -> u32)
    requires
        injective(f),
    ensures
        position(ids.map_values(f), f(id)) == position(ids, id),
    decreases ids.len(),
{
    if ids.len() > 0 {
        let pre = ids.subrange(0, ids.len() - 1);
        assert(ids.map_values(f).subrange(0, ids.len() - 1) =~= pre.map_values(f));
        lemma_position_rename(pre, id, f);
    }
}

proof fn lemma_rename_seq_len(cs: Seq<Term>, f: spec_fn(u32) -> u32)
    ensures
        rename_seq(cs, f).len() == cs.len(),
    decreases cs.len(),
{
    if cs.len() > 0 {
        lemma_rename_seq_len(cs.subrange(0, cs.len() - 1), f);
    }
}

proof fn lemma_alpha(t: Term, st: Scopes, f: spec_fn(u32) -> u32, from: u32)
    requires
        injective(f),
    ensures
        norm_r(rename(t, f), (st.0.map_values(f), st.1), from) == renamed_result(
            norm_r(t, st, from),
            f,
        ),
    decreases t,
{
    match t {
        Term::Ref(id) => {
            lemma_position_rename(st.0, id, f);
        },
        Term::Binder(id, b) => {
            lemma_position_rename(st.0, id, f);
            lemma_alpha(*b, (st.0.push(id), st.1.push(true)), f, from);
            assert(st.0.push(id).map_values(f) =~= st.0.map_values(f).push(f(id)));
        },
        Term::Group(cs) => {
            lemma_alpha_seq(cs, st, f, from);
        },
        Term::Branch(c, d) => {
            lemma_alpha(*c, st, f, from);
            if let Some((_, st1)) = norm_r(*c, st, from) {
                lemma_alpha(*d, st1, f, from);
            }
        },
        _ => {},
    }
}

proof fn lemma_alpha_seq(cs: Seq<Term>, st: Scopes, f: spec_fn(u32) -> u32, from: u32)
    requires
        injective(f),
    ensures
        norm_seq(rename_seq(cs, f), (st.0.map_values(f), st.1), from) == match norm_seq(
            cs,
            st,
            from,
        ) {
            Some((cs2, st2)) => Some((cs2, (st2.0.map_values(f), st2.1))),
            None => None,
        },
    decreases cs,
{
    if cs.len() > 0 {
        let pre = cs.subrange(0, cs.len() - 1);
        lemma_alpha_seq(pre, st, f, from);
        lemma_rename_seq_len(pre, f);
        let rs = rename_seq(cs, f);
        assert(rs.subrange(0, rs.len() - 1) =~= rename_seq(pre, f));
        if let Some((_, st1)) = norm_seq(pre, st, from) {
            lemma_alpha(cs[cs.len() - 1], st1, f, from);
        }
    }
}

/// Normalization is alpha-invariant: renaming binder ids by an injective
/// map, consistently in binders and references, leaves the normal form (and
/// whether there is one) unchanged.
pub proof fn lemma_normalize_alpha_invariant(t: Term, f: spec_fn(u32) -> u32, from: u32)
    requires
        injective(f),
    ensures
        normalize(rename(t, f), from) == normalize(t, from),
{
    let st: Scopes = (seq![], seq![]);
    lemma_alpha(t, st, f, from);
    assert(st.0.map_values(f) =~= seq![]);
}

/// A binder id reused by a nested binder is rejected.
pub proof fn lemma_normalize_rejects_reuse(id: u32, x: Term, from: u32)
    ensures
        normalize(Term::Binder(id, Box::new(Term::Binder(id, Box::new(x)))), from) is None,
{
    let ids = seq![id];
    assert(ids.subrange(0, 0) =~= Seq::<u32>::empty());
    assert(position(ids, id) == 0);
    let e: Scopes = (seq![], seq![]);
    assert(e.0.push(id) =~= ids);
    assert(norm_r(Term::Binder(id, Box::new(x)), (e.0.push(id), e.1.push(true)), from) is None);
}

/// Every reference of `t` lies inside a binder with its id, or has its id
/// in `s`.
pub open spec fn scoped(t: Term, s: Set<u32>) -> bool
    decreases t,
{
    match t {
        Term::Atom(_) => true,
        Term::Ref(id) => s.contains(id),
        Term::Binder(id, b) => scoped(*b, s.insert(id)),
        Term::Group(cs) => scoped_seq(cs, s),
        Term::Branch(c, d) => scoped(*c, s) && scoped(*d, s),
    }
}

pub open spec fn scoped_seq(cs: Seq<Term>, s: Set<u32>) -> bool
    decreases cs,
{
    cs.len() == 0 || (scoped_seq(cs.subrange(0, cs.len() - 1), s) && scoped(cs[cs.len() - 1], s))
}

/// The raw ids whose binders are open in a walk state.
pub open spec fn open_ids(st: Scopes) -> Set<u32> {
    Set::new(|x: u32| exists|i: int| 0 <= i < st.0.len() && st.0[i] == x && #[trigger] st.1[i])
}

proof fn lemma_open_ids_stable(st: Scopes, st2: Scopes)
    requires
        st.0.len() == st.1.len(),
        state_grows(st, st2),
    ensures
        open_ids(st2) == open_ids(st),
{
    assert forall|x: u32| open_ids(st2).contains(x) implies open_ids(st).contains(x) by {
        let i = choose|i: int| 0 <= i < st2.0.len() && st2.0[i] == x && #[trigger] st2.1[i];
        assert(st2.0.subrange(0, st.0.len() as int)[i] == st2.0[i]);
        assert(st2.1.subrange(0, st.1.len() as int)[i] == st2.1[i]);
    }
    assert forall|x: u32| open_ids(st).contains(x) implies open_ids(st2).contains(x) by {
        let i = choose|i: int| 0 <= i < st.0.len() && st.0[i] == x && #[trigger] st.1[i];
        assert(st2.0.subrange(0, st.0.len() as int)[i] == st2.0[i]);
        assert(st2.1.subrange(0, st.1.len() as int)[i] == st2.1[i]);
    }
    assert(open_ids(st2) =~= open_ids(st));
}

proof fn lemma_norm_scoped(t: Term, st: Scopes, from: u32)
    requires
        st.0.len() == st.1.len(),
        norm_r(t, st, from) is Some,
    ensures
        scoped(t, open_ids(st)),
    decreases t,
{
    match t {
        Term::Ref(id) => {
            lemma_position_bounds(st.0, id);
            let p = position(st.0, id);
            assert(st.1[p]);
            assert(open_ids(st).contains(id));
        },
        Term::Binder(id, b) => {
            let st1 = (st.0.push(id), st.1.push(true));
            lemma_norm_scoped(*b, st1, from);
            assert forall|x: u32| open_ids(st1).contains(x) implies open_ids(st).insert(
                x,
            ).contains(x) && open_ids(st).insert(id).contains(x) by {
                let i = choose|i: int| 0 <= i < st1.0.len() && st1.0[i] == x && #[trigger] st1.1[i];
                if i < st.0.len() {
                    assert(st.1[i]);
                }
            }
            assert forall|x: u32| open_ids(st).insert(id).contains(x) implies open_ids(
                st1,
            ).contains(x) by {
                if x == id {
                    assert(st1.1[st.0.len() as int]);
                } else {
                    let i = choose|i: int| 0 <= i < st.0.len() && st.0[i] == x && #[trigger] st.1[i];
                    assert(st1.1[i]);
                }
            }
            assert(open_ids(st1) =~= open_ids(st).insert(id));
        },
        Term::Group(cs) => {
            lemma_norm_scoped_seq(cs, st, from);
        },
        Term::Branch(c, d) => {
            lemma_norm_scoped(*c, st, from);
            lemma_norm_state(*c, st, from);
            let st1 = norm_state(norm_r(*c, st, from));
            lemma_norm_scoped(*d, st1, from);
            lemma_open_ids_stable(st, st1);
        },
        _ => {},
    }
}

proof fn lemma_norm_scoped_seq(cs: Seq<Term>, st: Scopes, from: u32)
    requires
        st.0.len() == st.1.len(),
        norm_seq(cs, st, from) is Some,
    ensures
        scoped_seq(cs, open_ids(st)),
    decreases cs,
{
    if cs.len() > 0 {
        let pre = cs.subrange(0, cs.len() - 1);
        lemma_norm_scoped_seq(pre, st, from);
        lemma_norm_seq_state(pre, st, from);
        let st1 = norm_seq(pre, st, from).unwrap().1;
        lemma_norm_scoped(cs[cs.len() - 1], st1, from);
        lemma_open_ids_stable(st, st1);
    }
}

/// Normalization rejects references that escape their binder or were never
/// opened: a term that normalizes has each reference inside a binder with
/// its id.
pub proof fn lemma_normalize_rejects_unbound(t: Term, from: u32)
    requires
        normalize(t, from) is Some,
    ensures
        scoped(t, Set::empty()),
{
    let st: Scopes = (seq![], seq![]);
    lemma_norm_scoped(t, st, from);
    assert(open_ids(st) =~= Set::empty());
}

/// A reference after its binder has closed is rejected.
pub proof fn lemma_normalize_rejects_escape(id: u32, x: Term, from: u32)
    ensures
        normalize(Term::Group(seq![Term::Binder(id, Box::new(x)), Term::Ref(id)]), from) is None,
{
    let t = Term::Group(seq![Term::Binder(id, Box::new(x)), Term::Ref(id)]);
    if normalize(t, from) is Some {
        lemma_normalize_rejects_unbound(t, from);
        let cs = seq![Term::Binder(id, Box::new(x)), Term::Ref(id)];
        assert(cs[cs.len() - 1] == Term::Ref(id));
        assert(!scoped(Term::Ref(id), Set::empty()));
        assert(!scoped_seq(cs, Set::empty()));
    }
}

/// Some binder of `t` has id `id`.
pub open spec fn binds(t: Term, id: u32) -> bool
    decreases t,
{
    match t {
        Term::Binder(i, b) => i == id || binds(*b, id),
        Term::Group(cs) => binds_seq(cs, id),
        Term::Branch(c, d) => binds(*c, id) || binds(*d, id),
        _ => false,
    }
}

pub open spec fn binds_seq(cs: Seq<Term>, id: u32) -> bool
    decreases cs,
{
    cs.len() > 0 && (binds_seq(cs.subrange(0, cs.len() - 1), id) || binds(cs[cs.len() - 1], id))
}

/// The next id is 0 for a term without binders, and otherwise one more
/// than the highest binder id.
pub proof fn lemma_next_id_is_max_plus_one(t: Term)
    ensures
        forall|id: u32| binds(t, id) ==> id < next_id(t),
        next_id(t) > 0 ==> binds(t, (next_id(t) - 1) as u32),
        next_id(t) == 0 <==> forall|id: u32| !binds(t, id),
    decreases t,
{
    match t {
        Term::Binder(i, b) => {
            lemma_next_id_is_max_plus_one(*b);
            assert forall|id: u32| binds(t, id) implies id < next_id(t) by {
                if id != i {
                    assert(binds(*b, id));
                }
            }
        },
        Term::Group(cs) => {
            lemma_next_id_seq_is_max_plus_one(cs);
            assert forall|id: u32| binds(t, id) implies id < next_id(t) by {
                assert(binds_seq(cs, id));
            }
        },
        Term::Branch(c, d) => {
            lemma_next_id_is_max_plus_one(*c);
            lemma_next_id_is_max_plus_one(*d);
            assert forall|id: u32| binds(t, id) implies id < next_id(t) by {
                if !binds(*c, id) {
                    assert(binds(*d, id));
                }
            }
        },
        _ => {},
    }
    if next_id(t) > 0 {
        assert(binds(t, (next_id(t) - 1) as u32));
    }
}

proof fn lemma_next_id_seq_is_max_plus_one(cs: Seq<Term>)
    ensures
        forall|id: u32| binds_seq(cs, id) ==> id < next_id_seq(cs),
        next_id_seq(cs) > 0 ==> binds_seq(cs, (next_id_seq(cs) - 1) as u32),
    decreases cs,
{
    if cs.len() > 0 {
        let pre = cs.subrange(0, cs.len() - 1);
        lemma_next_id_seq_is_max_plus_one(pre);
        lemma_next_id_is_max_plus_one(cs[cs.len() - 1]);
        assert forall|id: u32| binds_seq(cs, id) implies id < next_id_seq(cs) by {
            if !binds_seq(pre, id) {
                assert(binds(cs[cs.len() - 1], id));
            }
        }
    }
}

} // verus!
