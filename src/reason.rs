//! The inference rules. Each resolves its positions against the current
//! rules, checks its preconditions, builds a new rule, and appends the
//! rule's normal form; a failed precondition changes nothing.
use vstd::prelude::*;
use vstd::string::StringExecFns;
use crate::term::Term;
use crate::cell::{Cell, is_equals, is_constant_term, true_term, false_term, equals_term, mentions, replace_all};
use crate::gen::{valid_name, var, try_simple};
use crate::normalize::{normalize, next_id};
use crate::error::{SRLResult, fail, forward};
use crate::gen::{true_cell, false_cell, equals_cell, scope, case};
use crate::navi::{CellID, CellPath, subterm, valid_path, replace, bool_slot, complete_bool};
use crate::wrapper::{wrapper_of, around};
use crate::db::{Database, derived};

verus! {

broadcast use crate::term::lemma_view_cells;

/// The handle `h` resolves against `rules`.
pub open spec fn resolves(rules: Seq<Term>, h: (usize, Seq<usize>)) -> bool {
    h.0 < rules.len() && valid_path(rules[h.0 as int], h.1)
}

/// The rule that `h` points into.
pub open spec fn root_of(rules: Seq<Term>, h: (usize, Seq<usize>)) -> Term {
    rules[h.0 as int]
}

/// The term that `h` points at.
pub open spec fn term_at(rules: Seq<Term>, h: (usize, Seq<usize>)) -> Term {
    subterm(rules[h.0 as int], h.1)
}

/// For an equality `e`, the operand opposite to the one equal to `s`
/// (the second if the first matches).
pub open spec fn other_side(e: Term, s: Term) -> Option<Term> {
    if e->Group_0[1] == s {
        Some(e->Group_0[2])
    } else if e->Group_0[2] == s {
        Some(e->Group_0[1])
    } else {
        None
    }
}

/// Equals-substitution: the evidence is an equality `(= a b)` whose wrapper
/// exposes no existential binder and surrounds the source; the source,
/// equal to one operand, is replaced by the other.
pub open spec fn equals_law_result(rules: Seq<Term>, src: (usize, Seq<usize>), evi: (usize, Seq<usize>)) -> Option<Term> {
    if resolves(rules, src) && resolves(rules, evi) && wrapper_of(root_of(rules, evi), evi.1) is Some
        && wrapper_of(root_of(rules, evi), evi.1).unwrap().2 && is_equals(term_at(rules, evi))
        && around(root_of(rules, evi), evi.1, root_of(rules, src), src.1) && other_side(
        term_at(rules, evi),
        term_at(rules, src),
    ) is Some {
        Some(
            replace(
                root_of(rules, src),
                src.1,
                other_side(term_at(rules, evi), term_at(rules, src)).unwrap(),
            ),
        )
    } else {
        None
    }
}

/// Constant-inequality: `(= a b)` with distinct constants becomes falsity.
pub open spec fn inequal_constants_result(rules: Seq<Term>, h: (usize, Seq<usize>)) -> Option<Term> {
    let t = term_at(rules, h);
    if resolves(rules, h) && is_equals(t) && is_constant_term(t->Group_0[1]) && is_constant_term(
        t->Group_0[2],
    ) && t->Group_0[1] != t->Group_0[2] {
        Some(replace(root_of(rules, h), h.1, false_term()))
    } else {
        None
    }
}

/// Add-truth-wrap: a boolean slot `x` becomes `(= 'true' x)`.
pub open spec fn add_eqt_result(rules: Seq<Term>, h: (usize, Seq<usize>)) -> Option<Term> {
    if resolves(rules, h) && bool_slot(root_of(rules, h), h.1) {
        Some(replace(root_of(rules, h), h.1, equals_term(true_term(), term_at(rules, h))))
    } else {
        None
    }
}

/// Remove-truth-wrap: `x` inside `(= 'true' x)` replaces its parent, if the
/// parent's slot then still holds a boolean.
pub open spec fn rm_eqt_result(rules: Seq<Term>, h: (usize, Seq<usize>)) -> Option<Term> {
    let q = h.1.drop_last();
    let parent = subterm(root_of(rules, h), q);
    let rule = replace(root_of(rules, h), q, term_at(rules, h));
    if resolves(rules, h) && h.1.len() > 0 && is_equals(parent) && parent->Group_0[1] == true_term()
        && parent->Group_0[2] == term_at(rules, h) && bool_slot(rule, q) {
        Some(rule)
    } else {
        None
    }
}

/// Scope-exchange: `{o {i body}}` becomes `{i {o body}}`.
pub open spec fn scope_exchange_result(rules: Seq<Term>, h: (usize, Seq<usize>)) -> Option<Term> {
    let t = term_at(rules, h);
    if resolves(rules, h) && t is Binder && (*t->Binder_1) is Binder {
        let inner = *t->Binder_1;
        Some(
            replace(
                root_of(rules, h),
                h.1,
                Term::Binder(inner->Binder_0, Box::new(Term::Binder(t->Binder_0, inner->Binder_1))),
            ),
        )
    } else {
        None
    }
}

/// Case-wrap: a term `x` in a positive wrapper becomes `[=> arg x]`.
pub open spec fn case_creation_result(rules: Seq<Term>, h: (usize, Seq<usize>), arg: Term) -> Option<Term> {
    if resolves(rules, h) && wrapper_of(root_of(rules, h), h.1) is Some && wrapper_of(
        root_of(rules, h),
        h.1,
    ).unwrap().0 {
        Some(
            replace(
                root_of(rules, h),
                h.1,
                Term::Branch(Box::new(arg), Box::new(term_at(rules, h))),
            ),
        )
    } else {
        None
    }
}

/// Equals-substitution inside a branch: the evidence is the condition of a
/// branch, the source lies in the same rule, and the wrapper of the
/// branch's conclusion surrounds the source.
pub open spec fn equals_law_impl_result(rules: Seq<Term>, src: (usize, Seq<usize>), evi: (usize, Seq<usize>)) -> Option<Term> {
    let q = evi.1.drop_last();
    let concl = q.push(1);
    if resolves(rules, src) && resolves(rules, evi) && evi.1.len() > 0 && evi.1.last() == 0 && subterm(
        root_of(rules, evi),
        q,
    ) is Branch && src.0 == evi.0 && wrapper_of(root_of(rules, evi), concl) is Some && around(
        root_of(rules, evi),
        concl,
        root_of(rules, src),
        src.1,
    ) && is_equals(term_at(rules, evi)) && other_side(term_at(rules, evi), term_at(rules, src)) is Some {
        Some(
            replace(
                root_of(rules, src),
                src.1,
                other_side(term_at(rules, evi), term_at(rules, src)).unwrap(),
            ),
        )
    } else {
        None
    }
}

/// `t` with each reference to `id`, left to right, replaced by the normal
/// form of `c` counted from `next`, `next` growing by `amount` each time;
/// the final counter, or `None` where a copy does not normalize or the
/// counter does not fit in `u32`.
pub open spec fn insert(t: Term, id: u32, c: Term, next: int, amount: int) -> Option<(Term, int)>
    decreases t,
{
    match t {
        Term::Ref(i) => if i == id {
            if 0 <= next <= u32::MAX && normalize(c, next as u32) is Some {
                Some((normalize(c, next as u32).unwrap(), next + amount))
            } else {
                None
            }
        } else {
            Some((t, next))
        },
        Term::Binder(i, b) => match insert(*b, id, c, next, amount) {
            Some((b2, n2)) => Some((Term::Binder(i, Box::new(b2)), n2)),
            None => None,
        },
        Term::Group(cs) => match insert_seq(cs, id, c, next, amount) {
            Some((cs2, n2)) => Some((Term::Group(cs2), n2)),
            None => None,
        },
        Term::Branch(x, y) => match insert(*x, id, c, next, amount) {
            Some((x2, n1)) => match insert(*y, id, c, n1, amount) {
                Some((y2, n2)) => Some((Term::Branch(Box::new(x2), Box::new(y2)), n2)),
                None => None,
            },
            None => None,
        },
        Term::Atom(_) => Some((t, next)),
    }
}

pub open spec fn insert_seq(cs: Seq<Term>, id: u32, c: Term, next: int, amount: int) -> Option<(Seq<Term>, int)>
    decreases cs,
{
    if cs.len() == 0 {
        Some((Seq::empty(), next))
    } else {
        match insert_seq(cs.subrange(0, cs.len() - 1), id, c, next, amount) {
            Some((pre, n1)) => match insert(cs[cs.len() - 1], id, c, n1, amount) {
                Some((x, n2)) => Some((pre.push(x), n2)),
                None => None,
            },
            None => None,
        }
    }
}

/// Scope-insertion: a binder whose body is a full boolean term, in a
/// positive wrapper, is dropped, and each reference to it in its body is
/// replaced by a copy of `c`, the copies' binder ids continuing from the
/// rule's next id.
pub open spec fn scope_insertion_result(rules: Seq<Term>, h: (usize, Seq<usize>), c: Term) -> Option<Term> {
    let t = term_at(rules, h);
    let root = root_of(rules, h);
    if resolves(rules, h) && t is Binder && complete_bool(*t->Binder_1) && wrapper_of(root, h.1) is Some
        && wrapper_of(root, h.1).unwrap().0 && normalize(c, 0) is Some {
        match insert(
            *t->Binder_1,
            t->Binder_0,
            c,
            next_id(root) as int,
            next_id(normalize(c, 0).unwrap()) as int,
        ) {
            Some((b2, _)) => Some(replace(root, h.1, b2)),
            None => None,
        }
    } else {
        None
    }
}

/// The paths held in `v`.
pub open spec fn path_views(v: Seq<Vec<usize>>) -> Seq<Seq<usize>> {
    v.map_values(|p: Vec<usize>| p@)
}

/// The relative paths `ps` are valid in `s`, and consecutive ones lead to
/// equal subterms.
pub open spec fn paths_match(s: Term, ps: Seq<Seq<usize>>) -> bool {
    forall|k: int| 0 <= k < ps.len() ==> #[trigger] path_ok_at(s, ps, k)
}

/// Path `k` of `ps` is valid in `s`, and leads to the same subterm as the
/// next path, if any.
pub open spec fn path_ok_at(s: Term, ps: Seq<Seq<usize>>, k: int) -> bool {
    valid_path(s, ps[k]) && (k + 1 < ps.len() ==> subterm(s, ps[k]) == subterm(s, ps[k + 1]))
}

/// Replaces, in order, the subterm at `base + ps[k]` for each `k` by a
/// reference to `id`; `None` where a path is no longer valid.
pub open spec fn fold_refs(t: Term, base: Seq<usize>, ps: Seq<Seq<usize>>, id: u32) -> Option<Term>
    decreases ps.len(),
{
    if ps.len() == 0 {
        Some(t)
    } else {
        match fold_refs(t, base, ps.drop_last(), id) {
            Some(t1) => if valid_path(t1, base + ps.last()) {
                Some(replace(t1, base + ps.last(), Term::Ref(id)))
            } else {
                None
            },
            None => None,
        }
    }
}

/// Scope-creation: a full boolean term in a negative wrapper is wrapped in a
/// binder with a fresh id, and the matching subterms at the relative paths
/// `ps` become references to it.
pub open spec fn scope_creation_result(rules: Seq<Term>, h: (usize, Seq<usize>), ps: Seq<Seq<usize>>) -> Option<Term> {
    let t = term_at(rules, h);
    let root = root_of(rules, h);
    if resolves(rules, h) && complete_bool(t) && wrapper_of(root, h.1) is Some && !wrapper_of(
        root,
        h.1,
    ).unwrap().0 && paths_match(t, ps) && next_id(root) <= u32::MAX {
        fold_refs(
            replace(root, h.1, Term::Binder(next_id(root) as u32, Box::new(t))),
            h.1.push(0),
            ps,
            next_id(root) as u32,
        )
    } else {
        None
    }
}

/// Implication-derivation: branches `[=> c d]` and `[=> (= 'false' c) d]`
/// under equal wrappers, positive and without existential exposure, give
/// `d` as a rule of its own.
pub open spec fn implications_derivation_result(rules: Seq<Term>, h1: (usize, Seq<usize>), h2: (usize, Seq<usize>)) -> Option<Term> {
    let t1 = term_at(rules, h1);
    let t2 = term_at(rules, h2);
    let r1 = root_of(rules, h1);
    let r2 = root_of(rules, h2);
    if resolves(rules, h1) && resolves(rules, h2) && t1 is Branch && t2 is Branch && *t1->Branch_1
        == *t2->Branch_1 && equals_term(false_term(), *t1->Branch_0) == *t2->Branch_0 && wrapper_of(
        r1,
        h1.1,
    ) is Some && wrapper_of(r2, h2.1) is Some && h1.1 == h2.1 && replace(r1, h1.1, false_term())
        == replace(r2, h2.1, false_term()) && wrapper_of(r1, h1.1).unwrap().2 && wrapper_of(
        r1,
        h1.1,
    ).unwrap().0 {
        Some(*t1->Branch_1)
    } else {
        None
    }
}

/// Declaration: a name that occurs in no rule, and a term
/// `(= 'false' {id (= 'false' body)})` in a positive wrapper without
/// universal exposure: the term becomes `body` with each reference to `id`
/// replaced by the atom `name`.
pub open spec fn declaration_result(rules: Seq<Term>, h: (usize, Seq<usize>), name: Seq<char>) -> Option<Term> {
    let t = term_at(rules, h);
    let root = root_of(rules, h);
    if !(exists|i: int| 0 <= i < rules.len() && mentions(#[trigger] rules[i], name)) && resolves(
        rules,
        h,
    ) && wrapper_of(root, h.1) is Some && wrapper_of(root, h.1).unwrap().0 && wrapper_of(
        root,
        h.1,
    ).unwrap().1 && is_equals(t) && t->Group_0[1] == false_term() && t->Group_0[2] is Binder
        && is_equals(*t->Group_0[2]->Binder_1) && (*t->Group_0[2]->Binder_1)->Group_0[1]
        == false_term() && valid_name(name) {
        Some(
            replace(
                root,
                h.1,
                replace_all(
                    (*t->Group_0[2]->Binder_1)->Group_0[2],
                    Term::Ref(t->Group_0[2]->Binder_0),
                    Term::Atom(name),
                ),
            ),
        )
    } else {
        None
    }
}

/// The id and body of a binder.
fn as_scope(c: Cell) -> (r: Option<(u32, Cell)>)
    ensures
        r is Some <==> c@ is Binder,
        r is Some ==> r.unwrap().0 == c@->Binder_0 && r.unwrap().1@ == *c@->Binder_1,
{
    proof {
        if c is Complex {
            crate::term::lemma_group_view(c);
        }
    }
    match c {
        Cell::Scope { id, body } => Some((id, *body)),
        _ => None,
    }
}

/// The condition and conclusion of a branch.
fn as_case(c: Cell) -> (r: Option<(Cell, Cell)>)
    ensures
        r is Some <==> c@ is Branch,
        r is Some ==> r.unwrap().0@ == *c@->Branch_0 && r.unwrap().1@ == *c@->Branch_1,
{
    proof {
        if c is Complex {
            crate::term::lemma_group_view(c);
        }
    }
    match c {
        Cell::Case { condition, conclusion } => Some((*condition, *conclusion)),
        _ => None,
    }
}

/// `a` followed by `b`.
fn concat(a: &Vec<usize>, b: &Vec<usize>) -> (r: Vec<usize>)
    ensures
        r@ == a@ + b@,
{
    let mut r = a.clone();
    let mut i: usize = 0;
    while i < b.len()
        invariant
            i <= b@.len(),
            r@ == a@ + b@.subrange(0, i as int),
        decreases b.len() - i,
    {
        r.push(b[i]);
        i += 1;
        assert(r@ =~= a@ + b@.subrange(0, i as int));
    }
    assert(b@.subrange(0, i as int) =~= b@);
    r
}

/// Insertion fails on a sequence where it fails on a prefix.
proof fn lemma_insert_seq_prefix_fails(cs: Seq<Term>, id: u32, c: Term, next: int, amount: int, k: int)
    requires
        0 <= k <= cs.len(),
        insert_seq(cs.subrange(0, k), id, c, next, amount) is None,
    ensures
        insert_seq(cs, id, c, next, amount) is None,
    decreases cs.len() - k,
{
    if k < cs.len() {
        assert(cs.subrange(0, k + 1).subrange(0, k) =~= cs.subrange(0, k));
        lemma_insert_seq_prefix_fails(cs, id, c, next, amount, k + 1);
    } else {
        assert(cs.subrange(0, k) =~= cs);
    }
}

/// Folding fails on a sequence of paths where it fails on a prefix.
proof fn lemma_fold_refs_prefix_fails(t: Term, base: Seq<usize>, ps: Seq<Seq<usize>>, id: u32, k: int)
    requires
        0 <= k <= ps.len(),
        fold_refs(t, base, ps.subrange(0, k), id) is None,
    ensures
        fold_refs(t, base, ps, id) is None,
    decreases ps.len() - k,
{
    if k < ps.len() {
        assert(ps.subrange(0, k + 1).drop_last() =~= ps.subrange(0, k));
        lemma_fold_refs_prefix_fails(t, base, ps, id, k + 1);
    } else {
        assert(ps.subrange(0, k) =~= ps);
    }
}

/// Replaces each reference to `id` in `t`, left to right, by the normal
/// form of `c` counted from the counter, which grows by `amount` each time.
fn insert_cell(t: &Cell, id: u32, c: &Cell, next: &mut u64, amount: u64) -> (r: SRLResult<Cell>)
    requires
        *old(next) <= 0x2_0000_0000,
        amount <= 0x1_0000_0000,
    ensures
        r is Ok <==> insert(t@, id, c@, *old(next) as int, amount as int) is Some,
        r is Ok ==> r->Ok_0@ == insert(t@, id, c@, *old(next) as int, amount as int).unwrap().0
            && *final(next) as int == insert(t@, id, c@, *old(next) as int, amount as int).unwrap().1
            && *final(next) <= 0x2_0000_0000,
    decreases t,
{
    match t {
        Cell::Var { id: i } => {
            if *i == id {
                if *next > 0xffff_ffff {
                    return fail("scope_insertion", "id out of range");
                }
                let copy = match c.get_normalized_from(*next as u32) {
                    Ok(x) => x,
                    Err(e) => {
                        return Err(e);
                    },
                };
                *next = *next + amount;
                Ok(copy)
            } else {
                Ok(t.clone())
            }
        },
        Cell::Scope { id: i, body } => {
            match insert_cell(&**body, id, c, next, amount) {
                Ok(b2) => Ok(scope(*i, b2)),
                Err(e) => Err(e),
            }
        },
        Cell::Case { condition, conclusion } => {
            let x2 = match insert_cell(&**condition, id, c, next, amount) {
                Ok(x) => x,
                Err(e) => {
                    return Err(e);
                },
            };
            match insert_cell(&**conclusion, id, c, next, amount) {
                Ok(y2) => Ok(case(x2, y2)),
                Err(e) => Err(e),
            }
        },
        Cell::Complex { cells } => {
            proof {
                crate::term::lemma_group_view(*t);
            }
            let ghost cs = t@->Group_0;
            let ghost n0 = *old(next) as int;
            let mut out: Vec<Cell> = Vec::new();
            let mut i: usize = 0;
            while i < cells.len()
                invariant
                    *t is Complex,
                    t->cells == *cells,
                    t@ == Term::Group(cs),
                    i <= cells.len(),
                    cs.len() == cells@.len(),
                    forall|j: int| 0 <= j < cells@.len() ==> #[trigger] cs[j] == cells@[j]@,
                    *next <= 0x2_0000_0000,
                    amount <= 0x1_0000_0000,
                    n0 == *old(next) as int,
                    insert_seq(cs.subrange(0, i as int), id, c@, n0, amount as int) == Some(
                        (crate::term::view_cells(out@), *next as int),
                    ),
                decreases cells.len() - i,
            {
                proof {
                    crate::cell::lemma_child_decreases(*t, i as int);
                    assert(cs.subrange(0, i + 1).subrange(0, i as int) =~= cs.subrange(0, i as int));
                    assert(cs.subrange(0, i + 1)[i as int] == cs[i as int]);
                }
                let ghost before = out@;
                let ghost n_i = *next as int;
                match insert_cell(&cells[i], id, c, next, amount) {
                    Ok(x) => {
                        out.push(x);
                        proof {
                            assert(out@.subrange(0, out@.len() - 1) =~= before);
                        }
                    },
                    Err(e) => {
                        proof {
                            assert(insert(cs[i as int], id, c@, n_i, amount as int) is None);
                            assert(insert_seq(cs.subrange(0, i + 1), id, c@, n0, amount as int) is None);
                            lemma_insert_seq_prefix_fails(cs, id, c@, n0, amount as int, i + 1);
                        }
                        return Err(e);
                    },
                }
                i += 1;
            }
            assert(cs.subrange(0, i as int) =~= cs);
            Ok(crate::gen::complex(out))
        },
        Cell::Simple { .. } => Ok(t.clone()),
    }
}

/// The relative paths `indices` are valid in `cell` and consecutive ones
/// lead to equal subterms.
fn check_paths(cell: &Cell, indices: &Vec<Vec<usize>>) -> (r: bool)
    ensures
        r == paths_match(cell@, path_views(indices@)),
{
    let ghost ps = path_views(indices@);
    let n = indices.len();
    let mut i: usize = 0;
    while i < n
        invariant
            n == indices@.len(),
            ps == path_views(indices@),
            ps.len() == n,
            forall|k: int| 0 <= k < n ==> #[trigger] ps[k] == indices@[k]@,
            i <= n,
            forall|k: int| 0 <= k < i ==> #[trigger] path_ok_at(cell@, ps, k),
        decreases n - i,
    {
        let first = match CellPath::create(cell.clone(), indices[i].clone()) {
            Ok(x) => x,
            Err(_) => {
                assert(!path_ok_at(cell@, ps, i as int));
                return false;
            },
        };
        if i + 1 < n {
            let second = match CellPath::create(cell.clone(), indices[i + 1].clone()) {
                Ok(x) => x,
                Err(_) => {
                    assert(!valid_path(cell@, ps[i + 1]));
                    assert(!path_ok_at(cell@, ps, i + 1));
                    return false;
                },
            };
            if !first.get_cell().matches(&second.get_cell()) {
                assert(subterm(cell@, ps[i as int]) != subterm(cell@, ps[i + 1]));
                assert(!path_ok_at(cell@, ps, i as int));
                return false;
            }
        }
        assert(path_ok_at(cell@, ps, i as int));
        i += 1;
    }
    true
}

/// `start` with the subterm at `base + indices[k]` replaced, for each `k` in
/// order, by a reference to `id`.
fn refs_at(start: Cell, base: &Vec<usize>, indices: &Vec<Vec<usize>>, id: u32) -> (r: SRLResult<Cell>)
    ensures
        r is Ok <==> fold_refs(start@, base@, path_views(indices@), id) is Some,
        r is Ok ==> r->Ok_0@ == fold_refs(start@, base@, path_views(indices@), id).unwrap(),
{
    let ghost ps = path_views(indices@);
    let n = indices.len();
    let mut cur = start.clone();
    let mut k: usize = 0;
    assert(ps.subrange(0, 0) =~= Seq::<Seq<usize>>::empty());
    while k < n
        invariant
            n == indices@.len(),
            ps == path_views(indices@),
            ps.len() == n,
            forall|j: int| 0 <= j < n ==> #[trigger] ps[j] == indices@[j]@,
            k <= n,
            fold_refs(start@, base@, ps.subrange(0, k as int), id) == Some(cur@),
        decreases n - k,
    {
        assert(ps.subrange(0, k + 1).drop_last() =~= ps.subrange(0, k as int));
        assert(ps.subrange(0, k + 1).last() == ps[k as int]);
        let full = concat(base, &indices[k]);
        let target = match CellPath::create(cur.clone(), full) {
            Ok(x) => x,
            Err(e) => {
                proof {
                    assert(fold_refs(start@, base@, ps.subrange(0, k + 1), id) is None);
                    lemma_fold_refs_prefix_fails(start@, base@, ps, id, k + 1);
                }
                return Err(e);
            },
        };
        cur = target.replace_by(var(id));
        k += 1;
    }
    assert(ps.subrange(0, n as int) =~= ps);
    Ok(cur)
}

/// Resolves `id` against the rules, or fails.
fn resolve(rules: &Vec<Cell>, id: &CellID) -> (r: SRLResult<CellPath>)
    ensures
        r is Ok <==> resolves(crate::term::view_cells(rules@), id@),
        r is Ok ==> r->Ok_0@ == (crate::term::view_cells(rules@)[id@.0 as int], id@.1) && r->Ok_0.wf(),
{
    id.get_path(rules)
}

/// The operand of `(= a b)` opposite to the one that matches `src`.
fn pick_other(evi_cell: &Cell, src_cell: &Cell) -> (r: SRLResult<Cell>)
    requires
        is_equals(evi_cell@),
    ensures
        r is Ok <==> other_side(evi_cell@, src_cell@) is Some,
        r is Ok ==> r->Ok_0@ == other_side(evi_cell@, src_cell@).unwrap(),
{
    let (a, b) = match evi_cell.get_equals_cell_arguments() {
        Ok(x) => x,
        Err(e) => {
            return Err(e);
        },
    };
    if a.matches(src_cell) {
        Ok(b)
    } else if b.matches(src_cell) {
        Ok(a)
    } else {
        fail("equals_law", "replace cell does not occur in evidence")
    }
}

impl Database {
    /// Equals-substitution: replaces the term at `src_id` by the other
    /// operand of the equality at `evidence_id`.
    pub fn equals_law(&mut self, src_id: CellID, evidence_id: CellID) -> (r: SRLResult<Cell>)
        requires
            old(self).wf(),
        ensures
            final(self).wf(),
            derived(old(self)@, final(self)@, equals_law_result(old(self)@.0, src_id@, evidence_id@), r),
    {
        let src_path = match resolve(&self.rules, &src_id) {
            Ok(x) => x,
            Err(e) => {
                return forward(e, "equals_law");
            },
        };
        let evidence_path = match resolve(&self.rules, &evidence_id) {
            Ok(x) => x,
            Err(e) => {
                return forward(e, "equals_law");
            },
        };
        let wrapper = match evidence_path.get_wrapper() {
            Some(x) => x,
            None => {
                return fail("equals_law", "evidence_id is not in wrapper");
            },
        };
        if !wrapper.is_nexq() {
            return fail("equals_law", "wrapper is no nexq-wrapper");
        }
        let evi_cell = evidence_path.get_cell();
        if evi_cell.get_equals_cell_arguments().is_err() {
            return fail("equals_law", "evidence is no equality");
        }
        if !wrapper.is_around(&src_path) {
            return fail("equals_law", "src_id and evidence_id are not in the same wrapper");
        }
        let src_cell = src_path.get_cell();
        let new = match pick_other(&evi_cell, &src_cell) {
            Ok(x) => x,
            Err(e) => {
                return forward(e, "equals_law");
            },
        };
        let rule = src_path.replace_by(new);
        self.add_rule(rule)
    }

    /// Constant-inequality: an equality of two distinct constants becomes
    /// `'false'`.
    pub fn inequal_constants(&mut self, id: CellID) -> (r: SRLResult<Cell>)
        requires
            old(self).wf(),
        ensures
            final(self).wf(),
            derived(old(self)@, final(self)@, inequal_constants_result(old(self)@.0, id@), r),
    {
        let path = match resolve(&self.rules, &id) {
            Ok(x) => x,
            Err(e) => {
                return forward(e, "inequal_constants");
            },
        };
        let cell = path.get_cell();
        let (x, y) = match cell.get_equals_cell_arguments() {
            Ok(p) => p,
            Err(e) => {
                return forward(e, "inequal_constants");
            },
        };
        if !x.is_constant() {
            return fail("inequal_constants", "first arg not constant");
        }
        if !y.is_constant() {
            return fail("inequal_constants", "second arg is not constant");
        }
        if x.matches(&y) {
            return fail("inequal_constants", "both args equal");
        }
        let rule = path.replace_by(false_cell());
        self.add_rule(rule)
    }

    /// Add-truth-wrap: the boolean slot at `cell_id` gets `(= 'true' ..)`
    /// around it.
    pub fn add_eqt(&mut self, cell_id: CellID) -> (r: SRLResult<Cell>)
        requires
            old(self).wf(),
        ensures
            final(self).wf(),
            derived(old(self)@, final(self)@, add_eqt_result(old(self)@.0, cell_id@), r),
    {
        let cell_path = match resolve(&self.rules, &cell_id) {
            Ok(x) => x,
            Err(e) => {
                return forward(e, "add_eqt");
            },
        };
        if !cell_path.is_bool() {
            return fail("add_eqt", "cell is not bool");
        }
        let cell = cell_path.get_cell();
        let rule = cell_path.replace_by(equals_cell(true_cell(), cell));
        self.add_rule(rule)
    }

    /// Remove-truth-wrap: the term at `cell_id`, inside `(= 'true' ..)`,
    /// takes its parent's place.
    pub fn rm_eqt(&mut self, cell_id: CellID) -> (r: SRLResult<Cell>)
        requires
            old(self).wf(),
        ensures
            final(self).wf(),
            derived(old(self)@, final(self)@, rm_eqt_result(old(self)@.0, cell_id@), r),
    {
        let cell_path = match resolve(&self.rules, &cell_id) {
            Ok(x) => x,
            Err(e) => {
                return forward(e, "rm_eqt");
            },
        };
        let cell = cell_path.get_cell();
        let parent_path = match cell_path.get_parent() {
            Ok(x) => x,
            Err(e) => {
                return forward(e, "rm_eqt");
            },
        };
        let parent_cell = parent_path.get_cell();
        let (a, b) = match parent_cell.get_equals_cell_arguments() {
            Ok(x) => x,
            Err(_) => {
                return fail("rm_eqt", "not contained in equals cell");
            },
        };
        if !a.matches(&true_cell()) {
            return fail("rm_eqt", "first cell in equals is not 'true'");
        }
        if !b.matches(&cell) {
            return fail("rm_eqt", "second cell in equals is not cell_id");
        }
        let rule = parent_path.replace_by(cell);
        proof {
            crate::navi::lemma_replace_then_read(parent_path@.0, parent_path@.1, b@);
        }
        let tmp_cell_path = match CellPath::create(rule.clone(), parent_path.get_indices()) {
            Ok(x) => x,
            Err(e) => {
                return forward(e, "rm_eqt");
            },
        };
        if !tmp_cell_path.is_bool() {
            return fail("rm_eqt", "result is no bool-cell");
        }
        self.add_rule(rule)
    }

    /// Scope-exchange: the binder at `outer_scope_id` and the binder right
    /// inside it swap places.
    pub fn scope_exchange(&mut self, outer_scope_id: CellID) -> (r: SRLResult<Cell>)
        requires
            old(self).wf(),
        ensures
            final(self).wf(),
            derived(old(self)@, final(self)@, scope_exchange_result(old(self)@.0, outer_scope_id@), r),
    {
        let outer_scope_path = match resolve(&self.rules, &outer_scope_id) {
            Ok(x) => x,
            Err(e) => {
                return forward(e, "scope_exchange");
            },
        };
        let (outer_id, inner) = match as_scope(outer_scope_path.get_cell()) {
            Some(x) => x,
            None => {
                return fail("scope_exchange", "outer cell is no scope");
            },
        };
        let (inner_id, body) = match as_scope(inner) {
            Some(x) => x,
            None => {
                return fail("scope_exchange", "inner cell is no scope");
            },
        };
        let rule = outer_scope_path.replace_by(scope(inner_id, scope(outer_id, body)));
        self.add_rule(rule)
    }

    /// Case-wrap: the term at `cell_id`, in a positive wrapper, becomes the
    /// conclusion of a branch on `arg_cell`.
    pub fn case_creation(&mut self, cell_id: CellID, arg_cell: Cell) -> (r: SRLResult<Cell>)
        requires
            old(self).wf(),
        ensures
            final(self).wf(),
            derived(old(self)@, final(self)@, case_creation_result(old(self)@.0, cell_id@, arg_cell@), r),
    {
        let path = match resolve(&self.rules, &cell_id) {
            Ok(x) => x,
            Err(e) => {
                return forward(e, "case_creation");
            },
        };
        let wrapper = match path.get_wrapper() {
            Some(x) => x,
            None => {
                return fail("case_creation", "no wrapper");
            },
        };
        if !wrapper.is_positive() {
            return fail("case_creation", "wrapper is not positive");
        }
        let cell = path.get_cell();
        let rule = path.replace_by(case(arg_cell, cell));
        self.add_rule(rule)
    }
    /// Equals-substitution inside a branch: the evidence at `evidence_id`
    /// is the condition of a branch whose conclusion's wrapper surrounds
    /// `src_id`, in the same rule.
    pub fn equals_law_impl(&mut self, src_id: CellID, evidence_id: CellID) -> (r: SRLResult<Cell>)
        requires
            old(self).wf(),
        ensures
            final(self).wf(),
            derived(old(self)@, final(self)@, equals_law_impl_result(old(self)@.0, src_id@, evidence_id@), r),
    {
        let src_path = match resolve(&self.rules, &src_id) {
            Ok(x) => x,
            Err(e) => {
                return forward(e, "equals_law_impl");
            },
        };
        let evidence_path = match resolve(&self.rules, &evidence_id) {
            Ok(x) => x,
            Err(e) => {
                return forward(e, "equals_law_impl");
            },
        };
        let ev_indices = evidence_id.get_indices();
        if ev_indices.len() == 0 || ev_indices[ev_indices.len() - 1] != 0 {
            return fail("equals_law_impl", "evidence_id can't be condition of case-cell");
        }
        let parent = match evidence_path.get_parent() {
            Ok(x) => x,
            Err(e) => {
                return forward(e, "equals_law_impl");
            },
        };
        if as_case(parent.get_cell()).is_none() {
            return fail("equals_law_impl", "evidence_id can't be condition of case-cell (2)");
        }
        if src_id.get_rule_id() != evidence_id.get_rule_id() {
            return fail("equals_law_impl", "src_id and evidence_id are not in the same rule");
        }
        let conclusion = match parent.get_child(1) {
            Ok(x) => x,
            Err(e) => {
                return forward(e, "equals_law_impl");
            },
        };
        let wrapper = match conclusion.get_wrapper() {
            Some(x) => x,
            None => {
                return fail("equals_law_impl", "no wrapper");
            },
        };
        if !wrapper.is_around(&src_path) {
            return fail("equals_law_impl", "evi-wrapper is not around src_id");
        }
        let evi_cell = evidence_path.get_cell();
        if evi_cell.get_equals_cell_arguments().is_err() {
            return fail("equals_law_impl", "evidence is no equality");
        }
        let src_cell = src_path.get_cell();
        let new = match pick_other(&evi_cell, &src_cell) {
            Ok(x) => x,
            Err(e) => {
                return forward(e, "equals_law_impl");
            },
        };
        let rule = src_path.replace_by(new);
        self.add_rule(rule)
    }

    /// Scope-insertion: the binder at `scope_id` is dropped and each
    /// reference to it is replaced by a fresh copy of `cell`.
    pub fn scope_insertion(&mut self, scope_id: CellID, cell: Cell) -> (r: SRLResult<Cell>)
        requires
            old(self).wf(),
        ensures
            final(self).wf(),
            derived(old(self)@, final(self)@, scope_insertion_result(old(self)@.0, scope_id@, cell@), r),
    {
        let scope_path = match resolve(&self.rules, &scope_id) {
            Ok(x) => x,
            Err(e) => {
                return forward(e, "scope_insertion");
            },
        };
        let (id, body) = match as_scope(scope_path.get_cell()) {
            Some(x) => x,
            None => {
                return fail("scope_insertion", "scope_id does not represent scope");
            },
        };
        let child_path = match scope_path.get_child(0) {
            Ok(x) => x,
            Err(e) => {
                return forward(e, "scope_insertion");
            },
        };
        proof {
            crate::navi::lemma_path_last(scope_path@.0, scope_path@.1.push(0));
            assert(scope_path@.1.push(0).drop_last() =~= scope_path@.1);
        }
        if !child_path.is_complete_bool() {
            return fail("scope_insertion", "body is no complete bool cell");
        }
        let wrapper = match scope_path.get_wrapper() {
            Some(x) => x,
            None => {
                return fail("scope_insertion", "no wrapper");
            },
        };
        if !wrapper.is_positive() {
            return fail("scope_insertion", "wrapper is not positive");
        }
        let norm = match cell.get_normalized() {
            Ok(x) => x,
            Err(e) => {
                return forward(e, "scope_insertion");
            },
        };
        proof {
            crate::normalize::lemma_next_id_bound(norm@);
            crate::normalize::lemma_next_id_bound(scope_path@.0);
        }
        let amount = norm.get_next_id();
        let mut next = scope_path.get_root_cell().get_next_id();
        let new_body = match insert_cell(&body, id, &cell, &mut next, amount) {
            Ok(x) => x,
            Err(e) => {
                return forward(e, "scope_insertion");
            },
        };
        let rule = scope_path.replace_by(new_body);
        self.add_rule(rule)
    }

    /// Scope-creation: the full boolean term at `scope_id`, in a negative
    /// wrapper, is wrapped in a fresh binder, and the equal subterms at the
    /// relative paths `indices` become references to it.
    pub fn scope_creation(&mut self, scope_id: CellID, indices: Vec<Vec<usize>>) -> (r: SRLResult<Cell>)
        requires
            old(self).wf(),
        ensures
            final(self).wf(),
            derived(
                old(self)@,
                final(self)@,
                scope_creation_result(old(self)@.0, scope_id@, path_views(indices@)),
                r,
            ),
    {
        let scope_path = match resolve(&self.rules, &scope_id) {
            Ok(x) => x,
            Err(e) => {
                return forward(e, "scope_creation");
            },
        };
        if !scope_path.is_complete_bool() {
            return fail("scope_creation", "scope_id does not contain a complete bool-cell");
        }
        let wrapper = match scope_path.get_wrapper() {
            Some(x) => x,
            None => {
                return fail("scope_creation", "no wrapper");
            },
        };
        if wrapper.is_positive() {
            return fail("scope_creation", "wrapper is positive");
        }
        let cell = scope_path.get_cell();
        if !check_paths(&cell, &indices) {
            return fail("scope_creation", "indices do not represent the same cells");
        }
        let new_id = scope_path.get_root_cell().get_next_id();
        if new_id > 0xffff_ffff {
            return fail("scope_creation", "no fresh id left");
        }
        let new_id = new_id as u32;
        let start = scope_path.replace_by(scope(new_id, cell));
        let mut base = scope_path.get_indices();
        base.push(0);
        let rule = match refs_at(start, &base, &indices, new_id) {
            Ok(x) => x,
            Err(e) => {
                return forward(e, "scope_creation");
            },
        };
        self.add_rule(rule)
    }

    /// Implication-derivation: from `[=> c d]` at `case_id` and
    /// `[=> (= 'false' c) d]` at `case_negation_id`, under equal positive
    /// wrappers without existential exposure, `d` becomes a rule.
    pub fn implications_derivation(&mut self, case_id: CellID, case_negation_id: CellID) -> (r: SRLResult<Cell>)
        requires
            old(self).wf(),
        ensures
            final(self).wf(),
            derived(
                old(self)@,
                final(self)@,
                implications_derivation_result(old(self)@.0, case_id@, case_negation_id@),
                r,
            ),
    {
        let case_path = match resolve(&self.rules, &case_id) {
            Ok(x) => x,
            Err(e) => {
                return forward(e, "implications_derivation");
            },
        };
        let case_negation_path = match resolve(&self.rules, &case_negation_id) {
            Ok(x) => x,
            Err(e) => {
                return forward(e, "implications_derivation");
            },
        };
        let (case_condition, case_conclusion) = match as_case(case_path.get_cell()) {
            Some(x) => x,
            None => {
                return fail("implications_derivation", "case_id does not represent case-cell");
            },
        };
        let (case_negation_condition, case_negation_conclusion) = match as_case(
            case_negation_path.get_cell(),
        ) {
            Some(x) => x,
            None => {
                return fail("implications_derivation", "case_negation_id does not represent case-cell");
            },
        };
        if !case_conclusion.matches(&case_negation_conclusion) {
            return fail("implications_derivation", "conclusions differ");
        }
        if !equals_cell(false_cell(), case_condition).matches(&case_negation_condition) {
            return fail("implications_derivation", "conditions are not correct");
        }
        let case_wrapper = match case_path.get_wrapper() {
            Some(x) => x,
            None => {
                return fail("implications_derivation", "no wrapper (1)");
            },
        };
        let case_negation_wrapper = match case_negation_path.get_wrapper() {
            Some(x) => x,
            None => {
                return fail("implications_derivation", "no wrapper (2)");
            },
        };
        if !case_wrapper.eq(&case_negation_wrapper) {
            return fail("implications_derivation", "different wrappers");
        }
        if !case_wrapper.is_nexq() {
            return fail("implications_derivation", "wrapper contains existance quantor");
        }
        if !case_wrapper.is_positive() {
            return fail("implications_derivation", "wrapper is negative");
        }
        self.add_rule(case_conclusion)
    }

    /// Declaration: `(= 'false' {id (= 'false' body)})` at `cell_id` becomes
    /// `body` with each reference to `id` replaced by the atom `string`, a
    /// name that occurs in no rule yet.
    pub fn declaration(&mut self, cell_id: CellID, string: &str) -> (r: SRLResult<Cell>)
        requires
            old(self).wf(),
        ensures
            final(self).wf(),
            derived(old(self)@, final(self)@, declaration_result(old(self)@.0, cell_id@, string@), r),
    {
        if self.contains_cellname(string) {
            return fail("declaration", "string does already occur");
        }
        let cell_path = match resolve(&self.rules, &cell_id) {
            Ok(x) => x,
            Err(e) => {
                return forward(e, "declaration");
            },
        };
        let wrapper = match cell_path.get_wrapper() {
            Some(x) => x,
            None => {
                return fail("declaration", "no wrapper");
            },
        };
        if !wrapper.is_positive() {
            return fail("declaration", "wrapper is negative");
        }
        if !wrapper.is_nallq() {
            return fail("declaration", "wrapper contains all quantor");
        }
        let (x, y) = match cell_path.get_cell().get_equals_cell_arguments() {
            Ok(p) => p,
            Err(e) => {
                return forward(e, "declaration");
            },
        };
        if !x.matches(&false_cell()) {
            return fail("declaration", "first arg of equals cell is not 'false'");
        }
        let (id, body) = match as_scope(y) {
            Some(p) => p,
            None => {
                return fail("declaration", "second arg is no scope");
            },
        };
        let (a, b) = match body.get_equals_cell_arguments() {
            Ok(p) => p,
            Err(e) => {
                return forward(e, "declaration");
            },
        };
        if !a.matches(&false_cell()) {
            return fail("declaration", "scope does not contain (= 'false' *)");
        }
        let atom = match try_simple(String::from_str(string)) {
            Ok(x) => x,
            Err(e) => {
                return forward(e, "declaration");
            },
        };
        let new = b.replace_all(&var(id), &atom);
        let rule = cell_path.replace_by(new);
        self.add_rule(rule)
    }
}

} // verus!
