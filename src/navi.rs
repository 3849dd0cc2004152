//! Positions inside rules: handles (a rule index and a path of child
//! indices) and resolved positions (a root term and a path).
use vstd::prelude::*;
use crate::term::Term;
use crate::cell::{Cell, CellType, arity, child, with_child, type_of, is_equals, true_term, false_term};
use crate::error::{SRLResult, fail, forward};
use crate::misc::index_in_len;

verus! {

/// The subterm of `t` at path `p`.
pub open spec fn subterm(t: Term, p: Seq<usize>) -> Term
    decreases p.len(),
{
    if p.len() == 0 {
        t
    } else {
        subterm(child(t, p[0] as int), p.subrange(1, p.len() as int))
    }
}

/// Every index of `p` is in range for the term it is applied to.
pub open spec fn valid_path(t: Term, p: Seq<usize>) -> bool
    decreases p.len(),
{
    p.len() == 0 || (p[0] < arity(t) && valid_path(child(t, p[0] as int), p.subrange(1, p.len() as int)))
}

/// `t` with the subterm at `p` replaced by `c`.
pub open spec fn replace(t: Term, p: Seq<usize>, c: Term) -> Term
    decreases p.len(),
{
    if p.len() == 0 {
        c
    } else {
        with_child(t, p[0] as int, replace(child(t, p[0] as int), p.subrange(1, p.len() as int), c))
    }
}

/// A full boolean term: an equality, a binder, or a truth constant.
pub open spec fn complete_bool(t: Term) -> bool {
    is_equals(t) || t is Binder || t == true_term() || t == false_term()
}

/// The slot at `p` in `t` holds a boolean: a full boolean term, the whole
/// rule, or the body, condition or conclusion of its parent.
pub open spec fn bool_slot(t: Term, p: Seq<usize>) -> bool {
    complete_bool(subterm(t, p)) || p.len() == 0 || {
        let parent = subterm(t, p.drop_last());
        parent is Binder || parent is Branch
    }
}

/// Paths compose: walking `a` then `b` is walking `a + b`.
pub proof fn lemma_path_concat(t: Term, a: Seq<usize>, b: Seq<usize>)
    ensures
        subterm(t, a + b) == subterm(subterm(t, a), b),
        valid_path(t, a + b) == (valid_path(t, a) && valid_path(subterm(t, a), b)),
    decreases a.len(),
{
    if a.len() > 0 {
        assert((a + b).subrange(1, (a + b).len() as int) =~= a.subrange(1, a.len() as int) + b);
        assert((a + b)[0] == a[0]);
        lemma_path_concat(child(t, a[0] as int), a.subrange(1, a.len() as int), b);
    } else {
        assert(a + b =~= b);
    }
}

/// The path to the parent of a valid position, and the last index taken.
pub proof fn lemma_path_last(t: Term, p: Seq<usize>)
    requires
        p.len() > 0,
    ensures
        valid_path(t, p) == (valid_path(t, p.drop_last()) && p.last() < arity(
            subterm(t, p.drop_last()),
        )),
        subterm(t, p) == child(subterm(t, p.drop_last()), p.last() as int),
{
    let q = p.drop_last();
    let l = seq![p.last()];
    assert(p =~= q + l);
    lemma_path_concat(t, q, l);
    let s = subterm(t, q);
    assert(l.subrange(1, 1) =~= Seq::<usize>::empty());
    assert(subterm(s, l) == subterm(child(s, l[0] as int), l.subrange(1, 1)));
    assert(valid_path(s, l) == (l[0] < arity(s) && valid_path(child(s, l[0] as int), l.subrange(1, 1))));
}

/// Replacing at a valid position and reading there gives the new term back;
/// the position stays valid.
pub proof fn lemma_replace_then_read(t: Term, p: Seq<usize>, c: Term)
    requires
        valid_path(t, p),
    ensures
        valid_path(replace(t, p, c), p),
        subterm(replace(t, p, c), p) == c,
    decreases p.len(),
{
    if p.len() > 0 {
        let i = p[0] as int;
        let rest = p.subrange(1, p.len() as int);
        lemma_replace_then_read(child(t, i), rest, c);
        let r = replace(child(t, i), rest, c);
        assert(child(with_child(t, i, r), i) == r);
        assert(arity(with_child(t, i, r)) == arity(t));
    }
}

/// A rule index and a path inside that rule, independent of the rule's
/// contents.
pub struct CellID {
    rule_id: usize,
    indices: Vec<usize>,
}

impl View for CellID {
    type V = (usize, Seq<usize>);

    closed spec fn view(&self) -> (usize, Seq<usize>) {
        (self.rule_id, self.indices@)
    }
}

impl Clone for CellID {
    fn clone(&self) -> (r: CellID)
        ensures
            r@ == self@,
    {
        let r = CellID { rule_id: self.rule_id, indices: self.indices.clone() };
        assert(r.indices@ =~= self.indices@);
        r
    }
}

/// Element-wise equality of two paths.
pub(crate) fn same_path(a: &Vec<usize>, b: &Vec<usize>) -> (r: bool)
    ensures
        r == (a@ == b@),
{
    if a.len() != b.len() {
        return false;
    }
    let mut i: usize = 0;
    while i < a.len()
        invariant
            a@.len() == b@.len(),
            i <= a@.len(),
            forall|j: int| 0 <= j < i ==> a@[j] == b@[j],
        decreases a.len() - i,
    {
        if a[i] != b[i] {
            return false;
        }
        i += 1;
    }
    assert(a@ =~= b@);
    true
}

impl PartialEq for CellID {
    fn eq(&self, other: &CellID) -> (r: bool)
        ensures
            r == (self@ == other@),
    {
        self.rule_id == other.rule_id && same_path(&self.indices, &other.indices)
    }
}

impl vstd::std_specs::cmp::PartialEqSpecImpl for CellID {
    open spec fn obeys_eq_spec() -> bool {
        true
    }

    open spec fn eq_spec(&self, other: &CellID) -> bool {
        self@ == other@
    }
}

impl PartialEq for CellPath {
    fn eq(&self, other: &CellPath) -> (r: bool)
        ensures
            r == (self@ == other@),
    {
        self.root_cell.matches(&other.root_cell) && same_path(&self.indices, &other.indices)
    }
}

impl vstd::std_specs::cmp::PartialEqSpecImpl for CellPath {
    open spec fn obeys_eq_spec() -> bool {
        true
    }

    open spec fn eq_spec(&self, other: &CellPath) -> bool {
        self@ == other@
    }
}

/// Moves the last index of `v` one down, or one up, where it can.
fn step_last(v: &mut Vec<usize>, down: bool) -> (ok: bool)
    requires
        old(v)@.len() > 0,
    ensures
        ok == (if down {
            old(v)@.last() > 0
        } else {
            old(v)@.last() < usize::MAX
        }),
        ok ==> final(v)@ == old(v)@.drop_last().push(
            (if down {
                old(v)@.last() - 1
            } else {
                old(v)@.last() + 1
            }) as usize,
        ),
{
    let n = v.len();
    let last = v[n - 1];
    if down {
        if last == 0 {
            return false;
        }
        v.set(n - 1, last - 1);
    } else {
        if last == usize::MAX {
            return false;
        }
        v.set(n - 1, last + 1);
    }
    assert(v@ =~= old(v)@.drop_last().push(v@.last()));
    true
}

impl CellID {
    pub fn create(rule_index: usize, indices: Vec<usize>) -> (r: CellID)
        ensures
            r@ == (rule_index, indices@),
    {
        CellID { rule_id: rule_index, indices }
    }

    /// Resolves this handle against `rules`.
    pub fn get_path(&self, rules: &Vec<Cell>) -> (r: SRLResult<CellPath>)
        ensures
            r is Ok <==> self@.0 < rules@.len() && valid_path(rules@[self@.0 as int]@, self@.1),
            r is Ok ==> r->Ok_0@ == (rules@[self@.0 as int]@, self@.1),
    {
        if index_in_len(self.rule_id, rules.len()) {
            CellPath::create(rules[self.rule_id].clone(), self.indices.clone())
        } else {
            fail("CellID::get_path", "index of rule_id out of range")
        }
    }

    pub fn get_rule_id(&self) -> (r: usize)
        ensures
            r == self@.0,
    {
        self.rule_id
    }

    pub fn get_indices(&self) -> (r: Vec<usize>)
        ensures
            r@ == self@.1,
    {
        self.indices.clone()
    }

    pub fn get_parent(&self) -> (r: SRLResult<CellID>)
        ensures
            r is Ok <==> self@.1.len() > 0,
            r is Ok ==> r->Ok_0@ == (self@.0, self@.1.drop_last()),
    {
        let mut v = self.indices.clone();
        match v.pop() {
            Some(_) => Ok(CellID::create(self.rule_id, v)),
            None => fail("CellID::get_parent", "no parent"),
        }
    }

    pub fn get_child(&self, index: usize) -> (r: SRLResult<CellID>)
        ensures
            r is Ok,
            r is Ok ==> r->Ok_0@ == (self@.0, self@.1.push(index)),
    {
        let mut v = self.indices.clone();
        v.push(index);
        Ok(CellID::create(self.rule_id, v))
    }

    pub fn get_left_sibling(&self) -> (r: SRLResult<CellID>)
        ensures
            r is Ok <==> self@.1.len() > 0 && self@.1.last() > 0,
            r is Ok ==> r->Ok_0@ == (self@.0, self@.1.drop_last().push((self@.1.last() - 1) as usize)),
    {
        let mut v = self.indices.clone();
        if v.len() == 0 {
            return fail("CellID::get_left_sibling", "no parent");
        }
        if !step_last(&mut v, true) {
            return fail("CellID::get_left_sibling", "no left sibling");
        }
        Ok(CellID::create(self.rule_id, v))
    }

    pub fn get_right_sibling(&self) -> (r: SRLResult<CellID>)
        ensures
            r is Ok <==> self@.1.len() > 0 && self@.1.last() < usize::MAX,
            r is Ok ==> r->Ok_0@ == (self@.0, self@.1.drop_last().push((self@.1.last() + 1) as usize)),
    {
        let mut v = self.indices.clone();
        if v.len() == 0 {
            return fail("CellID::get_right_sibling", "no parent");
        }
        if !step_last(&mut v, false) {
            return fail("CellID::get_right_sibling", "index out of range");
        }
        Ok(CellID::create(self.rule_id, v))
    }

    /// This handle resolves against `rules`.
    pub fn is_valid(&self, rules: &Vec<Cell>) -> (r: bool)
        ensures
            r == (self@.0 < rules@.len() && valid_path(rules@[self@.0 as int]@, self@.1)),
    {
        self.get_path(rules).is_ok()
    }
}

/// A position resolved against a root term: the root and a valid path in it.
pub struct CellPath {
    root_cell: Cell,
    indices: Vec<usize>,
}

impl View for CellPath {
    type V = (Term, Seq<usize>);

    closed spec fn view(&self) -> (Term, Seq<usize>) {
        (self.root_cell@, self.indices@)
    }
}

impl Clone for CellPath {
    fn clone(&self) -> (r: CellPath)
        ensures
            r@ == self@,
    {
        let r = CellPath { root_cell: self.root_cell.clone(), indices: self.indices.clone() };
        assert(r.indices@ =~= self.indices@);
        r
    }
}

/// A copy of the subterm of `root` at `indices[from..]`.
fn cell_at(root: &Cell, indices: &Vec<usize>, from: usize) -> (r: Cell)
    requires
        from <= indices@.len(),
        valid_path(root@, indices@.subrange(from as int, indices@.len() as int)),
    ensures
        r@ == subterm(root@, indices@.subrange(from as int, indices@.len() as int)),
{
    let mut cell = root.clone();
    let mut i: usize = from;
    while i < indices.len()
        invariant
            from <= i <= indices@.len(),
            valid_path(cell@, indices@.subrange(i as int, indices@.len() as int)),
            subterm(cell@, indices@.subrange(i as int, indices@.len() as int)) == subterm(
                root@,
                indices@.subrange(from as int, indices@.len() as int),
            ),
        decreases indices.len() - i,
    {
        let ghost rest = indices@.subrange(i as int, indices@.len() as int);
        assert(rest.subrange(1, rest.len() as int) =~= indices@.subrange(i + 1, indices@.len() as int));
        cell = cell.get_subcell(indices[i]);
        i += 1;
    }
    assert(indices@.subrange(i as int, indices@.len() as int) =~= Seq::<usize>::empty());
    cell
}

/// Is `indices[from..]` a valid path in `root`?
fn path_ok(root: &Cell, indices: &Vec<usize>, from: usize) -> (r: bool)
    requires
        from <= indices@.len(),
    ensures
        r == valid_path(root@, indices@.subrange(from as int, indices@.len() as int)),
{
    let mut cell = root.clone();
    let mut i: usize = from;
    while i < indices.len()
        invariant
            from <= i <= indices@.len(),
            valid_path(cell@, indices@.subrange(i as int, indices@.len() as int)) == valid_path(
                root@,
                indices@.subrange(from as int, indices@.len() as int),
            ),
        decreases indices.len() - i,
    {
        let ghost rest = indices@.subrange(i as int, indices@.len() as int);
        assert(rest.subrange(1, rest.len() as int) =~= indices@.subrange(i + 1, indices@.len() as int));
        if !index_in_len(indices[i], cell.count_subcells()) {
            return false;
        }
        cell = cell.get_subcell(indices[i]);
        i += 1;
    }
    true
}

/// `root` with the subterm at `indices[from..]` replaced by `cell`.
fn replace_at(root: &Cell, indices: &Vec<usize>, from: usize, cell: Cell) -> (r: Cell)
    requires
        from <= indices@.len(),
        valid_path(root@, indices@.subrange(from as int, indices@.len() as int)),
    ensures
        r@ == replace(root@, indices@.subrange(from as int, indices@.len() as int), cell@),
    decreases indices@.len() - from,
{
    let ghost p = indices@.subrange(from as int, indices@.len() as int);
    if from == indices.len() {
        return cell;
    }
    assert(p.subrange(1, p.len() as int) =~= indices@.subrange(from + 1, indices@.len() as int));
    let index = indices[from];
    let sub = root.get_subcell(index);
    let inner = replace_at(&sub, indices, from + 1, cell);
    root.with_subcell(inner, index)
}

impl CellPath {
    /// Well-formed: the path is valid in the root.
    pub open spec fn wf(&self) -> bool {
        valid_path(self@.0, self@.1)
    }

    /// The position at `indices` in `root_cell`, if every index is in range.
    pub fn create(root_cell: Cell, indices: Vec<usize>) -> (r: SRLResult<CellPath>)
        ensures
            r is Ok <==> valid_path(root_cell@, indices@),
            r is Ok ==> r->Ok_0@ == (root_cell@, indices@),
    {
        assert(indices@.subrange(0, indices@.len() as int) =~= indices@);
        if path_ok(&root_cell, &indices, 0) {
            Ok(CellPath { root_cell, indices })
        } else {
            fail("CellPath::create", "index is unacceptable")
        }
    }

    /// A copy of the term at this position.
    pub fn get_cell(&self) -> (r: Cell)
        requires
            self.wf(),
        ensures
            r@ == subterm(self@.0, self@.1),
    {
        assert(self.indices@.subrange(0, self.indices@.len() as int) =~= self.indices@);
        cell_at(&self.root_cell, &self.indices, 0)
    }

    /// The term here is a full boolean term.
    pub fn is_complete_bool(&self) -> (r: bool)
        requires
            self.wf(),
        ensures
            r == complete_bool(subterm(self@.0, self@.1)),
    {
        let my_cell = self.get_cell();
        if my_cell.get_equals_cell_arguments().is_ok() {
            return true;
        }
        if let Cell::Scope { .. } = my_cell {
            return true;
        }
        if my_cell.matches(&crate::gen::true_cell()) {
            return true;
        }
        if my_cell.matches(&crate::gen::false_cell()) {
            return true;
        }
        false
    }

    /// The slot here holds a boolean: a full boolean term, the whole rule,
    /// or the body, condition or conclusion of its parent.
    pub fn is_bool(&self) -> (r: bool)
        requires
            self.wf(),
        ensures
            r == bool_slot(self@.0, self@.1),
    {
        if self.is_complete_bool() {
            return true;
        }
        let parent = match self.get_parent() {
            Ok(x) => x,
            Err(_) => {
                return true;
            },
        };
        match parent.get_cell() {
            Cell::Scope { .. } | Cell::Case { .. } => true,
            _ => false,
        }
    }

    pub fn get_parent(&self) -> (r: SRLResult<CellPath>)
        requires
            self.wf(),
        ensures
            r is Ok <==> self@.1.len() > 0,
            r is Ok ==> r->Ok_0@ == (self@.0, self@.1.drop_last()) && r->Ok_0.wf(),
    {
        let mut v = self.indices.clone();
        match v.pop() {
            Some(_) => {
                proof {
                    lemma_path_last(self@.0, self@.1);
                }
                CellPath::create(self.root_cell.clone(), v)
            },
            None => fail("CellPath::get_parent", "no parent"),
        }
    }

    pub fn get_child(&self, index: usize) -> (r: SRLResult<CellPath>)
        requires
            self.wf(),
        ensures
            r is Ok <==> index < arity(subterm(self@.0, self@.1)),
            r is Ok ==> r->Ok_0@ == (self@.0, self@.1.push(index)) && r->Ok_0.wf(),
    {
        let mut v = self.indices.clone();
        v.push(index);
        proof {
            lemma_path_last(self@.0, v@);
            assert(v@.drop_last() =~= self@.1);
        }
        CellPath::create(self.root_cell.clone(), v)
    }

    pub fn get_left_sibling(&self) -> (r: SRLResult<CellPath>)
        requires
            self.wf(),
        ensures
            r is Ok <==> self@.1.len() > 0 && self@.1.last() > 0,
            r is Ok ==> r->Ok_0@ == (self@.0, self@.1.drop_last().push((self@.1.last() - 1) as usize))
                && r->Ok_0.wf(),
    {
        if self.indices.len() == 0 {
            return fail("CellPath::get_left_sibling", "no parent");
        }
        let index = self.indices[self.indices.len() - 1];
        if index == 0 {
            return fail("CellPath::get_left_sibling", "no left sibling");
        }
        proof {
            lemma_path_last(self@.0, self@.1);
        }
        let parent = match self.get_parent() {
            Ok(x) => x,
            Err(e) => {
                return forward(e, "CellPath::get_left_sibling");
            },
        };
        parent.get_child(index - 1)
    }

    pub fn get_right_sibling(&self) -> (r: SRLResult<CellPath>)
        requires
            self.wf(),
        ensures
            r is Ok <==> self@.1.len() > 0 && self@.1.last() < usize::MAX && self@.1.last() + 1
                < arity(subterm(self@.0, self@.1.drop_last())),
            r is Ok ==> r->Ok_0@ == (self@.0, self@.1.drop_last().push((self@.1.last() + 1) as usize))
                && r->Ok_0.wf(),
    {
        if self.indices.len() == 0 {
            return fail("CellPath::get_right_sibling", "no parent");
        }
        let index = self.indices[self.indices.len() - 1];
        proof {
            lemma_path_last(self@.0, self@.1);
        }
        let parent = match self.get_parent() {
            Ok(x) => x,
            Err(e) => {
                return forward(e, "CellPath::get_right_sibling");
            },
        };
        if index == usize::MAX {
            return fail("CellPath::get_right_sibling", "index out of range");
        }
        parent.get_child(index + 1)
    }

    /// A new root: this one with the term at this position replaced by
    /// `cell`. No term is changed in place.
    pub fn replace_by(&self, cell: Cell) -> (r: Cell)
        requires
            self.wf(),
        ensures
            r@ == replace(self@.0, self@.1, cell@),
    {
        assert(self.indices@.subrange(0, self.indices@.len() as int) =~= self.indices@);
        replace_at(&self.root_cell, &self.indices, 0, cell)
    }

    pub fn get_type(&self) -> (r: CellType)
        requires
            self.wf(),
        ensures
            r == type_of(subterm(self@.0, self@.1)),
    {
        self.get_cell().get_type()
    }

    pub fn get_root_cell(&self) -> (r: Cell)
        ensures
            r@ == self@.0,
    {
        self.root_cell.clone()
    }

    pub fn get_indices(&self) -> (r: Vec<usize>)
        ensures
            r@ == self@.1,
    {
        self.indices.clone()
    }
}

} // verus!
