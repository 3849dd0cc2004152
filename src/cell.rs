//! The term model: an executable term type, its mathematical view, and the
//! structural operations on terms (child access, replacement, equality,
//! substitution and name search).
use vstd::prelude::*;
use crate::term::{Term, lemma_group_view};

verus! {

/// The shape of a term, without its contents.
#[derive(PartialEq, Eq, Structural, Clone, Copy, Debug)]
pub enum CellType {
    Simple,
    Complex,
    Scope,
    Var,
    Case,
}

/// An executable term.
#[derive(Debug)]
pub enum Cell {
    Simple { string: String },
    Complex { cells: Vec<Cell> },
    Scope { id: u32, body: Box<Cell> },
    Var { id: u32 },
    Case { condition: Box<Cell>, conclusion: Box<Cell> },
}

broadcast use crate::term::lemma_view_cells;

/// Number of children: a group's length, 1 for a binder, 2 for a branch.
pub open spec fn arity(t: Term) -> nat {
    match t {
        Term::Group(cs) => cs.len(),
        Term::Binder(_, _) => 1,
        Term::Branch(_, _) => 2,
        _ => 0,
    }
}

/// Child `i` of `t` (meaningful for `i < arity(t)`).
pub open spec fn child(t: Term, i: int) -> Term {
    match t {
        Term::Group(cs) => cs[i],
        Term::Binder(_, b) => *b,
        Term::Branch(c, d) => if i == 0 {
            *c
        } else {
            *d
        },
        _ => t,
    }
}

/// `t` with child `i` replaced by `c`.
pub open spec fn with_child(t: Term, i: int, c: Term) -> Term {
    match t {
        Term::Group(cs) => Term::Group(cs.update(i, c)),
        Term::Binder(id, _) => Term::Binder(id, Box::new(c)),
        Term::Branch(a, b) => if i == 0 {
            Term::Branch(Box::new(c), b)
        } else {
            Term::Branch(a, Box::new(c))
        },
        _ => t,
    }
}

pub open spec fn type_of(t: Term) -> CellType {
    match t {
        Term::Atom(_) => CellType::Simple,
        Term::Group(_) => CellType::Complex,
        Term::Binder(_, _) => CellType::Scope,
        Term::Ref(_) => CellType::Var,
        Term::Branch(_, _) => CellType::Case,
    }
}

/// The head of an equality term.
pub open spec fn eq_head() -> Term {
    Term::Atom(seq!['='])
}

/// The truth constant `'true'`.
pub open spec fn true_term() -> Term {
    Term::Atom(seq!['\'', 't', 'r', 'u', 'e', '\''])
}

/// The falsity constant `'false'`.
pub open spec fn false_term() -> Term {
    Term::Atom(seq!['\'', 'f', 'a', 'l', 's', 'e', '\''])
}

/// The equality term `(= a b)`.
pub open spec fn equals_term(a: Term, b: Term) -> Term {
    Term::Group(seq![eq_head(), a, b])
}

/// `t` is a three-element group headed by `=`.
pub open spec fn is_equals(t: Term) -> bool {
    &&& t is Group
    &&& t->Group_0.len() == 3
    &&& t->Group_0[0] == eq_head()
}

/// A quoted constant: an atom written between single quotes.
pub open spec fn is_constant_term(t: Term) -> bool {
    &&& t is Atom
    &&& t->Atom_0.len() >= 2
    &&& t->Atom_0[0] == '\''
    &&& t->Atom_0[t->Atom_0.len() - 1] == '\''
}

/// Every subterm equal to `target` replaced by `rep`, outermost first.
pub open spec fn replace_all(t: Term, target: Term, rep: Term) -> Term
    decreases t,
{
    if t == target {
        rep
    } else {
        match t {
            Term::Group(cs) => Term::Group(
                Seq::new(
                    cs.len(),
                    |i: int|
                        if 0 <= i < cs.len() {
                            replace_all(cs[i], target, rep)
                        } else {
                            Term::Ref(0)
                        },
                ),
            ),
            Term::Binder(id, b) => Term::Binder(id, Box::new(replace_all(*b, target, rep))),
            Term::Branch(c, d) => Term::Branch(
                Box::new(replace_all(*c, target, rep)),
                Box::new(replace_all(*d, target, rep)),
            ),
            _ => t,
        }
    }
}

/// Some atom of `t` is named `name`.
pub open spec fn mentions(t: Term, name: Seq<char>) -> bool
    decreases t,
{
    match t {
        Term::Atom(s) => s == name,
        Term::Group(cs) => mentions_seq(cs, name),
        Term::Binder(_, b) => mentions(*b, name),
        Term::Branch(c, d) => mentions(*c, name) || mentions(*d, name),
        Term::Ref(_) => false,
    }
}

/// Some atom of some term of `cs` is named `name`.
pub open spec fn mentions_seq(cs: Seq<Term>, name: Seq<char>) -> bool
    decreases cs,
{
    if cs.len() == 0 {
        false
    } else {
        mentions_seq(cs.subrange(0, cs.len() - 1), name) || mentions(cs[cs.len() - 1], name)
    }
}

/// Proves that a child of a group is smaller than the group, for
/// recursion over the children of an executable term.
pub proof fn lemma_child_decreases(c: Cell, i: int)
    requires
        c is Complex,
        0 <= i < c->cells@.len(),
    ensures
        decreases_to!(c => c->cells@[i]),
{
    vstd::std_specs::vec::axiom_vec_index_decreases(c->cells, i);
    assert(decreases_to!(c => c->cells));
}

/// Character-wise equality of two strings.
pub fn same_text(a: &str, b: &str) -> (r: bool)
    ensures
        r == (a@ == b@),
{
    let n = a.unicode_len();
    if n != b.unicode_len() {
        return false;
    }
    let mut i: usize = 0;
    while i < n
        invariant
            n == a@.len() == b@.len(),
            i <= n,
            forall|j: int| 0 <= j < i ==> a@[j] == b@[j],
        decreases n - i,
    {
        if a.get_char(i) != b.get_char(i) {
            return false;
        }
        i += 1;
    }
    assert(a@ =~= b@);
    true
}

impl Clone for Cell {
    /// A deep copy.
    fn clone(&self) -> (r: Cell)
        ensures
            r@ == self@,
        decreases self,
    {
        match self {
            Cell::Simple { string } => Cell::Simple { string: string.clone() },
            Cell::Complex { cells } => {
                proof {
                    lemma_group_view(*self);
                }
                let mut out: Vec<Cell> = Vec::new();
                let mut i: usize = 0;
                while i < cells.len()
                    invariant
                        *self is Complex,
                        self->cells == *cells,
                        i <= cells.len(),
                        out@.len() == i,
                        forall|j: int| 0 <= j < i ==> #[trigger] out@[j]@ == cells@[j]@,
                    decreases cells.len() - i,
                {
                    proof {
                        lemma_child_decreases(*self, i as int);
                    }
                    out.push(cells[i].clone());
                    i += 1;
                }
                let r = Cell::Complex { cells: out };
                proof {
                    lemma_group_view(r);
                    lemma_group_view(*self);
                }
                assert(r@->Group_0 =~= self@->Group_0);
                r
            },
            Cell::Scope { id, body } => Cell::Scope { id: *id, body: Box::new((**body).clone()) },
            Cell::Var { id } => Cell::Var { id: *id },
            Cell::Case { condition, conclusion } => Cell::Case {
                condition: Box::new((**condition).clone()),
                conclusion: Box::new((**conclusion).clone()),
            },
        }
    }
}

impl Cell {
    /// Structural match: this term stands for `other` exactly.
    pub fn matches(&self, other: &Cell) -> (r: bool)
        ensures
            r == (self@ == other@),
        decreases self,
    {
        match (self, other) {
            (Cell::Simple { string: a }, Cell::Simple { string: b }) => same_text(a.as_str(), b.as_str()),
            (Cell::Complex { cells: a }, Cell::Complex { cells: b }) => {
                proof {
                    lemma_group_view(*self);
                    lemma_group_view(*other);
                }
                if a.len() != b.len() {
                    assert(self@->Group_0.len() != other@->Group_0.len());
                    return false;
                }
                let mut i: usize = 0;
                while i < a.len()
                    invariant
                        *self is Complex,
                        self->cells == *a,
                        other@ == Term::Group(other@->Group_0),
                        self@ == Term::Group(self@->Group_0),
                        other@->Group_0.len() == a@.len(),
                        self@->Group_0.len() == a@.len(),
                        forall|j: int| 0 <= j < a@.len() ==> #[trigger] self@->Group_0[j] == a@[j]@,
                        forall|j: int| 0 <= j < b@.len() ==> #[trigger] other@->Group_0[j] == b@[j]@,
                        a.len() == b.len(),
                        i <= a.len(),
                        forall|j: int| 0 <= j < i ==> #[trigger] a@[j]@ == b@[j]@,
                    decreases a.len() - i,
                {
                    proof {
                        lemma_child_decreases(*self, i as int);
                    }
                    if !a[i].matches(&b[i]) {
                        assert(self@->Group_0[i as int] != other@->Group_0[i as int]);
                        return false;
                    }
                    i += 1;
                }
                assert(self@->Group_0 =~= other@->Group_0);
                true
            },
            (Cell::Scope { id: i1, body: b1 }, Cell::Scope { id: i2, body: b2 }) => {
                *i1 == *i2 && (**b1).matches(&**b2)
            },
            (Cell::Var { id: i1 }, Cell::Var { id: i2 }) => *i1 == *i2,
            (
                Cell::Case { condition: c1, conclusion: d1 },
                Cell::Case { condition: c2, conclusion: d2 },
            ) => { (**c1).matches(&**c2) && (**d1).matches(&**d2) },
            _ => {
                proof {
                    if *self is Complex {
                        lemma_group_view(*self);
                    }
                    if *other is Complex {
                        lemma_group_view(*other);
                    }
                }
                false
            },
        }
    }
}

impl PartialEq for Cell {
    /// Structural equality of the terms as they stand, binder ids included.
    ///
    /// Terms are compared up to renaming of binders only once they are
    /// normalized: every rule the database stores is in normal form, so for
    /// stored rules this equality is the alpha-equivalence of their sources.
    /// Subterms are compared as they stand, since a subterm may hold
    /// references to binders outside it and then has no normal form of its
    /// own.
    fn eq(&self, other: &Cell) -> (r: bool)
        ensures
            r == (self@ == other@),
    {
        self.matches(other)
    }
}

impl vstd::std_specs::cmp::PartialEqSpecImpl for Cell {
    open spec fn obeys_eq_spec() -> bool {
        true
    }

    open spec fn eq_spec(&self, other: &Cell) -> bool {
        self@ == other@
    }
}

impl Cell {
    /// Number of children of this term.
    pub fn count_subcells(&self) -> (r: usize)
        ensures
            r == arity(self@),
    {
        match self {
            Cell::Complex { cells } => {
                proof {
                    lemma_group_view(*self);
                }
                cells.len()
            },
            Cell::Scope { .. } => 1,
            Cell::Case { .. } => 2,
            _ => 0,
        }
    }

    /// A copy of child `index`.
    pub fn get_subcell(&self, index: usize) -> (r: Cell)
        requires
            index < arity(self@),
        ensures
            r@ == child(self@, index as int),
    {
        match self {
            Cell::Complex { cells } => {
                proof {
                    lemma_group_view(*self);
                }
                cells[index].clone()
            },
            Cell::Scope { body, .. } => (**body).clone(),
            Cell::Case { condition, conclusion } => {
                if index == 0 {
                    (**condition).clone()
                } else {
                    (**conclusion).clone()
                }
            },
            _ => self.clone(),
        }
    }

    /// A new term equal to this one with child `index` replaced by `cell`.
    pub fn with_subcell(&self, cell: Cell, index: usize) -> (r: Cell)
        requires
            index < arity(self@),
        ensures
            r@ == with_child(self@, index as int, cell@),
    {
        match self {
            Cell::Complex { cells } => {
                proof {
                    lemma_group_view(*self);
                }
                let mut out: Vec<Cell> = Vec::new();
                let mut i: usize = 0;
                while i < index
                    invariant
                        i <= index < cells.len(),
                        out@.len() == i,
                        forall|j: int| 0 <= j < i ==> #[trigger] out@[j]@ == cells@[j]@,
                    decreases index - i,
                {
                    out.push(cells[i].clone());
                    i += 1;
                }
                out.push(cell);
                i += 1;
                while i < cells.len()
                    invariant
                        index < i <= cells.len(),
                        out@.len() == i,
                        out@[index as int]@ == cell@,
                        forall|j: int|
                            0 <= j < i && j != index ==> #[trigger] out@[j]@ == cells@[j]@,
                    decreases cells.len() - i,
                {
                    out.push(cells[i].clone());
                    i += 1;
                }
                let r = Cell::Complex { cells: out };
                proof {
                    lemma_group_view(r);
                    lemma_group_view(*self);
                }
                assert(r@->Group_0 =~= self@->Group_0.update(index as int, cell@));
                r
            },
            Cell::Scope { id, .. } => Cell::Scope { id: *id, body: Box::new(cell) },
            Cell::Case { condition, conclusion } => {
                if index == 0 {
                    Cell::Case { condition: Box::new(cell), conclusion: Box::new((**conclusion).clone()) }
                } else {
                    Cell::Case { condition: Box::new((**condition).clone()), conclusion: Box::new(cell) }
                }
            },
            _ => self.clone(),
        }
    }

    /// True for a quoted constant.
    pub fn is_constant(&self) -> (r: bool)
        ensures
            r == is_constant_term(self@),
    {
        match self {
            Cell::Simple { string } => {
                let n = string.as_str().unicode_len();
                n >= 2 && string.as_str().get_char(0) == '\'' && string.as_str().get_char(n - 1)
                    == '\''
            },
            _ => false,
        }
    }

    /// The shape of this term.
    pub fn get_type(&self) -> (r: CellType)
        ensures
            r == type_of(self@),
    {
        match self {
            Cell::Simple { .. } => CellType::Simple,
            Cell::Complex { .. } => CellType::Complex,
            Cell::Scope { .. } => CellType::Scope,
            Cell::Var { .. } => CellType::Var,
            Cell::Case { .. } => CellType::Case,
        }
    }

    /// A copy of this term with every subterm equal to `target` replaced by
    /// `rep`; a replaced subterm is not searched further.
    pub fn replace_all(&self, target: &Cell, rep: &Cell) -> (r: Cell)
        ensures
            r@ == replace_all(self@, target@, rep@),
        decreases self,
    {
        if self.matches(target) {
            return rep.clone();
        }
        match self {
            Cell::Complex { cells } => {
                proof {
                    lemma_group_view(*self);
                }
                let mut out: Vec<Cell> = Vec::new();
                let mut i: usize = 0;
                while i < cells.len()
                    invariant
                        *self is Complex,
                        self->cells == *cells,
                        i <= cells.len(),
                        out@.len() == i,
                        forall|j: int|
                            0 <= j < i ==> #[trigger] out@[j]@ == replace_all(
                                cells@[j]@,
                                target@,
                                rep@,
                            ),
                    decreases cells.len() - i,
                {
                    proof {
                        lemma_child_decreases(*self, i as int);
                    }
                    out.push(cells[i].replace_all(target, rep));
                    i += 1;
                }
                let r = Cell::Complex { cells: out };
                proof {
                    lemma_group_view(r);
                    lemma_group_view(*self);
                }
                assert(r@->Group_0 =~= replace_all(self@, target@, rep@)->Group_0);
                r
            },
            Cell::Scope { id, body } => Cell::Scope {
                id: *id,
                body: Box::new((**body).replace_all(target, rep)),
            },
            Cell::Case { condition, conclusion } => Cell::Case {
                condition: Box::new((**condition).replace_all(target, rep)),
                conclusion: Box::new((**conclusion).replace_all(target, rep)),
            },
            _ => self.clone(),
        }
    }

    /// True iff some atom of this term is named `name`.
    pub fn contains_name(&self, name: &str) -> (r: bool)
        ensures
            r == mentions(self@, name@),
        decreases self,
    {
        match self {
            Cell::Simple { string } => same_text(string.as_str(), name),
            Cell::Complex { cells } => {
                proof {
                    lemma_group_view(*self);
                }
                let ghost cs = self@->Group_0;
                let mut i: usize = 0;
                while i < cells.len()
                    invariant
                        *self is Complex,
                        self->cells == *cells,
                        i <= cells.len(),
                        self@ == Term::Group(cs),
                        cs.len() == cells@.len(),
                        forall|j: int| 0 <= j < cells@.len() ==> #[trigger] cs[j] == cells@[j]@,
                        !mentions_seq(cs.subrange(0, i as int), name@),
                    decreases cells.len() - i,
                {
                    proof {
                        lemma_child_decreases(*self, i as int);
                        assert(cs.subrange(0, i + 1).subrange(0, i as int) =~= cs.subrange(0, i as int));
                    }
                    if cells[i].contains_name(name) {
                        proof {
                            assert(cs.subrange(0, i + 1)[i as int] == cs[i as int]);
                            lemma_mentions_prefix(cs, name@, i + 1);
                        }
                        return true;
                    }
                    i += 1;
                }
                assert(cs.subrange(0, i as int) =~= cs);
                false
            },
            Cell::Scope { body, .. } => (**body).contains_name(name),
            Cell::Case { condition, conclusion } => {
                (**condition).contains_name(name) || (**conclusion).contains_name(name)
            },
            Cell::Var { .. } => false,
        }
    }
}

/// A name found in a prefix of a sequence is found in the whole sequence.
pub proof fn lemma_mentions_prefix(cs: Seq<Term>, name: Seq<char>, k: int)
    requires
        0 <= k <= cs.len(),
        mentions_seq(cs.subrange(0, k), name),
    ensures
        mentions_seq(cs, name),
    decreases cs.len() - k,
{
    if k < cs.len() {
        assert(cs.subrange(0, k + 1).subrange(0, k) =~= cs.subrange(0, k));
        lemma_mentions_prefix(cs, name, k + 1);
    } else {
        assert(cs.subrange(0, k) =~= cs);
    }
}

} // verus!
