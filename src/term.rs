//! The mathematical model of terms, and the view of executable terms in it.
use vstd::prelude::*;
use crate::cell::Cell;

verus! {

/// The mathematical model of a term.
pub enum Term {
    /// An atomic symbol; a quoted constant keeps its quotes in the name.
    Atom(Seq<char>),
    /// An ordered sequence of terms; child 0 is the head.
    Group(Seq<Term>),
    /// Introduces one bound id over its body.
    Binder(u32, Box<Term>),
    /// Refers to the nearest enclosing binder with the same id.
    Ref(u32),
    /// A conditional: condition, then conclusion.
    Branch(Box<Term>, Box<Term>),
}

/// The views of a sequence of terms, one by one.
pub open spec fn view_cells(cells: Seq<Cell>) -> Seq<Term>
    decreases cells,
{
    if cells.len() == 0 {
        Seq::empty()
    } else {
        view_cells(cells.subrange(0, cells.len() - 1)).push(cells[cells.len() - 1].view())
    }
}

/// The view of a sequence of terms has one element per term, each its view.
pub broadcast proof fn lemma_view_cells(cells: Seq<Cell>)
    ensures
        (#[trigger] view_cells(cells)).len() == cells.len(),
        forall|i: int| 0 <= i < cells.len() ==> #[trigger] view_cells(cells)[i] == cells[i]@,
    decreases cells.len(),
{
    if cells.len() > 0 {
        let pre = cells.subrange(0, cells.len() - 1);
        lemma_view_cells(pre);
        assert(view_cells(cells) == view_cells(pre).push(cells[cells.len() - 1]@));
        assert forall|i: int| 0 <= i < cells.len() implies #[trigger] view_cells(cells)[i]
            == cells[i]@ by {
            if i < cells.len() - 1 {
                assert(pre[i] == cells[i]);
            }
        }
    }
}

impl View for Cell {
    type V = Term;

    open spec fn view(&self) -> Term
        decreases self,
    {
        match self {
            Cell::Simple { string } => Term::Atom(string@),
            Cell::Complex { cells } => Term::Group(view_cells(cells@)),
            Cell::Scope { id, body } => Term::Binder(*id, Box::new((**body).view())),
            Cell::Var { id } => Term::Ref(*id),
            Cell::Case { condition, conclusion } => Term::Branch(
                Box::new((**condition).view()),
                Box::new((**conclusion).view()),
            ),
        }
    }
}

/// The view of a group term lists the views of its children.
pub proof fn lemma_group_view(c: Cell)
    requires
        c is Complex,
    ensures
        c@ == Term::Group(view_cells(c->cells@)),
        c@->Group_0.len() == c->cells@.len(),
        forall|j: int| 0 <= j < c->cells@.len() ==> #[trigger] c@->Group_0[j] == c->cells@[j]@,
{
    lemma_view_cells(c->cells@);
}

} // verus!
