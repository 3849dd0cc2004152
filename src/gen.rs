//! Constructors for terms, and the names an atom may carry.
use vstd::prelude::*;
use vstd::string::StringExecFns;
use crate::cell::{Cell, eq_head, equals_term, false_term, true_term};
use crate::error::{SRLResult, fail};
use crate::term::{Term, view_cells};

verus! {

broadcast use crate::term::lemma_view_cells;

/// Characters that delimit tokens and may not occur in a name.
pub open spec fn is_reserved(c: char) -> bool {
    c == ' ' || c == '\t' || c == '\n' || c == '\r' || c == '(' || c == ')' || c == '{' || c
        == '}' || c == '[' || c == ']' || c == '.'
}

pub open spec fn is_digit(c: char) -> bool {
    '0' <= c <= '9'
}

/// A name that can stand for an atom: non-empty, without delimiters, and
/// not a numeral (a numeral is a reference).
pub open spec fn valid_name(s: Seq<char>) -> bool {
    &&& s.len() > 0
    &&& forall|i: int| 0 <= i < s.len() ==> !is_reserved(#[trigger] s[i])
    &&& exists|i: int| 0 <= i < s.len() && !is_digit(#[trigger] s[i])
}

pub fn is_reserved_char(c: char) -> (r: bool)
    ensures
        r == is_reserved(c),
{
    c == ' ' || c == '\t' || c == '\n' || c == '\r' || c == '(' || c == ')' || c == '{' || c
        == '}' || c == '[' || c == ']' || c == '.'
}

pub fn is_digit_char(c: char) -> (r: bool)
    ensures
        r == is_digit(c),
{
    '0' <= c && c <= '9'
}

/// True iff `s` can name an atom.
pub fn is_valid_name(s: &str) -> (r: bool)
    ensures
        r == valid_name(s@),
{
    let n = s.unicode_len();
    if n == 0 {
        return false;
    }
    let mut i: usize = 0;
    let mut numeral = true;
    while i < n
        invariant
            n == s@.len(),
            i <= n,
            forall|j: int| 0 <= j < i ==> !is_reserved(#[trigger] s@[j]),
            numeral == (forall|j: int| 0 <= j < i ==> is_digit(#[trigger] s@[j])),
        decreases n - i,
    {
        let c = s.get_char(i);
        if is_reserved_char(c) {
            return false;
        }
        if !is_digit_char(c) {
            numeral = false;
        }
        i += 1;
    }
    !numeral
}

/// The atom named `s`, whatever `s` holds.
pub fn simple_by_str(s: &str) -> (r: Cell)
    ensures
        r@ == Term::Atom(s@),
{
    Cell::Simple { string: String::from_str(s) }
}

/// The atom named `string`, or a failure if it is no valid name.
pub fn try_simple(string: String) -> (r: SRLResult<Cell>)
    ensures
        r is Ok <==> valid_name(string@),
        r is Ok ==> r->Ok_0@ == Term::Atom(string@),
{
    if is_valid_name(string.as_str()) {
        Ok(Cell::Simple { string })
    } else {
        fail("try_simple", "not a valid name")
    }
}

pub fn complex(cells: Vec<Cell>) -> (r: Cell)
    ensures
        r@ == Term::Group(view_cells(cells@)),
{
    Cell::Complex { cells }
}

pub fn scope(id: u32, body: Cell) -> (r: Cell)
    ensures
        r@ == Term::Binder(id, Box::new(body@)),
{
    Cell::Scope { id, body: Box::new(body) }
}

pub fn var(id: u32) -> (r: Cell)
    ensures
        r@ == Term::Ref(id),
{
    Cell::Var { id }
}

pub fn case(condition: Cell, conclusion: Cell) -> (r: Cell)
    ensures
        r@ == Term::Branch(Box::new(condition@), Box::new(conclusion@)),
{
    Cell::Case { condition: Box::new(condition), conclusion: Box::new(conclusion) }
}

/// The head `=` of an equality term.
pub fn equals_head() -> (r: Cell)
    ensures
        r@ == eq_head(),
{
    proof {
        reveal_strlit("=");
    }
    let r = simple_by_str("=");
    assert(r@->Atom_0 =~= eq_head()->Atom_0);
    r
}

/// The equality term `(= a b)`.
pub fn equals_cell(a: Cell, b: Cell) -> (r: Cell)
    ensures
        r@ == equals_term(a@, b@),
{
    let mut cells: Vec<Cell> = Vec::new();
    cells.push(equals_head());
    cells.push(a);
    cells.push(b);
    let r = complex(cells);
    assert(view_cells(cells@) =~= seq![eq_head(), a@, b@]);
    r
}

pub fn true_cell() -> (r: Cell)
    ensures
        r@ == true_term(),
{
    proof {
        reveal_strlit("'true'");
    }
    let r = simple_by_str("'true'");
    assert(r@->Atom_0 =~= true_term()->Atom_0);
    r
}

pub fn false_cell() -> (r: Cell)
    ensures
        r@ == false_term(),
{
    proof {
        reveal_strlit("'false'");
    }
    let r = simple_by_str("'false'");
    assert(r@->Atom_0 =~= false_term()->Atom_0);
    r
}

} // verus!
