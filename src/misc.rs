//! Small helpers on strings, indices and equality terms.
use vstd::prelude::*;
use crate::cell::{Cell, is_equals};
use crate::error::{SRLResult, fail};
use crate::gen::equals_head;
use crate::term::lemma_group_view;

verus! {

/// Every character of `string` occurs in `list`.
pub fn contains_only(string: String, list: String) -> (r: bool)
    ensures
        r == (forall|i: int| 0 <= i < string@.len() ==> list@.contains(#[trigger] string@[i])),
{
    let n = string.as_str().unicode_len();
    let mut i: usize = 0;
    while i < n
        invariant
            n == string@.len(),
            i <= n,
            forall|j: int| 0 <= j < i ==> list@.contains(#[trigger] string@[j]),
        decreases n - i,
    {
        if !holds_char(list.as_str(), string.as_str().get_char(i)) {
            return false;
        }
        i += 1;
    }
    true
}

/// Some character of `string` occurs in `list`.
pub fn contains_some(string: String, list: String) -> (r: bool)
    ensures
        r == (exists|i: int| 0 <= i < string@.len() && list@.contains(#[trigger] string@[i])),
{
    let n = string.as_str().unicode_len();
    let mut i: usize = 0;
    while i < n
        invariant
            n == string@.len(),
            i <= n,
            forall|j: int| 0 <= j < i ==> !list@.contains(#[trigger] string@[j]),
        decreases n - i,
    {
        if holds_char(list.as_str(), string.as_str().get_char(i)) {
            return true;
        }
        i += 1;
    }
    false
}

/// `c` occurs in `s`.
pub fn holds_char(s: &str, c: char) -> (r: bool)
    ensures
        r == s@.contains(c),
{
    let n = s.unicode_len();
    let mut i: usize = 0;
    while i < n
        invariant
            n == s@.len(),
            i <= n,
            forall|j: int| 0 <= j < i ==> s@[j] != c,
        decreases n - i,
    {
        if s.get_char(i) == c {
            assert(s@[i as int] == c);
            return true;
        }
        i += 1;
    }
    false
}

pub fn index_in_len(index: usize, len: usize) -> (r: bool)
    ensures
        r == (index < len),
{
    index < len
}

impl Cell {
    /// The two operands of an equality term `(= a b)`.
    pub fn get_equals_cell_arguments(&self) -> (r: SRLResult<(Cell, Cell)>)
        ensures
            r is Ok <==> is_equals(self@),
            r is Ok ==> r->Ok_0.0@ == self@->Group_0[1] && r->Ok_0.1@ == self@->Group_0[2],
    {
        match self {
            Cell::Complex { cells } => {
                proof {
                    lemma_group_view(*self);
                }
                if cells.len() != 3 {
                    return fail("get_equals_cell_arguments", "complex cell does not have 3 arguments");
                }
                if !cells[0].matches(&equals_head()) {
                    return fail("get_equals_cell_arguments", "first cell is not =");
                }
                Ok((cells[1].clone(), cells[2].clone()))
            },
            _ => fail("get_equals_cell_arguments", "cell is not complex"),
        }
    }
}

} // verus!
