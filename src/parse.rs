//! The surface syntax of rules: a reader from text to terms and a writer
//! from terms to text.
//!
//! A rule is a list of terms closed by `.`: one term stands for itself,
//! several form a group. `(a b ..)` is a group, `{n a ..}` a binder with id
//! `n` over the term list `a ..`, `[=> c d]` a branch, a numeral a reference,
//! and any other name an atom.
use vstd::prelude::*;
use vstd::string::StringExecFns;
use crate::term::{Term, view_cells};
use crate::cell::Cell;
use crate::error::{SRLResult, fail};
use crate::gen::{valid_name, is_reserved, is_digit, is_reserved_char, is_digit_char, try_simple};
use crate::db::{Database, identity_cell, identity_term, is_normal};
use crate::normalize::normalize;

verus! {

broadcast use crate::term::lemma_view_cells;

/// A term the reader can produce: atoms carry valid names, groups are not
/// empty.
pub open spec fn wf_term(t: Term) -> bool
    decreases t,
{
    match t {
        Term::Atom(s) => valid_name(s),
        Term::Group(cs) => cs.len() > 0 && wf_seq(cs),
        Term::Binder(_, b) => wf_term(*b),
        Term::Branch(c, d) => wf_term(*c) && wf_term(*d),
        Term::Ref(_) => true,
    }
}

pub open spec fn wf_seq(cs: Seq<Term>) -> bool
    decreases cs,
{
    cs.len() == 0 || (wf_seq(cs.subrange(0, cs.len() - 1)) && wf_term(cs[cs.len() - 1]))
}

pub open spec fn is_space(c: char) -> bool {
    c == ' ' || c == '\t' || c == '\n' || c == '\r'
}

/// The decimal digit for `d < 10`.
pub open spec fn digit_char(d: nat) -> char {
    if d == 0 {
        '0'
    } else if d == 1 {
        '1'
    } else if d == 2 {
        '2'
    } else if d == 3 {
        '3'
    } else if d == 4 {
        '4'
    } else if d == 5 {
        '5'
    } else if d == 6 {
        '6'
    } else if d == 7 {
        '7'
    } else if d == 8 {
        '8'
    } else {
        '9'
    }
}

/// The decimal numeral of `n`.
pub open spec fn digits(n: nat) -> Seq<char>
    decreases n,
{
    if n < 10 {
        seq![digit_char(n)]
    } else {
        digits(n / 10).push(digit_char(n % 10))
    }
}

/// The text of a term.
pub open spec fn render(t: Term) -> Seq<char>
    decreases t,
{
    match t {
        Term::Atom(s) => s,
        Term::Ref(id) => digits(id as nat),
        Term::Group(cs) => seq!['('] + render_seq(cs) + seq![')'],
        Term::Binder(id, b) => seq!['{'] + digits(id as nat) + seq![' '] + render(*b) + seq!['}'],
        Term::Branch(c, d) => seq!['[', '=', '>', ' '] + render(*c) + seq![' '] + render(*d) + seq![
            ']',
        ],
    }
}

/// The texts of the terms of `cs`, separated by single spaces.
pub open spec fn render_seq(cs: Seq<Term>) -> Seq<char>
    decreases cs,
{
    if cs.len() == 0 {
        Seq::empty()
    } else if cs.len() == 1 {
        render(cs[0])
    } else {
        render_seq(cs.subrange(0, cs.len() - 1)) + seq![' '] + render(cs[cs.len() - 1])
    }
}

/// The text of a rule: a group without its parentheses, then `.`.
pub open spec fn render_rule(t: Term) -> Seq<char> {
    (if t is Group {
        render_seq(t->Group_0)
    } else {
        render(t)
    }) + seq!['.']
}

/// The first position at or after `pos` that holds no white space.
pub open spec fn skip_spec(cs: Seq<char>, pos: int) -> int
    decreases cs.len() - pos,
{
    if 0 <= pos < cs.len() && is_space(cs[pos]) {
        skip_spec(cs, pos + 1)
    } else {
        pos
    }
}

/// The end of the run of digits that starts at `pos`.
pub open spec fn digits_end(cs: Seq<char>, pos: int) -> int
    decreases cs.len() - pos,
{
    if 0 <= pos < cs.len() && is_digit(cs[pos]) {
        digits_end(cs, pos + 1)
    } else {
        pos
    }
}

/// The end of the name that starts at `pos`: the first white space or
/// delimiter.
pub open spec fn token_end(cs: Seq<char>, pos: int) -> int
    decreases cs.len() - pos,
{
    if 0 <= pos < cs.len() && !is_space(cs[pos]) && !is_reserved(cs[pos]) {
        token_end(cs, pos + 1)
    } else {
        pos
    }
}

/// The value of a decimal numeral.
pub open spec fn numeral_value(s: Seq<char>) -> int
    decreases s.len(),
{
    if s.len() == 0 {
        0
    } else {
        numeral_value(s.drop_last()) * 10 + (s.last() as int - '0' as int)
    }
}

/// The reference id written `cs[from..to]`: a non-empty numeral whose value
/// fits in `u32`.
pub open spec fn numeral_spec(cs: Seq<char>, from: int, to: int) -> Option<u32> {
    if 0 <= from < to <= cs.len() && (forall|j: int| from <= j < to ==> is_digit(#[trigger] cs[j]))
        && numeral_value(cs.subrange(from, to)) <= u32::MAX {
        Some(numeral_value(cs.subrange(from, to)) as u32)
    } else {
        None
    }
}

/// A list of terms: one stands for itself, several form a group.
pub open spec fn list_term_spec(ts: Seq<Term>) -> Term {
    if ts.len() == 1 {
        ts[0]
    } else {
        Term::Group(ts)
    }
}

/// Reads one term at `pos`, after white space: the term and the position
/// after it.
pub open spec fn read_term_spec(cs: Seq<char>, pos: int) -> Option<(Term, int)>
    decreases cs.len() - pos, 1nat,
{
    let p = skip_spec(cs, pos);
    if p < pos || p < 0 || p >= cs.len() {
        None
    } else if cs[p] == '(' {
        match read_list_spec(cs, p + 1, ')') {
            Some((ts, p2)) => if ts.len() == 0 {
                None
            } else {
                Some((Term::Group(ts), p2))
            },
            None => None,
        }
    } else if cs[p] == '{' {
        let q = skip_spec(cs, p + 1);
        let e = digits_end(cs, q);
        if q < p + 1 || e < q || e > cs.len() {
            None
        } else {
            match numeral_spec(cs, q, e) {
                Some(id) => match read_list_spec(cs, e, '}') {
                    Some((ts, p2)) => if ts.len() == 0 {
                        None
                    } else {
                        Some((Term::Binder(id, Box::new(list_term_spec(ts))), p2))
                    },
                    None => None,
                },
                None => None,
            }
        }
    } else if cs[p] == '[' {
        let q = skip_spec(cs, p + 1);
        if q < p + 1 || q + 1 >= cs.len() || cs[q] != '=' || cs[q + 1] != '>' {
            None
        } else {
            match read_list_spec(cs, q + 2, ']') {
                Some((ts, p2)) => if ts.len() != 2 {
                    None
                } else {
                    Some((Term::Branch(Box::new(ts[0]), Box::new(ts[1])), p2))
                },
                None => None,
            }
        }
    } else {
        let e = token_end(cs, p);
        if e <= p || e > cs.len() {
            None
        } else {
            match numeral_spec(cs, p, e) {
                Some(id) => Some((Term::Ref(id), e)),
                None => if valid_name(cs.subrange(p, e)) {
                    Some((Term::Atom(cs.subrange(p, e)), e))
                } else {
                    None
                },
            }
        }
    }
}

/// Reads terms at `pos` up to the character `close`: the terms and the
/// position after `close`.
pub open spec fn read_list_spec(cs: Seq<char>, pos: int, close: char) -> Option<(Seq<Term>, int)>
    decreases cs.len() - pos, 2nat,
{
    let p = skip_spec(cs, pos);
    if p < pos || p < 0 || p >= cs.len() {
        None
    } else if cs[p] == close {
        Some((Seq::empty(), p + 1))
    } else {
        match read_term_spec(cs, p) {
            Some((t, p2)) => if p2 <= p || p2 > cs.len() {
                None
            } else {
                match read_list_spec(cs, p2, close) {
                    Some((ts, p3)) => Some((seq![t] + ts, p3)),
                    None => None,
                }
            },
            None => None,
        }
    }
}

/// Reads the rules at `pos`, each a list of terms closed by `.`, up to the
/// end of the text.
pub open spec fn read_rules_spec(cs: Seq<char>, pos: int) -> Option<Seq<Term>>
    decreases cs.len() - pos,
{
    let p = skip_spec(cs, pos);
    if p < pos || p < 0 {
        None
    } else if p >= cs.len() {
        Some(Seq::empty())
    } else {
        match read_list_spec(cs, p, '.') {
            Some((ts, p2)) => if ts.len() == 0 || p2 <= p || p2 > cs.len() {
                None
            } else {
                match read_rules_spec(cs, p2) {
                    Some(rs) => Some(seq![list_term_spec(ts)] + rs),
                    None => None,
                }
            },
            None => None,
        }
    }
}

/// `pre` put in front of the terms of a reading result.
pub open spec fn prepend(pre: Seq<Term>, r: Option<(Seq<Term>, int)>) -> Option<(Seq<Term>, int)> {
    match r {
        Some((ts, p)) => Some((pre + ts, p)),
        None => None,
    }
}

proof fn lemma_prepend_push(pre: Seq<Term>, t: Term, r: Option<(Seq<Term>, int)>)
    ensures
        prepend(pre, prepend(seq![t], r)) == prepend(pre.push(t), r),
{
    if let Some((ts, p)) = r {
        assert(pre + (seq![t] + ts) =~= pre.push(t) + ts);
    }
}

/// `pre` put in front of the rules of a reading result.
pub open spec fn prepend_rules(pre: Seq<Term>, r: Option<Seq<Term>>) -> Option<Seq<Term>> {
    match r {
        Some(rs) => Some(pre + rs),
        None => None,
    }
}

proof fn lemma_prepend_rules_push(pre: Seq<Term>, t: Term, r: Option<Seq<Term>>)
    ensures
        prepend_rules(pre, prepend_rules(seq![t], r)) == prepend_rules(pre.push(t), r),
{
    if let Some(rs) = r {
        assert(pre + (seq![t] + rs) =~= pre.push(t) + rs);
    }
}

/// Every term of `ts` has a normal form.
pub open spec fn all_normalize(ts: Seq<Term>) -> bool {
    forall|i: int| 0 <= i < ts.len() ==> (#[trigger] normalize(ts[i], 0)) is Some
}

/// The normal forms of the terms of `ts`.
pub open spec fn normal_forms(ts: Seq<Term>) -> Seq<Term> {
    Seq::new(ts.len(), |i: int| normalize(ts[i], 0).unwrap())
}

fn is_space_char(c: char) -> (r: bool)
    ensures
        r == is_space(c),
{
    c == ' ' || c == '\t' || c == '\n' || c == '\r'
}

/// The text of the digit `d`.
fn digit_str(d: u32) -> (r: &'static str)
    requires
        d < 10,
    ensures
        r@ == seq![digit_char(d as nat)],
{
    proof {
        reveal_strlit("0");
        reveal_strlit("1");
        reveal_strlit("2");
        reveal_strlit("3");
        reveal_strlit("4");
        reveal_strlit("5");
        reveal_strlit("6");
        reveal_strlit("7");
        reveal_strlit("8");
        reveal_strlit("9");
    }
    let r = if d == 0 {
        "0"
    } else if d == 1 {
        "1"
    } else if d == 2 {
        "2"
    } else if d == 3 {
        "3"
    } else if d == 4 {
        "4"
    } else if d == 5 {
        "5"
    } else if d == 6 {
        "6"
    } else if d == 7 {
        "7"
    } else if d == 8 {
        "8"
    } else {
        "9"
    };
    assert(r@ =~= seq![digit_char(d as nat)]);
    r
}

/// Appends the numeral of `n`.
pub(crate) fn write_digits(n: u32, out: &mut String)
    ensures
        final(out)@ == old(out)@ + digits(n as nat),
    decreases n,
{
    if n >= 10 {
        write_digits(n / 10, out);
    }
    out.append(digit_str(n % 10));
    proof {
        if n >= 10 {
            assert(final(out)@ =~= old(out)@ + digits(n as nat));
        } else {
            assert(final(out)@ =~= old(out)@ + digits(n as nat));
        }
    }
}

/// Appends a literal text.
pub(crate) fn write_str(s: &str, out: &mut String)
    ensures
        final(out)@ == old(out)@ + s@,
{
    out.append(s);
}

impl Cell {
    /// Appends the text of this term.
    fn write_into(&self, out: &mut String)
        ensures
            final(out)@ == old(out)@ + render(self@),
        decreases self,
    {
        proof {
            reveal_strlit("(");
            reveal_strlit(")");
            reveal_strlit("{");
            reveal_strlit("}");
            reveal_strlit(" ");
            reveal_strlit("[=> ");
            reveal_strlit("]");
        }
        match self {
            Cell::Simple { string } => {
                write_str(string.as_str(), out);
            },
            Cell::Var { id } => {
                write_digits(*id, out);
            },
            Cell::Complex { cells } => {
                let ghost start = out@;
                write_str("(", out);
                self.write_children(out);
                write_str(")", out);
                proof {
                    crate::term::lemma_group_view(*self);
                    assert(out@ =~= start + render(self@));
                }
            },
            Cell::Scope { id, body } => {
                let ghost start = out@;
                write_str("{", out);
                write_digits(*id, out);
                write_str(" ", out);
                (**body).write_into(out);
                write_str("}", out);
                assert(out@ =~= start + render(self@));
            },
            Cell::Case { condition, conclusion } => {
                let ghost start = out@;
                write_str("[=> ", out);
                (**condition).write_into(out);
                write_str(" ", out);
                (**conclusion).write_into(out);
                write_str("]", out);
                assert(out@ =~= start + render(self@));
            },
        }
    }

    /// Appends the texts of the children of a group, separated by spaces.
    fn write_children(&self, out: &mut String)
        requires
            *self is Complex,
        ensures
            final(out)@ == old(out)@ + render_seq(self@->Group_0),
        decreases self, 0nat,
    {
        proof {
            reveal_strlit(" ");
            crate::term::lemma_group_view(*self);
        }
        let ghost cs = self@->Group_0;
        let ghost start = out@;
        match self {
            Cell::Complex { cells } => {
                let mut i: usize = 0;
                assert(cs.subrange(0, 0) =~= Seq::<Term>::empty());
                while i < cells.len()
                    invariant
                        *self is Complex,
                        self->cells == *cells,
                        i <= cells.len(),
                        cs.len() == cells@.len(),
                        forall|j: int| 0 <= j < cells@.len() ==> #[trigger] cs[j] == cells@[j]@,
                        out@ == start + render_seq(cs.subrange(0, i as int)),
                    decreases cells.len() - i,
                {
                    proof {
                        crate::cell::lemma_child_decreases(*self, i as int);
                        assert(cs.subrange(0, i + 1).subrange(0, i as int) =~= cs.subrange(0, i as int));
                        assert(cs.subrange(0, i + 1)[i as int] == cs[i as int]);
                    }
                    if i > 0 {
                        write_str(" ", out);
                    }
                    cells[i].write_into(out);
                    proof {
                        reveal_strlit(" ");
                        let sub = cs.subrange(0, i + 1);
                        if i == 0 {
                            assert(sub[0] == cs[0]);
                            assert(render_seq(sub) == render(cs[0]));
                            assert(render_seq(cs.subrange(0, 0)) =~= Seq::<char>::empty());
                        } else {
                            assert(render_seq(sub) == render_seq(cs.subrange(0, i as int)) + seq![' ']
                                + render(cs[i as int]));
                        }
                        assert(out@ =~= start + render_seq(cs.subrange(0, i + 1)));
                    }
                    i += 1;
                }
                assert(cs.subrange(0, i as int) =~= cs);
            },
            _ => {},
        }
    }

    /// The text of this term.
    pub fn to_string(&self) -> (r: String)
        ensures
            r@ == render(self@),
    {
        let mut out = String::new();
        self.write_into(&mut out);
        assert(out@ =~= render(self@));
        out
    }

    /// The text of this term as a rule: a group without its parentheses,
    /// closed by `.`.
    pub fn to_rule_string(&self) -> (r: String)
        ensures
            r@ == render_rule(self@),
    {
        proof {
            reveal_strlit(".");
        }
        let mut out = String::new();
        match self {
            Cell::Complex { .. } => {
                self.write_children(&mut out);
                proof {
                    crate::term::lemma_group_view(*self);
                }
            },
            _ => {
                self.write_into(&mut out);
                proof {
                    if *self is Complex {
                        crate::term::lemma_group_view(*self);
                    }
                }
            },
        }
        write_str(".", &mut out);
        assert(out@ =~= render_rule(self@));
        out
    }
}

/// The characters of `s`.
fn chars_of(s: &str) -> (r: Vec<char>)
    ensures
        r@ == s@,
{
    let n = s.unicode_len();
    let mut v: Vec<char> = Vec::new();
    let mut i: usize = 0;
    while i < n
        invariant
            n == s@.len(),
            i <= n,
            v@ == s@.subrange(0, i as int),
        decreases n - i,
    {
        v.push(s.get_char(i));
        i += 1;
        assert(v@ =~= s@.subrange(0, i as int));
    }
    assert(s@.subrange(0, n as int) =~= s@);
    v
}

/// The first position at or after `pos` that holds no white space.
fn skip_space(cs: &Vec<char>, pos: usize) -> (r: usize)
    requires
        pos <= cs@.len(),
    ensures
        pos <= r <= cs@.len(),
        r == skip_spec(cs@, pos as int),
        r < cs@.len() ==> !is_space(cs@[r as int]),
        forall|j: int| pos <= j < r ==> is_space(#[trigger] cs@[j]),
{
    let mut p = pos;
    while p < cs.len() && is_space_char(cs[p])
        invariant
            pos <= p <= cs@.len(),
            skip_spec(cs@, pos as int) == skip_spec(cs@, p as int),
            forall|j: int| pos <= j < p ==> is_space(#[trigger] cs@[j]),
        decreases cs.len() - p,
    {
        p += 1;
    }
    p
}

/// The terms of a list: one stands for itself, several form a group.
fn list_term(items: Vec<Cell>) -> (r: Cell)
    requires
        items@.len() > 0,
        wf_seq(view_cells(items@)),
    ensures
        wf_term(r@),
        r@ == list_term_spec(view_cells(items@)),
{
    if items.len() == 1 {
        let ghost vs = view_cells(items@);
        assert(vs.subrange(0, 0) =~= Seq::<Term>::empty());
        let mut items = items;
        items.pop().unwrap()
    } else {
        crate::gen::complex(items)
    }
}

/// Reads one term at `*pos` (after white space), and moves past it.
fn read_term(s: &str, cs: &Vec<char>, pos: &mut usize) -> (r: SRLResult<Cell>)
    requires
        cs@ == s@,
        *old(pos) <= cs@.len(),
    ensures
        *final(pos) <= cs@.len(),
        r is Ok ==> *old(pos) < *final(pos) && wf_term(r->Ok_0@),
        r is Ok ==> forall|j: int| *old(pos) <= j < *final(pos) ==> #[trigger] cs@[j] != '.',
        r is Ok <==> read_term_spec(cs@, *old(pos) as int) is Some,
        r is Ok ==> r->Ok_0@ == read_term_spec(cs@, *old(pos) as int).unwrap().0 && *final(pos) as int
            == read_term_spec(cs@, *old(pos) as int).unwrap().1,
    decreases cs@.len() - *old(pos), 1nat,
{
    let ghost p0 = *pos;
    let p = skip_space(cs, *pos);
    *pos = p;
    if p >= cs.len() {
        return fail("parse", "unexpected end of text");
    }
    let c = cs[p];
    assert(forall|j: int| p0 <= j < p ==> #[trigger] cs@[j] != '.');
    if c == '(' {
        *pos = p + 1;
        let items = match read_list(s, cs, pos, ')') {
            Ok(x) => x,
            Err(e) => {
                return Err(e);
            },
        };
        if items.len() == 0 {
            return fail("parse", "empty group");
        }
        assert forall|j: int| p0 <= j < *pos implies #[trigger] cs@[j] != '.' by {
            if j > p && j < *pos - 1 {
                assert(cs@[j] != '.');
            }
        }
        Ok(crate::gen::complex(items))
    } else if c == '{' {
        *pos = p + 1;
        let q = skip_space(cs, p + 1);
        let mut e = q;
        while e < cs.len() && is_digit_char(cs[e])
            invariant
                q <= e <= cs@.len(),
                forall|j: int| q <= j < e ==> is_digit(#[trigger] cs@[j]),
                digits_end(cs@, q as int) == digits_end(cs@, e as int),
            decreases cs.len() - e,
        {
            e += 1;
        }
        let id = match numeral(cs, q, e) {
            Some(x) => x,
            None => {
                *pos = e;
                return fail("parse", "binder without id");
            },
        };
        *pos = e;
        let items = match read_list(s, cs, pos, '}') {
            Ok(x) => x,
            Err(e) => {
                return Err(e);
            },
        };
        if items.len() == 0 {
            return fail("parse", "binder without body");
        }
        assert forall|j: int| p0 <= j < *pos implies #[trigger] cs@[j] != '.' by {
            if p < j < q {
                assert(is_space(cs@[j]));
            } else if q <= j < e {
                assert(is_digit(cs@[j]));
            } else if e <= j < *pos - 1 {
                assert(cs@[j] != '.');
            }
        }
        Ok(crate::gen::scope(id, list_term(items)))
    } else if c == '[' {
        let q = skip_space(cs, p + 1);
        if q >= cs.len() || q + 1 >= cs.len() || cs[q] != '=' || cs[q + 1] != '>' {
            *pos = q;
            return fail("parse", "branch without =>");
        }
        *pos = q + 2;
        let ghost q2 = q + 2;
        let mut items = match read_list(s, cs, pos, ']') {
            Ok(x) => x,
            Err(e) => {
                return Err(e);
            },
        };
        if items.len() != 2 {
            return fail("parse", "branch needs two terms");
        }
        let ghost vs = view_cells(items@);
        proof {
            assert(vs.subrange(0, 1).subrange(0, 0) =~= Seq::<Term>::empty());
            assert(vs.subrange(0, 1)[0] == vs[0]);
        }
        let conclusion = items.pop().unwrap();
        let condition = items.pop().unwrap();
        assert(conclusion@ == vs[1]);
        assert(condition@ == vs[0]);
        assert(wf_term(vs[1]));
        assert(wf_seq(vs.subrange(0, 1)));
        assert(wf_term(vs.subrange(0, 1)[0]));
        assert(wf_term(vs[0]));
        assert forall|j: int| p0 <= j < *pos implies #[trigger] cs@[j] != '.' by {
            if p < j < q {
                assert(is_space(cs@[j]));
            } else if q2 <= j < *pos - 1 {
                assert(cs@[j] != '.');
            }
        }
        Ok(crate::gen::case(condition, conclusion))
    } else {
        let mut e = p;
        while e < cs.len() && !is_space_char(cs[e]) && !is_reserved_char(cs[e])
            invariant
                p <= e <= cs@.len(),
                forall|j: int| p <= j < e ==> !#[trigger] is_reserved(cs@[j]),
                token_end(cs@, p as int) == token_end(cs@, e as int),
            decreases cs.len() - e,
        {
            e += 1;
        }
        *pos = e;
        if e == p {
            return fail("parse", "unexpected character");
        }
        assert forall|j: int| p0 <= j < *pos implies #[trigger] cs@[j] != '.' by {
            if p <= j {
                assert(!is_reserved(cs@[j]));
            }
        }
        match numeral(cs, p, e) {
            Some(id) => Ok(crate::gen::var(id)),
            None => {
                if all_digits(cs, p, e) {
                    proof {
                        let name = cs@.subrange(p as int, e as int);
                        assert forall|j: int| 0 <= j < name.len() implies is_digit(#[trigger] name[j]) by {
                            assert(name[j] == cs@[p + j]);
                        }
                    }
                    return fail("parse", "reference id out of range");
                }
                let name = String::from_str(s.substring_char(p, e));
                try_simple(name)
            },
        }
    }
}

/// All characters in `cs[from..to]` are digits.
fn all_digits(cs: &Vec<char>, from: usize, to: usize) -> (r: bool)
    requires
        from <= to <= cs@.len(),
    ensures
        r == forall|j: int| from <= j < to ==> is_digit(#[trigger] cs@[j]),
{
    let mut i = from;
    while i < to
        invariant
            from <= i <= to,
            to <= cs@.len(),
            forall|j: int| from <= j < i ==> is_digit(#[trigger] cs@[j]),
        decreases to - i,
    {
        if !is_digit_char(cs[i]) {
            return false;
        }
        i += 1;
    }
    true
}

/// A numeral's value is not below the value of any of its prefixes.
proof fn lemma_value_prefix(s: Seq<char>, k: int)
    requires
        0 <= k <= s.len(),
        forall|j: int| 0 <= j < s.len() ==> is_digit(#[trigger] s[j]),
    ensures
        0 <= numeral_value(s.subrange(0, k)) <= numeral_value(s),
    decreases s.len() - k,
{
    if k < s.len() {
        lemma_value_prefix(s, k + 1);
        let a = s.subrange(0, k + 1);
        assert(a.drop_last() =~= s.subrange(0, k));
        assert(is_digit(s[k]));
    } else {
        assert(s.subrange(0, k) =~= s);
        lemma_value_nonneg(s);
    }
}

proof fn lemma_value_nonneg(s: Seq<char>)
    requires
        forall|j: int| 0 <= j < s.len() ==> is_digit(#[trigger] s[j]),
    ensures
        numeral_value(s) >= 0,
    decreases s.len(),
{
    if s.len() > 0 {
        let d = s.drop_last();
        assert forall|j: int| 0 <= j < d.len() implies is_digit(#[trigger] d[j]) by {
            assert(d[j] == s[j]);
        }
        lemma_value_nonneg(d);
        assert(is_digit(s[s.len() - 1]));
    }
}

/// The value of the numeral `cs[from..to]`, if it is one and fits in `u32`.
fn numeral(cs: &Vec<char>, from: usize, to: usize) -> (r: Option<u32>)
    requires
        from <= to <= cs@.len(),
    ensures
        r is Some ==> from < to && forall|j: int| from <= j < to ==> is_digit(#[trigger] cs@[j]),
        r == numeral_spec(cs@, from as int, to as int),
{
    if from == to {
        return None;
    }
    let mut v: u64 = 0;
    let mut i = from;
    assert(cs@.subrange(from as int, from as int) =~= Seq::<char>::empty());
    while i < to
        invariant
            from <= i <= to,
            to <= cs@.len(),
            v <= 0xffff_ffff,
            v as int == numeral_value(cs@.subrange(from as int, i as int)),
            forall|j: int| from <= j < i ==> is_digit(#[trigger] cs@[j]),
        decreases to - i,
    {
        let c = cs[i];
        if !is_digit_char(c) {
            return None;
        }
        let d = (c as u32 - '0' as u32) as u64;
        let ghost pre = cs@.subrange(from as int, i + 1);
        proof {
            assert(pre.drop_last() =~= cs@.subrange(from as int, i as int));
            assert(pre.last() == c);
        }
        if v * 10 + d > 0xffff_ffff {
            proof {
                let whole = cs@.subrange(from as int, to as int);
                if forall|j: int| from <= j < to ==> is_digit(#[trigger] cs@[j]) {
                    assert forall|j: int| 0 <= j < whole.len() implies is_digit(#[trigger] whole[j]) by {
                        assert(whole[j] == cs@[from + j]);
                    }
                    lemma_value_prefix(whole, i + 1 - from);
                    assert(whole.subrange(0, i + 1 - from) =~= pre);
                }
            }
            return None;
        }
        v = v * 10 + d;
        i += 1;
    }
    Some(v as u32)
}

/// Reads terms until the closing character `close`, and moves past it.
fn read_list(s: &str, cs: &Vec<char>, pos: &mut usize, close: char) -> (r: SRLResult<Vec<Cell>>)
    requires
        cs@ == s@,
        *old(pos) <= cs@.len(),
    ensures
        *final(pos) <= cs@.len(),
        r is Ok ==> *old(pos) < *final(pos) && wf_seq(view_cells(r->Ok_0@)),
        r is Ok ==> cs@[*final(pos) - 1] == close,
        r is Ok ==> forall|j: int| *old(pos) <= j < *final(pos) - 1 ==> #[trigger] cs@[j] != '.',
        r is Ok <==> read_list_spec(cs@, *old(pos) as int, close) is Some,
        r is Ok ==> view_cells(r->Ok_0@) == read_list_spec(cs@, *old(pos) as int, close).unwrap().0
            && *final(pos) as int == read_list_spec(cs@, *old(pos) as int, close).unwrap().1,
    decreases cs@.len() - *old(pos), 2nat,
{
    let start = *pos;
    let mut items: Vec<Cell> = Vec::new();
    assert(view_cells(items@) =~= Seq::<Term>::empty());
    loop
        invariant
            cs@ == s@,
            start <= *pos <= cs@.len(),
            start == *old(pos),
            wf_seq(view_cells(items@)),
            forall|j: int| start <= j < *pos ==> #[trigger] cs@[j] != '.',
            read_list_spec(cs@, start as int, close) == prepend(
                view_cells(items@),
                read_list_spec(cs@, *pos as int, close),
            ),
        decreases cs@.len() - *pos,
    {
        let p = skip_space(cs, *pos);
        *pos = p;
        if p >= cs.len() {
            return fail("parse", "missing closing character");
        }
        if cs[p] == close {
            *pos = p + 1;
            return Ok(items);
        }
        let ghost before = items@;
        let ghost rest = read_list_spec(cs@, *pos as int, close);
        let item = match read_term(s, cs, pos) {
            Ok(x) => x,
            Err(e) => {
                return Err(e);
            },
        };
        items.push(item);
        proof {
            let vs = view_cells(items@);
            assert(vs.subrange(0, vs.len() - 1) =~= view_cells(before));
            assert(vs =~= view_cells(before).push(item@));
            lemma_prepend_push(view_cells(before), item@, read_list_spec(cs@, *pos as int, close));
        }
    }
}

impl Database {
    /// A database of the built-in identity rule followed by the rules of
    /// `string`, each normalized; all of them are protected.
    pub fn by_string(string: &str) -> (r: SRLResult<Database>)
        ensures
            r is Ok ==> r->Ok_0.wf() && r->Ok_0@.1 == r->Ok_0@.0.len(),
            r is Ok ==> r->Ok_0@.0.len() == 1 + count_char(string@, '.'),
            (forall|j: int| 0 <= j < string@.len() ==> is_space(#[trigger] string@[j])) ==> r is Ok,
            r is Ok <==> read_rules_spec(string@, 0) is Some && all_normalize(
                read_rules_spec(string@, 0).unwrap(),
            ),
            r is Ok ==> r->Ok_0@.0 == seq![identity_term()] + normal_forms(
                read_rules_spec(string@, 0).unwrap(),
            ),
    {
        let cs = chars_of(string);
        let mut rules: Vec<Cell> = Vec::new();
        rules.push(identity_cell());
        proof {
            crate::db::lemma_identity_normal();
        }
        let mut pos: usize = 0;
        let ghost mut parsed: Seq<Term> = Seq::empty();
        assert(view_cells(rules@) =~= seq![identity_term()] + normal_forms(parsed));
        assert(seq![] + read_rules_spec(cs@, 0).unwrap() =~= read_rules_spec(cs@, 0).unwrap());
        let ghost blank = forall|j: int| 0 <= j < string@.len() ==> is_space(#[trigger] string@[j]);
        assert(cs@.subrange(0, 0) =~= Seq::<char>::empty());
        loop
            invariant
                cs@ == string@,
                pos <= cs@.len(),
                blank == forall|j: int| 0 <= j < string@.len() ==> is_space(#[trigger] string@[j]),
                blank ==> pos == 0,
                rules@.len() == 1 + count_char(cs@.subrange(0, pos as int), '.'),
                rules@.len() >= 1,
                rules@[0]@ == identity_term(),
                forall|i: int| 0 <= i < rules@.len() ==> is_normal(#[trigger] rules@[i]@),
                read_rules_spec(cs@, 0) == prepend_rules(parsed, read_rules_spec(cs@, pos as int)),
                view_cells(rules@) == seq![identity_term()] + normal_forms(parsed),
                all_normalize(parsed),
            ensures
                rules@.len() == 1 + count_char(cs@, '.'),
                rules@.len() >= 1,
                rules@[0]@ == identity_term(),
                forall|i: int| 0 <= i < rules@.len() ==> is_normal(#[trigger] rules@[i]@),
                read_rules_spec(cs@, 0) == Some(parsed),
                view_cells(rules@) == seq![identity_term()] + normal_forms(parsed),
                all_normalize(parsed),
            decreases cs@.len() - pos,
        {
            let p = skip_space(&cs, pos);
            proof {
                lemma_count_skip(cs@, '.', pos as int, p as int);
            }
            if p >= cs.len() {
                assert(cs@.subrange(0, p as int) =~= cs@);
                assert(parsed + Seq::<Term>::empty() =~= parsed);
                break;
            }
            assert(!blank) by {
                if blank {
                    assert(is_space(cs@[p as int]));
                }
            }
            pos = p;
            let items = match read_list(string, &cs, &mut pos, '.') {
                Ok(x) => x,
                Err(e) => {
                    return Err(e);
                },
            };
            if items.len() == 0 {
                return fail("Database::by_string", "empty rule");
            }
            let rule = list_term(items);
            let ghost rest = read_rules_spec(cs@, pos as int);
            proof {
                lemma_prepend_rules_push(parsed, rule@, rest);
            }
            let norm = match rule.get_normalized() {
                Ok(x) => x,
                Err(e) => {
                    proof {
                        if let Some(rs) = rest {
                            let full = parsed.push(rule@) + rs;
                            assert(full[parsed.len() as int] == rule@);
                            assert(normalize(full[parsed.len() as int], 0) is None);
                        }
                    }
                    return Err(e);
                },
            };
            proof {
                crate::normalize::lemma_normalize_idempotent(rule@);
                lemma_count_skip(cs@, '.', p as int, pos - 1);
                assert(cs@.subrange(0, pos as int).drop_last() =~= cs@.subrange(0, pos - 1));
            }
            let ghost rules_before = rules@;
            rules.push(norm);
            proof {
                let np = parsed.push(rule@);
                assert(view_cells(rules@).subrange(0, rules@.len() - 1) =~= view_cells(rules_before));
                assert(normal_forms(np) =~= normal_forms(parsed).push(norm@));
                assert(view_cells(rules@) =~= view_cells(rules_before).push(norm@));
                assert(seq![identity_term()] + normal_forms(parsed).push(norm@) =~= (seq![identity_term()]
                    + normal_forms(parsed)).push(norm@));
                assert(view_cells(rules@) =~= seq![identity_term()] + normal_forms(np));
                assert forall|i: int| 0 <= i < np.len() implies (#[trigger] normalize(np[i], 0)) is Some by {
                    if i < parsed.len() {
                        assert(np[i] == parsed[i]);
                    }
                }
                parsed = np;
            }
        }
        Ok(Database::from_rules(rules))
    }

    /// The text of all rules, one rule per line.
    pub fn to_string(&self) -> (r: String)
        ensures
            r@ == rules_text(self@.0),
    {
        proof {
            reveal_strlit("\n");
        }
        let mut out = String::new();
        let mut i: usize = 0;
        assert(self@.0.subrange(0, 0) =~= Seq::<Term>::empty());
        while i < self.rules.len()
            invariant
                i <= self.rules@.len(),
                self@.0.len() == self.rules@.len(),
                out@ == rules_text(self@.0.subrange(0, i as int)),
            decreases self.rules.len() - i,
        {
            let line = self.rules[i].to_rule_string();
            let ghost before = out@;
            write_str(line.as_str(), &mut out);
            write_str("\n", &mut out);
            proof {
                let rs = self@.0.subrange(0, i + 1);
                reveal_strlit("\n");
                assert("\n"@ == seq!['\n']);
                assert(self@.0[i as int] == self.rules@[i as int]@);
                assert(out@ == before + render_rule(self@.0[i as int]) + seq!['\n']);
                assert(rs.subrange(0, i as int) =~= self@.0.subrange(0, i as int));
                assert(rs[i as int] == self@.0[i as int]);
                assert(out@ =~= rules_text(rs));
            }
            i += 1;
        }
        assert(self@.0.subrange(0, i as int) =~= self@.0);
        out
    }
}

/// How often `c` occurs in `s`.
pub open spec fn count_char(s: Seq<char>, c: char) -> nat
    decreases s.len(),
{
    if s.len() == 0 {
        0
    } else {
        count_char(s.drop_last(), c) + if s.last() == c {
            1nat
        } else {
            0nat
        }
    }
}

/// A stretch without `c` adds no occurrence of `c`.
proof fn lemma_count_skip(s: Seq<char>, c: char, a: int, b: int)
    requires
        0 <= a <= b <= s.len(),
        forall|j: int| a <= j < b ==> #[trigger] s[j] != c,
    ensures
        count_char(s.subrange(0, b), c) == count_char(s.subrange(0, a), c),
    decreases b - a,
{
    if a < b {
        assert(s.subrange(0, b).drop_last() =~= s.subrange(0, b - 1));
        lemma_count_skip(s, c, a, b - 1);
    }
}

/// The text of a list of rules: each rule's text and a line break.
pub open spec fn rules_text(rs: Seq<Term>) -> Seq<char>
    decreases rs.len(),
{
    if rs.len() == 0 {
        Seq::empty()
    } else {
        rules_text(rs.subrange(0, rs.len() - 1)) + render_rule(rs[rs.len() - 1]) + seq!['\n']
    }
}

} // verus!
