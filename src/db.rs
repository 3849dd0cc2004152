//! The rule database: an ordered list of normalized rules, the leading ones
//! write-protected, with the built-in identity rule at index 0.
use vstd::prelude::*;
use crate::term::{Term, view_cells};
use crate::cell::{Cell, mentions, equals_term, eq_head};
use crate::error::{SRLResult, fail};
use crate::gen::{scope, var, equals_cell};
use crate::misc::index_in_len;
use crate::normalize::{normalize, position, norm_r, norm_seq, Scopes};

verus! {

broadcast use crate::term::lemma_view_cells;

/// The built-in identity rule `{0 (= 0 0)}`.
pub open spec fn identity_term() -> Term {
    Term::Binder(0, Box::new(equals_term(Term::Ref(0), Term::Ref(0))))
}

/// `t` is its own normal form.
pub open spec fn is_normal(t: Term) -> bool {
    normalize(t, 0) == Some(t)
}

/// The model of a database: its rules, and how many leading rules are
/// write-protected.
pub type DbView = (Seq<Term>, nat);

/// What an inference rule does: with the term `res` it would derive, it
/// succeeds exactly when `res` exists and normalizes, appends the normal
/// form and returns it; on failure nothing changes.
pub open spec fn derived(before: DbView, after: DbView, res: Option<Term>, r: SRLResult<Cell>) -> bool {
    &&& r is Ok <==> (res is Some && normalize(res.unwrap(), 0) is Some)
    &&& r is Ok ==> r->Ok_0@ == normalize(res.unwrap(), 0).unwrap() && after == (
        before.0.push(r->Ok_0@),
        before.1,
    )
    &&& r is Err ==> after == before
}

/// The ordered rules; the first `src_rules_count` of them are protected.
pub struct Database {
    pub(crate) rules: Vec<Cell>,
    pub(crate) src_rules_count: usize,
}

impl View for Database {
    type V = DbView;

    open(crate) spec fn view(&self) -> DbView {
        (view_cells(self.rules@), self.src_rules_count as nat)
    }
}

impl Clone for Database {
    fn clone(&self) -> (r: Database)
        ensures
            r@ == self@,
    {
        let mut rules: Vec<Cell> = Vec::new();
        let mut i: usize = 0;
        while i < self.rules.len()
            invariant
                i <= self.rules@.len(),
                rules@.len() == i,
                forall|j: int| 0 <= j < i ==> #[trigger] rules@[j]@ == self.rules@[j]@,
            decreases self.rules.len() - i,
        {
            rules.push(self.rules[i].clone());
            i += 1;
        }
        let r = Database { rules, src_rules_count: self.src_rules_count };
        assert(r@.0 =~= self@.0);
        r
    }
}

/// The identity rule `{0 (= 0 0)}`.
pub fn identity_cell() -> (r: Cell)
    ensures
        r@ == identity_term(),
{
    scope(0, equals_cell(var(0), var(0)))
}

/// The identity rule is in normal form.
pub proof fn lemma_identity_normal()
    ensures
        is_normal(identity_term()),
{
    let e: Scopes = (seq![], seq![]);
    let st: Scopes = (seq![0u32], seq![true]);
    assert(e.0.push(0) =~= st.0);
    assert(e.1.push(true) =~= st.1);
    assert(st.0.subrange(0, 0) =~= Seq::<u32>::empty());
    assert(position(Seq::<u32>::empty(), 0) == -1);
    assert(position(st.0, 0) == 0);
    assert(norm_r(Term::Ref(0), st, 0) == Some((Term::Ref(0), st)));
    assert(norm_r(eq_head(), st, 0) == Some((eq_head(), st)));
    let cs = seq![eq_head(), Term::Ref(0), Term::Ref(0)];
    let c1 = cs.subrange(0, 1);
    let c2 = cs.subrange(0, 2);
    assert(c1.subrange(0, 0) =~= Seq::<Term>::empty());
    assert(c2.subrange(0, 1) =~= c1);
    assert(cs.subrange(0, 2) =~= c2);
    assert(norm_seq(Seq::<Term>::empty(), st, 0) == Some((Seq::<Term>::empty(), st)));
    assert(Seq::<Term>::empty().push(eq_head()) =~= seq![eq_head()]);
    assert(norm_seq(c1, st, 0) == Some((seq![eq_head()], st)));
    assert(norm_seq(c2, st, 0) == Some((seq![eq_head()].push(Term::Ref(0)), st)));
    assert(norm_seq(cs, st, 0) == Some((seq![eq_head()].push(Term::Ref(0)).push(Term::Ref(0)), st)));
    assert(seq![eq_head()].push(Term::Ref(0)).push(Term::Ref(0)) =~= cs);
    assert(norm_r(equals_term(Term::Ref(0), Term::Ref(0)), st, 0) == Some((equals_term(Term::Ref(0), Term::Ref(0)), st)));
}

impl Database {
    /// Well-formed: at least the identity rule, first; the protected rules
    /// are a prefix that holds it; every rule is in normal form.
    pub open spec fn wf(&self) -> bool {
        &&& self@.0.len() >= 1
        &&& 1 <= self@.1 <= self@.0.len()
        &&& self@.0[0] == identity_term()
        &&& forall|i: int| 0 <= i < self@.0.len() ==> is_normal(#[trigger] self@.0[i])
    }

    /// A database holding `rules`, all of them protected.
    pub(crate) fn from_rules(rules: Vec<Cell>) -> (r: Database)
        requires
            rules@.len() >= 1,
            rules@[0]@ == identity_term(),
            forall|i: int| 0 <= i < rules@.len() ==> is_normal(#[trigger] rules@[i]@),
        ensures
            r.wf(),
            r@ == (view_cells(rules@), rules@.len()),
    {
        let len = rules.len();
        Database { rules, src_rules_count: len }
    }

    pub fn count_rules(&self) -> (r: usize)
        ensures
            r == self@.0.len(),
    {
        self.rules.len()
    }

    /// Copies of all rules, in order.
    pub fn get_rules(&self) -> (r: Vec<Cell>)
        ensures
            view_cells(r@) == self@.0,
    {
        let mut out: Vec<Cell> = Vec::new();
        let mut i: usize = 0;
        while i < self.rules.len()
            invariant
                i <= self.rules@.len(),
                out@.len() == i,
                forall|j: int| 0 <= j < i ==> #[trigger] out@[j]@ == self.rules@[j]@,
            decreases self.rules.len() - i,
        {
            out.push(self.rules[i].clone());
            i += 1;
        }
        assert(view_cells(out@) =~= self@.0);
        out
    }

    /// A copy of rule `index`; the index must be in range.
    pub fn get_rule(&self, index: usize) -> (r: Cell)
        requires
            index < self@.0.len(),
        ensures
            r@ == self@.0[index as int],
    {
        self.rules[index].clone()
    }

    /// Removes a derived rule; protected rules and indices out of range fail.
    pub fn delete_rule(&mut self, index: usize) -> (r: SRLResult<()>)
        requires
            old(self).wf(),
        ensures
            final(self).wf(),
            r is Ok <==> old(self)@.1 <= index < old(self)@.0.len(),
            r is Ok ==> final(self)@ == (old(self)@.0.remove(index as int), old(self)@.1),
            r is Err ==> final(self)@ == old(self)@,
    {
        if index_in_len(index, self.src_rules_count) {
            return fail("Database::delete_rule", "This rule is write protected");
        }
        if index_in_len(index, self.count_rules()) {
            let ghost before = self.rules@;
            self.rules.remove(index);
            assert(view_cells(self.rules@) =~= view_cells(before).remove(index as int));
            return Ok(());
        }
        fail("Database::delete_rule", "out of range")
    }

    /// Some atom of some rule is named `string`.
    pub fn contains_cellname(&self, string: &str) -> (r: bool)
        ensures
            r == exists|i: int| 0 <= i < self@.0.len() && mentions(#[trigger] self@.0[i], string@),
    {
        let mut i: usize = 0;
        while i < self.rules.len()
            invariant
                i <= self.rules@.len(),
                forall|j: int| 0 <= j < i ==> !mentions(#[trigger] self@.0[j], string@),
            decreases self.rules.len() - i,
        {
            if self.rules[i].contains_name(string) {
                assert(mentions(self@.0[i as int], string@));
                return true;
            }
            i += 1;
        }
        false
    }

    /// Normalizes `rule` and appends it.
    pub(crate) fn add_rule(&mut self, rule: Cell) -> (r: SRLResult<Cell>)
        requires
            old(self).wf(),
        ensures
            final(self).wf(),
            derived(old(self)@, final(self)@, Some(rule@), r),
    {
        match rule.get_normalized() {
            Ok(norm) => {
                proof {
                    crate::normalize::lemma_normalize_idempotent(rule@);
                }
                let ghost before = self.rules@;
                self.rules.push(norm.clone());
                assert(view_cells(self.rules@) =~= view_cells(before).push(norm@));
                Ok(norm)
            },
            Err(e) => Err(e),
        }
    }
}

} // verus!
