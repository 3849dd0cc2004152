//! Reading back written text: the reader inverts the writer on the terms
//! it can produce.
use vstd::prelude::*;
use crate::term::Term;
use crate::gen::{is_reserved, is_digit};
use crate::parse::{
    wf_term, wf_seq, is_space, digit_char, digits, render, render_seq, render_rule, rules_text,
    skip_spec, digits_end, token_end, numeral_value, numeral_spec,
    read_term_spec, read_list_spec, read_rules_spec, all_normalize, normal_forms,
};
use crate::db::Database;

verus! {

/// The skipped position is never before the start.
pub proof fn lemma_skip_ge(cs: Seq<char>, pos: int)
    requires
        0 <= pos,
    ensures
        skip_spec(cs, pos) >= pos,
        skip_spec(cs, pos) <= cs.len() || skip_spec(cs, pos) == pos,
    decreases cs.len() - pos,
{
    if 0 <= pos < cs.len() && is_space(cs[pos]) {
        lemma_skip_ge(cs, pos + 1);
    }
}

/// A numeral's digits are digits, and its value is the number written.
pub proof fn lemma_digits(n: nat)
    ensures
        digits(n).len() >= 1,
        forall|j: int| 0 <= j < digits(n).len() ==> is_digit(#[trigger] digits(n)[j]),
        numeral_value(digits(n)) == n,
    decreases n,
{
    if n >= 10 {
        lemma_digits(n / 10);
        let d = digits(n);
        assert(d.drop_last() =~= digits(n / 10));
        assert forall|j: int| 0 <= j < d.len() implies is_digit(#[trigger] d[j]) by {
            if j < d.len() - 1 {
                assert(d[j] == digits(n / 10)[j]);
            }
        }
    }
    let d = digits(n);
    assert(d.last() == digit_char(n % 10));
    assert(digit_char(n % 10) as int - '0' as int == n % 10);
    if n < 10 {
        assert(d.drop_last() =~= Seq::<char>::empty());
        assert(numeral_value(Seq::<char>::empty()) == 0);
        assert(n % 10 == n);
    } else {
        assert((n / 10) * 10 + n % 10 == n) by (nonlinear_arith);
    }
}

/// The end of a run of digits.
pub proof fn lemma_digits_end(cs: Seq<char>, a: int, b: int)
    requires
        0 <= a <= b <= cs.len(),
        forall|j: int| a <= j < b ==> is_digit(#[trigger] cs[j]),
        b == cs.len() || !is_digit(cs[b]),
    ensures
        digits_end(cs, a) == b,
    decreases b - a,
{
    if a < b {
        lemma_digits_end(cs, a + 1, b);
    }
}

/// The end of a run of name characters.
pub proof fn lemma_token_end(cs: Seq<char>, a: int, b: int)
    requires
        0 <= a <= b <= cs.len(),
        forall|j: int| a <= j < b ==> !is_reserved(#[trigger] cs[j]),
        b == cs.len() || is_reserved(cs[b]),
    ensures
        token_end(cs, a) == b,
    decreases b - a,
{
    if a < b {
        lemma_token_end(cs, a + 1, b);
    }
}

/// White space before a list is skipped.
pub proof fn lemma_list_space(cs: Seq<char>, pos: int, close: char)
    requires
        0 <= pos < cs.len(),
        is_space(cs[pos]),
    ensures
        read_list_spec(cs, pos, close) == read_list_spec(cs, pos + 1, close),
{
    lemma_skip_ge(cs, pos + 1);
}

/// White space before the rules is skipped.
pub proof fn lemma_rules_space(cs: Seq<char>, pos: int)
    requires
        0 <= pos < cs.len(),
        is_space(cs[pos]),
    ensures
        read_rules_spec(cs, pos) == read_rules_spec(cs, pos + 1),
{
    lemma_skip_ge(cs, pos + 1);
}

/// The text of a term the reader can produce is not empty, and starts with
/// a character that is no white space, tells the shape of the term, and
/// closes no list.
pub proof fn lemma_render_start(t: Term)
    requires
        wf_term(t),
    ensures
        render(t).len() >= 1,
        !is_space(render(t)[0]),
        (render(t)[0] == '(') == (t is Group),
        (render(t)[0] == '{') == (t is Binder),
        (render(t)[0] == '[') == (t is Branch),
        render(t)[0] != ')' && render(t)[0] != '}' && render(t)[0] != ']' && render(t)[0] != '.',
{
    match t {
        Term::Atom(s) => {
            assert(!is_reserved(s[0]));
        },
        Term::Ref(id) => {
            lemma_digits(id as nat);
            assert(is_digit(digits(id as nat)[0]));
        },
        _ => {},
    }
}

/// The text of a list of terms, read from its head.
pub proof fn lemma_render_seq_head(ts: Seq<Term>)
    requires
        ts.len() >= 1,
    ensures
        ts.len() == 1 ==> render_seq(ts) == render(ts[0]),
        ts.len() >= 2 ==> render_seq(ts) == render(ts[0]) + seq![' '] + render_seq(
            ts.subrange(1, ts.len() as int),
        ),
    decreases ts.len(),
{
    if ts.len() >= 3 {
        let pre = ts.subrange(0, ts.len() - 1);
        lemma_render_seq_head(pre);
        let tail = ts.subrange(1, ts.len() as int);
        assert(tail.subrange(0, tail.len() - 1) =~= pre.subrange(1, pre.len() as int));
        assert(tail[tail.len() - 1] == ts[ts.len() - 1]);
        assert(render_seq(ts) =~= render(ts[0]) + seq![' '] + render_seq(tail));
    } else if ts.len() == 2 {
        let tail = ts.subrange(1, 2);
        assert(ts.subrange(0, 1)[0] == ts[0]);
        assert(tail[0] == ts[1]);
        assert(render_seq(ts.subrange(0, 1)) == render(ts[0]));
        assert(render_seq(tail) == render(ts[1]));
        assert(render_seq(ts) =~= render(ts[0]) + seq![' '] + render_seq(tail));
    }
}

/// The text of the rules, read from its head.
pub proof fn lemma_rules_text_head(ts: Seq<Term>)
    requires
        ts.len() >= 1,
    ensures
        rules_text(ts) == render_rule(ts[0]) + seq!['\n'] + rules_text(ts.subrange(1, ts.len() as int)),
    decreases ts.len(),
{
    if ts.len() >= 2 {
        let pre = ts.subrange(0, ts.len() - 1);
        lemma_rules_text_head(pre);
        let tail = ts.subrange(1, ts.len() as int);
        assert(tail.subrange(0, tail.len() - 1) =~= pre.subrange(1, pre.len() as int));
        assert(tail[tail.len() - 1] == ts[ts.len() - 1]);
        assert(rules_text(ts) =~= render_rule(ts[0]) + seq!['\n'] + rules_text(tail));
    } else {
        assert(ts.subrange(0, 0) =~= Seq::<Term>::empty());
        assert(ts.subrange(1, 1) =~= Seq::<Term>::empty());
        assert(rules_text(ts) =~= render_rule(ts[0]) + seq!['\n'] + rules_text(ts.subrange(1, 1)));
    }
}

/// A stretch of a text that holds `r` holds each stretch of `r`.
pub proof fn lemma_sub(cs: Seq<char>, pos: int, r: Seq<char>, a: int, b: int)
    requires
        0 <= pos,
        pos + r.len() <= cs.len(),
        cs.subrange(pos, pos + r.len()) == r,
        0 <= a <= b <= r.len(),
    ensures
        cs.subrange(pos + a, pos + b) == r.subrange(a, b),
{
    assert forall|k: int| 0 <= k < b - a implies #[trigger] cs.subrange(pos + a, pos + b)[k] == r.subrange(a, b)[k] by {
        assert(cs.subrange(pos, pos + r.len())[a + k] == cs[pos + a + k]);
    }
    assert(cs.subrange(pos + a, pos + b) =~= r.subrange(a, b));
}

/// A text that holds `r` at `pos` holds `r[j]` at `pos + j`.
pub proof fn lemma_at(cs: Seq<char>, pos: int, r: Seq<char>, j: int)
    requires
        0 <= pos,
        pos + r.len() <= cs.len(),
        cs.subrange(pos, pos + r.len()) == r,
        0 <= j < r.len(),
    ensures
        cs[pos + j] == r[j],
{
    assert(cs.subrange(pos, pos + r.len())[j] == cs[pos + j]);
}

/// The terms of a well-formed sequence are well-formed.
pub proof fn lemma_wf_seq(ts: Seq<Term>)
    requires
        wf_seq(ts),
    ensures
        forall|i: int| 0 <= i < ts.len() ==> wf_term(#[trigger] ts[i]),
    decreases ts.len(),
{
    if ts.len() > 0 {
        let pre = ts.subrange(0, ts.len() - 1);
        lemma_wf_seq(pre);
        assert forall|i: int| 0 <= i < ts.len() implies wf_term(#[trigger] ts[i]) by {
            if i < ts.len() - 1 {
                assert(pre[i] == ts[i]);
            }
        }
    }
}

/// The delimiters that may follow a term in written text.
pub open spec fn is_closer(c: char) -> bool {
    c == ')' || c == '}' || c == ']' || c == '.'
}

/// The text of `t` stands at `pos` in `cs`, followed by a delimiter or the
/// end.
pub open spec fn text_at(t: Term, cs: Seq<char>, pos: int) -> bool {
    &&& 0 <= pos
    &&& pos + render(t).len() <= cs.len()
    &&& cs.subrange(pos, pos + render(t).len()) == render(t)
    &&& pos + render(t).len() == cs.len() || is_reserved(cs[pos + render(t).len()])
}

proof fn lemma_read_atom(s: Seq<char>, cs: Seq<char>, pos: int)
    requires
        wf_term(Term::Atom(s)),
        text_at(Term::Atom(s), cs, pos),
    ensures
        read_term_spec(cs, pos) == Some((Term::Atom(s), pos + s.len())),
{
    let t = Term::Atom(s);
    let r = render(t);
    let n = r.len() as int;
    lemma_render_start(t);
    lemma_at(cs, pos, r, 0);
    assert(skip_spec(cs, pos) == pos);
    assert forall|j: int| pos <= j < pos + n implies !is_reserved(#[trigger] cs[j]) by {
        lemma_at(cs, pos, r, j - pos);
    }
    lemma_token_end(cs, pos, pos + n);
    let k = choose|k: int| 0 <= k < s.len() && !is_digit(#[trigger] s[k]);
    lemma_at(cs, pos, r, k);
    assert(numeral_spec(cs, pos, pos + n) is None);
}

proof fn lemma_read_ref(id: u32, cs: Seq<char>, pos: int)
    requires
        text_at(Term::Ref(id), cs, pos),
    ensures
        read_term_spec(cs, pos) == Some((Term::Ref(id), pos + digits(id as nat).len())),
{
    let t = Term::Ref(id);
    let r = render(t);
    let n = r.len() as int;
    lemma_render_start(t);
    lemma_at(cs, pos, r, 0);
    assert(skip_spec(cs, pos) == pos);
    lemma_digits(id as nat);
    assert forall|j: int| pos <= j < pos + n implies !is_reserved(#[trigger] cs[j]) by {
        lemma_at(cs, pos, r, j - pos);
        assert(is_digit(r[j - pos]));
    }
    lemma_token_end(cs, pos, pos + n);
    assert forall|j: int| pos <= j < pos + n implies is_digit(#[trigger] cs[j]) by {
        lemma_at(cs, pos, r, j - pos);
    }
}

proof fn lemma_binder_parts(id: u32, b: Term, cs: Seq<char>, pos: int)
    requires
        wf_term(Term::Binder(id, Box::new(b))),
        text_at(Term::Binder(id, Box::new(b)), cs, pos),
    ensures
        text_at(b, cs, pos + 2 + digits(id as nat).len()),
{
    let r = render(Term::Binder(id, Box::new(b)));
    let k = digits(id as nat).len() as int;
    let nb = render(b).len() as int;
    lemma_sub(cs, pos, r, 2 + k, 2 + k + nb);
    assert(r.subrange(2 + k, 2 + k + nb) =~= render(b));
    lemma_at(cs, pos, r, 2 + k + nb);
}

proof fn lemma_read_binder(id: u32, b: Term, cs: Seq<char>, pos: int)
    requires
        wf_term(Term::Binder(id, Box::new(b))),
        text_at(Term::Binder(id, Box::new(b)), cs, pos),
        read_term_spec(cs, pos + 2 + digits(id as nat).len()) == Some(
            (b, pos + 2 + digits(id as nat).len() + render(b).len()),
        ),
    ensures
        read_term_spec(cs, pos) == Some(
            (Term::Binder(id, Box::new(b)), pos + render(Term::Binder(id, Box::new(b))).len()),
        ),
{
    let t = Term::Binder(id, Box::new(b));
    let r = render(t);
    let k = digits(id as nat).len() as int;
    let nb = render(b).len() as int;
    lemma_render_start(t);
    lemma_render_start(b);
    lemma_at(cs, pos, r, 0);
    assert(skip_spec(cs, pos) == pos);
    lemma_digits(id as nat);
    let q = pos + 1;
    let e = q + k;
    lemma_sub(cs, pos, r, 1, 1 + k);
    assert(r.subrange(1, 1 + k) =~= digits(id as nat));
    lemma_at(cs, pos, r, 1);
    assert(is_digit(digits(id as nat)[0]));
    assert(skip_spec(cs, q) == q);
    assert forall|j: int| q <= j < e implies is_digit(#[trigger] cs[j]) by {
        assert(cs.subrange(q, e)[j - q] == cs[j]);
    }
    lemma_at(cs, pos, r, 1 + k);
    lemma_digits_end(cs, q, e);
    lemma_list_space(cs, e, '}');
    lemma_at(cs, pos, r, 2 + k);
    lemma_at(cs, pos, r, 2 + k + nb);
    assert(skip_spec(cs, e + 1) == e + 1);
    let p2 = e + 1 + nb;
    assert(skip_spec(cs, p2) == p2);
    assert(read_list_spec(cs, p2, '}') == Some((Seq::<Term>::empty(), p2 + 1)));
    assert(seq![b] + Seq::<Term>::empty() =~= seq![b]);
    assert(read_list_spec(cs, e + 1, '}') == Some((seq![b], p2 + 1)));
}

proof fn lemma_branch_parts(c: Term, d: Term, cs: Seq<char>, pos: int)
    requires
        wf_term(Term::Branch(Box::new(c), Box::new(d))),
        text_at(Term::Branch(Box::new(c), Box::new(d)), cs, pos),
    ensures
        text_at(c, cs, pos + 4),
        text_at(d, cs, pos + 5 + render(c).len()),
{
    let r = render(Term::Branch(Box::new(c), Box::new(d)));
    let nc = render(c).len() as int;
    let nd = render(d).len() as int;
    lemma_sub(cs, pos, r, 4, 4 + nc);
    assert(r.subrange(4, 4 + nc) =~= render(c));
    lemma_at(cs, pos, r, 4 + nc);
    lemma_sub(cs, pos, r, 5 + nc, 5 + nc + nd);
    assert(r.subrange(5 + nc, 5 + nc + nd) =~= render(d));
    lemma_at(cs, pos, r, 5 + nc + nd);
}

proof fn lemma_read_branch(c: Term, d: Term, cs: Seq<char>, pos: int)
    requires
        wf_term(Term::Branch(Box::new(c), Box::new(d))),
        text_at(Term::Branch(Box::new(c), Box::new(d)), cs, pos),
        read_term_spec(cs, pos + 4) == Some((c, pos + 4 + render(c).len())),
        read_term_spec(cs, pos + 5 + render(c).len()) == Some(
            (d, pos + 5 + render(c).len() + render(d).len()),
        ),
    ensures
        read_term_spec(cs, pos) == Some(
            (
                Term::Branch(Box::new(c), Box::new(d)),
                pos + render(Term::Branch(Box::new(c), Box::new(d))).len(),
            ),
        ),
{
    let t = Term::Branch(Box::new(c), Box::new(d));
    let r = render(t);
    let nc = render(c).len() as int;
    let nd = render(d).len() as int;
    lemma_render_start(t);
    lemma_render_start(c);
    lemma_render_start(d);
    lemma_at(cs, pos, r, 0);
    assert(skip_spec(cs, pos) == pos);
    lemma_at(cs, pos, r, 1);
    lemma_at(cs, pos, r, 2);
    lemma_at(cs, pos, r, 3);
    assert(skip_spec(cs, pos + 1) == pos + 1);
    lemma_list_space(cs, pos + 3, ']');
    let a = pos + 4;
    lemma_at(cs, pos, r, 4);
    lemma_at(cs, pos, r, 4 + nc);
    assert(skip_spec(cs, a) == a);
    let b2 = a + nc + 1;
    lemma_list_space(cs, a + nc, ']');
    lemma_at(cs, pos, r, 5 + nc);
    lemma_at(cs, pos, r, 5 + nc + nd);
    assert(skip_spec(cs, b2) == b2);
    let p3 = b2 + nd;
    assert(skip_spec(cs, p3) == p3);
    assert(read_list_spec(cs, p3, ']') == Some((Seq::<Term>::empty(), p3 + 1)));
    assert(read_list_spec(cs, b2, ']') == Some((seq![d] + Seq::<Term>::empty(), p3 + 1)));
    assert(read_list_spec(cs, a, ']') == Some((seq![c] + (seq![d] + Seq::<Term>::empty()), p3 + 1)));
    assert((seq![c] + (seq![d] + Seq::<Term>::empty())) =~= seq![c, d]);
}

proof fn lemma_group_parts(items: Seq<Term>, cs: Seq<char>, pos: int)
    requires
        wf_term(Term::Group(items)),
        text_at(Term::Group(items), cs, pos),
    ensures
        cs.subrange(pos + 1, pos + 1 + render_seq(items).len()) == render_seq(items),
        cs[pos + 1 + render_seq(items).len()] == ')',
        pos + 1 + render_seq(items).len() < cs.len(),
        read_list_spec(cs, pos + 1, ')') == Some((items, pos + render(Term::Group(items)).len()))
            ==> read_term_spec(cs, pos) == Some(
            (Term::Group(items), pos + render(Term::Group(items)).len()),
        ),
{
    let t = Term::Group(items);
    let r = render(t);
    let m = render_seq(items).len() as int;
    lemma_render_start(t);
    lemma_at(cs, pos, r, 0);
    assert(skip_spec(cs, pos) == pos);
    lemma_sub(cs, pos, r, 1, 1 + m);
    assert(r.subrange(1, 1 + m) =~= render_seq(items));
    lemma_at(cs, pos, r, 1 + m);
}

/// Reading the text of a well-formed term, followed by a delimiter or the
/// end, gives the term back and stops right after its text.
pub proof fn lemma_read_term(t: Term, cs: Seq<char>, pos: int)
    requires
        wf_term(t),
        text_at(t, cs, pos),
    ensures
        read_term_spec(cs, pos) == Some((t, pos + render(t).len())),
    decreases t,
{
    match t {
        Term::Atom(s) => lemma_read_atom(s, cs, pos),
        Term::Ref(id) => lemma_read_ref(id, cs, pos),
        Term::Group(items) => {
            lemma_group_parts(items, cs, pos);
            lemma_wf_seq(items);
            lemma_read_list(items, cs, pos + 1, ')');
        },
        Term::Binder(id, b) => {
            lemma_binder_parts(id, *b, cs, pos);
            lemma_read_term(*b, cs, pos + 2 + digits(id as nat).len());
            lemma_read_binder(id, *b, cs, pos);
        },
        Term::Branch(c, d) => {
            lemma_branch_parts(*c, *d, cs, pos);
            lemma_read_term(*c, cs, pos + 4);
            lemma_read_term(*d, cs, pos + 5 + render(*c).len());
            lemma_read_branch(*c, *d, cs, pos);
        },
    }
}

/// Reading the text of a non-empty list of well-formed terms, followed by
/// the closing character, gives the terms back.
pub proof fn lemma_read_list(ts: Seq<Term>, cs: Seq<char>, pos: int, close: char)
    requires
        ts.len() >= 1,
        forall|i: int| 0 <= i < ts.len() ==> wf_term(#[trigger] ts[i]),
        is_closer(close),
        0 <= pos,
        pos + render_seq(ts).len() < cs.len(),
        cs.subrange(pos, pos + render_seq(ts).len()) == render_seq(ts),
        cs[pos + render_seq(ts).len()] == close,
    ensures
        read_list_spec(cs, pos, close) == Some((ts, pos + render_seq(ts).len() + 1)),
    decreases ts,
{
    lemma_render_seq_head(ts);
    let m = render_seq(ts).len() as int;
    let t0 = ts[0];
    let n0 = render(t0).len() as int;
    lemma_render_start(t0);
    let rs = render_seq(ts);
    lemma_at(cs, pos, rs, 0);
    assert(rs[0] == render(t0)[0]);
    assert(skip_spec(cs, pos) == pos);
    lemma_sub(cs, pos, rs, 0, n0);
    assert(rs.subrange(0, n0) =~= render(t0));
    let p2 = pos + n0;
    if ts.len() == 1 {
        assert(rs =~= render(t0));
        lemma_read_term(t0, cs, pos);
        assert(skip_spec(cs, p2) == p2);
        assert(read_list_spec(cs, p2, close) == Some((Seq::<Term>::empty(), p2 + 1)));
        assert(seq![t0] + Seq::<Term>::empty() =~= ts);
    } else {
        let tail = ts.subrange(1, ts.len() as int);
        let mt = render_seq(tail).len() as int;
        lemma_at(cs, pos, rs, n0);
        assert(rs[n0] == ' ');
        lemma_read_term(t0, cs, pos);
        lemma_list_space(cs, p2, close);
        lemma_sub(cs, pos, rs, n0 + 1, n0 + 1 + mt);
        assert(rs.subrange(n0 + 1, n0 + 1 + mt) =~= render_seq(tail));
        lemma_read_list(tail, cs, p2 + 1, close);
        assert(seq![t0] + tail =~= ts);
    }
}

/// A rule the reader can produce: a well-formed term that is no group of a
/// single term (whose text would read as that term).
pub open spec fn wf_rule(t: Term) -> bool {
    wf_term(t) && !(t is Group && t->Group_0.len() == 1)
}

proof fn lemma_read_rules(ts: Seq<Term>, cs: Seq<char>, pos: int)
    requires
        forall|i: int| 0 <= i < ts.len() ==> wf_rule(#[trigger] ts[i]),
        0 <= pos <= cs.len(),
        cs.subrange(pos, cs.len() as int) == rules_text(ts),
    ensures
        read_rules_spec(cs, pos) == Some(ts),
    decreases ts.len(),
{
    if ts.len() == 0 {
        assert(cs.subrange(pos, cs.len() as int).len() == 0);
        lemma_skip_ge(cs, pos);
    } else {
        lemma_rules_text_head(ts);
        let t0 = ts[0];
        assert(wf_rule(t0));
        let tail = ts.subrange(1, ts.len() as int);
        let text = rules_text(ts);
        let rr = render_rule(t0);
        let nr = rr.len() as int;
        assert(pos + text.len() == cs.len());
        let p2 = pos + nr;
        lemma_at(cs, pos, text, nr - 1);
        lemma_at(cs, pos, text, nr);
        assert(text[nr - 1] == '.');
        assert(text[nr] == '\n');
        if t0 is Group {
            let items = t0->Group_0;
            lemma_wf_seq(items);
            lemma_render_seq_head(items);
            lemma_render_start(items[0]);
            lemma_at(cs, pos, text, 0);
            assert(text[0] == render(items[0])[0]);
            assert(skip_spec(cs, pos) == pos);
            lemma_sub(cs, pos, text, 0, nr - 1);
            assert(text.subrange(0, nr - 1) =~= render_seq(items));
            lemma_read_list(items, cs, pos, '.');
        } else {
            lemma_render_start(t0);
            let one = seq![t0];
            lemma_render_seq_head(one);
            assert(one[0] == t0);
            lemma_at(cs, pos, text, 0);
            assert(text[0] == render(t0)[0]);
            assert(skip_spec(cs, pos) == pos);
            lemma_sub(cs, pos, text, 0, nr - 1);
            assert(text.subrange(0, nr - 1) =~= render_seq(one));
            lemma_read_list(one, cs, pos, '.');
        }
        lemma_rules_space(cs, p2);
        lemma_sub(cs, pos, text, nr + 1, text.len() as int);
        assert(text.subrange(nr + 1, text.len() as int) =~= rules_text(tail));
        lemma_read_rules(tail, cs, p2 + 1);
        assert(seq![t0] + tail =~= ts);
    }
}

/// Reading the text of well-formed rules gives the rules back.
pub proof fn lemma_read_rendered_rules(ts: Seq<Term>)
    requires
        forall|i: int| 0 <= i < ts.len() ==> wf_rule(#[trigger] ts[i]),
    ensures
        read_rules_spec(rules_text(ts), 0) == Some(ts),
{
    let cs = rules_text(ts);
    assert(cs.subrange(0, cs.len() as int) =~= cs);
    lemma_read_rules(ts, cs, 0);
}

/// The text of a database reads back as its rules, each already in normal
/// form, where every rule is one the reader can produce: reading
/// `db.to_string()` gives the identity rule followed by the rules of `db`.
pub proof fn lemma_database_text_reads_back(db: Database)
    requires
        db.wf(),
        forall|i: int| 0 <= i < db@.0.len() ==> wf_rule(#[trigger] db@.0[i]),
    ensures
        read_rules_spec(rules_text(db@.0), 0) == Some(db@.0),
        all_normalize(db@.0),
        normal_forms(db@.0) == db@.0,
{
    lemma_read_rendered_rules(db@.0);
    assert forall|i: int| 0 <= i < db@.0.len() implies (#[trigger] crate::normalize::normalize(
        db@.0[i],
        0,
    )) is Some by {
        assert(crate::db::is_normal(db@.0[i]));
    }
    assert(normal_forms(db@.0) =~= db@.0);
}

} // verus!
