use vstd::prelude::*;

use crate::aggregator::Aggregator;
use crate::expression::{no_index, Expr, ExprView, FuncType};
use crate::query_engine::{aggs_view, exprs_view, query_by_name, Query};
use crate::value::{Value, ValueView};

verus! {

/// One clause of a select list: an aggregate or a plain expression.
#[derive(Debug)]
pub enum AggregateOrSelect {
    Aggregate((Aggregator, Expr)),
    Select(Expr),
}

pub ghost enum ClauseView {
    Aggregate(Aggregator, ExprView),
    Select(ExprView),
}

impl View for AggregateOrSelect {
    type V = ClauseView;

    open spec fn view(&self) -> ClauseView {
        match self {
            AggregateOrSelect::Aggregate(p) => ClauseView::Aggregate(p.0, p.1@),
            AggregateOrSelect::Select(e) => ClauseView::Select(e@),
        }
    }
}

pub open spec fn clauses_view(items: Seq<AggregateOrSelect>) -> Seq<ClauseView> {
    items.map_values(|c: AggregateOrSelect| c@)
}

/// The plain expressions of a clause list, in order.
pub open spec fn selects_of(items: Seq<ClauseView>) -> Seq<ExprView>
    decreases items.len(),
{
    if items.len() == 0 {
        Seq::empty()
    } else {
        match items.last() {
            ClauseView::Select(e) => selects_of(items.drop_last()).push(e),
            ClauseView::Aggregate(_, _) => selects_of(items.drop_last()),
        }
    }
}

/// The aggregates of a clause list, in order.
pub open spec fn aggregates_of(items: Seq<ClauseView>) -> Seq<(Aggregator, ExprView)>
    decreases items.len(),
{
    if items.len() == 0 {
        Seq::empty()
    } else {
        match items.last() {
            ClauseView::Aggregate(a, e) => aggregates_of(items.drop_last()).push((a, e)),
            ClauseView::Select(_) => aggregates_of(items.drop_last()),
        }
    }
}

/// Splits a clause list into its plain expressions and its aggregates,
/// each in the order written.
pub fn partition(items: Vec<AggregateOrSelect>) -> (r: (Vec<Expr>, Vec<(Aggregator, Expr)>))
    ensures
        exprs_view(r.0@) == selects_of(clauses_view(items@)),
        aggs_view(r.1@) == aggregates_of(clauses_view(items@)),
{
    let ghost all = clauses_view(items@);
    let mut rest = items;
    let mut selects: Vec<Expr> = Vec::new();
    let mut aggregates: Vec<(Aggregator, Expr)> = Vec::new();
    let ghost mut k: int = 0;
    assert(all.take(0) =~= Seq::<ClauseView>::empty());
    assert(exprs_view(selects@) =~= Seq::<ExprView>::empty());
    assert(aggs_view(aggregates@) =~= Seq::<(Aggregator, ExprView)>::empty());
    while rest.len() > 0
        invariant
            0 <= k <= all.len(),
            rest@.len() == all.len() - k,
            clauses_view(rest@) == all.skip(k),
            exprs_view(selects@) == selects_of(all.take(k)),
            aggs_view(aggregates@) == aggregates_of(all.take(k)),
        decreases rest.len(),
    {
        let ghost before = rest@;
        let c = rest.remove(0);
        assert(all.skip(k)[0] == c@);
        assert(all.take(k + 1).drop_last() =~= all.take(k));
        assert(all.take(k + 1).last() == c@);
        assert forall|i: int| 0 <= i < rest@.len() implies (#[trigger] rest@[i])@ == all.skip(k + 1)[i] by {
            assert(rest@[i] == before[i + 1]);
            assert(clauses_view(before)[i + 1] == all.skip(k)[i + 1]);
        }
        assert(clauses_view(rest@) =~= all.skip(k + 1));
        match c {
            AggregateOrSelect::Select(e) => {
                let ghost s0 = selects@;
                selects.push(e);
                assert(exprs_view(selects@) =~= exprs_view(s0).push(e@));
            },
            AggregateOrSelect::Aggregate(p) => {
                let ghost a0 = aggregates@;
                let ghost pv = (p.0, p.1@);
                aggregates.push(p);
                assert(aggs_view(aggregates@) =~= aggs_view(a0).push(pv));
            },
        }
        proof {
            k = k + 1;
        }
    }
    assert(all.take(k) =~= all);
    (selects, aggregates)
}

/// The query of a clause list and a filter.
pub fn construct_query(select_clauses: Vec<AggregateOrSelect>, filter: Expr) -> (q: Query)
    ensures
        q@.select == selects_of(clauses_view(select_clauses@)),
        q@.aggregate == aggregates_of(clauses_view(select_clauses@)),
        q@.filter == filter@,
{
    let (select, aggregate) = partition(select_clauses);
    Query { select, filter, aggregate }
}


/// Whether the expression of a clause refers to columns by name only.
pub open spec fn clause_by_name(c: ClauseView) -> bool {
    match c {
        ClauseView::Select(e) => no_index(e),
        ClauseView::Aggregate(_, e) => no_index(e),
    }
}

proof fn lemma_parts_by_name(items: Seq<ClauseView>)
    requires
        forall|i: int| 0 <= i < items.len() ==> clause_by_name(#[trigger] items[i]),
    ensures
        forall|j: int| 0 <= j < selects_of(items).len() ==> no_index(#[trigger] selects_of(items)[j]),
        forall|j: int| 0 <= j < aggregates_of(items).len() ==> no_index(#[trigger] aggregates_of(items)[j].1),
    decreases items.len(),
{
    if items.len() > 0 {
        let prev = items.drop_last();
        assert forall|i: int| 0 <= i < prev.len() implies clause_by_name(#[trigger] prev[i]) by {
            assert(prev[i] == items[i]);
        }
        lemma_parts_by_name(prev);
        assert(clause_by_name(items[items.len() - 1]));
        match items.last() {
            ClauseView::Select(e) => {
                let s = selects_of(items);
                assert(s == selects_of(prev).push(e));
                assert forall|j: int| 0 <= j < s.len() implies no_index(#[trigger] s[j]) by {
                    if j < s.len() - 1 {
                        assert(s[j] == selects_of(prev)[j]);
                    }
                }
                assert(aggregates_of(items) == aggregates_of(prev));
            },
            ClauseView::Aggregate(a, e) => {
                let g = aggregates_of(items);
                assert(g == aggregates_of(prev).push((a, e)));
                assert forall|j: int| 0 <= j < g.len() implies no_index(#[trigger] g[j].1) by {
                    if j < g.len() - 1 {
                        assert(g[j] == aggregates_of(prev)[j]);
                    }
                }
                assert(selects_of(items) == selects_of(prev));
            },
        }
    }
}

/// The characters of `s`.
fn chars_of(s: &str) -> (cs: Vec<char>)
    ensures
        cs@ == s@,
{
    let n = s.unicode_len();
    let mut cs: Vec<char> = Vec::new();
    let mut i: usize = 0;
    while i < n
        invariant
            n == s@.len(),
            i <= n,
            cs@ == s@.take(i as int),
        decreases n - i,
    {
        cs.push(s.get_char(i));
        assert(s@.take(i + 1) =~= s@.take(i as int).push(s@[i as int]));
        i = i + 1;
    }
    assert(s@.take(i as int) =~= s@);
    cs
}

pub open spec fn space_char(c: char) -> bool {
    c == ' ' || c == '\t' || c == '\n' || c == '\r'
}

pub open spec fn letter_char(c: char) -> bool {
    ('a' <= c && c <= 'z') || ('A' <= c && c <= 'Z')
}

pub open spec fn digit_char(c: char) -> bool {
    '0' <= c && c <= '9'
}

/// Whitespace only (possibly nothing).
pub open spec fn blank(t: Seq<char>) -> bool {
    forall|i: int| 0 <= i < t.len() ==> space_char(#[trigger] t[i])
}

/// One or more ASCII letters.
pub open spec fn letters(t: Seq<char>) -> bool {
    t.len() > 0 && forall|i: int| 0 <= i < t.len() ==> letter_char(#[trigger] t[i])
}

/// One or more decimal digits.
pub open spec fn numeral(t: Seq<char>) -> bool {
    t.len() > 0 && forall|i: int| 0 <= i < t.len() ==> digit_char(#[trigger] t[i])
}

/// The number that the decimal digits `t` denote.
pub open spec fn numeral_value(t: Seq<char>) -> int
    decreases t.len(),
{
    if t.len() == 0 {
        0
    } else {
        numeral_value(t.drop_last()) * 10 + ((t.last() as u32) as int - 48)
    }
}

/// Whether `t` spells the lower-case word `w`, ASCII letters in any case.
pub open spec fn keyword(t: Seq<char>, w: Seq<char>) -> bool {
    &&& t.len() == w.len()
    &&& forall|i: int|
        0 <= i < t.len() ==> (#[trigger] t[i] == w[i] || ('A' <= t[i] && t[i] <= 'Z' && (t[i] as u32)
            + 32 == (w[i] as u32)))
}

/// A prefix of a numeral denotes at most what the whole does.
pub proof fn lemma_numeral_prefix(s: Seq<char>, k: int)
    requires
        0 <= k <= s.len(),
        forall|i: int| 0 <= i < s.len() ==> digit_char(#[trigger] s[i]),
    ensures
        0 <= numeral_value(s.take(k)) <= numeral_value(s),
    decreases s.len(),
{
    if k == s.len() {
        assert(s.take(k) =~= s);
        lemma_numeral_nonneg(s);
    } else {
        let d = s.drop_last();
        assert(s.take(k) =~= d.take(k));
        lemma_numeral_prefix(d, k);
        assert(digit_char(s[s.len() - 1]));
    }
}

pub proof fn lemma_numeral_nonneg(s: Seq<char>)
    requires
        forall|i: int| 0 <= i < s.len() ==> digit_char(#[trigger] s[i]),
    ensures
        numeral_value(s) >= 0,
    decreases s.len(),
{
    if s.len() > 0 {
        lemma_numeral_nonneg(s.drop_last());
        assert(digit_char(s[s.len() - 1]));
    }
}

fn is_space(c: char) -> (r: bool)
    ensures
        r == space_char(c),
{
    c == ' ' || c == '\t' || c == '\n' || c == '\r'
}

fn is_alpha(c: char) -> (r: bool)
    ensures
        r == letter_char(c),
{
    ('a' <= c && c <= 'z') || ('A' <= c && c <= 'Z')
}

fn is_digit(c: char) -> (r: bool)
    ensures
        r == digit_char(c),
{
    '0' <= c && c <= '9'
}

/// The first position at or after `pos` that is not whitespace.
fn skip_ws(cs: &Vec<char>, pos: usize) -> (p: usize)
    requires
        pos <= cs@.len(),
    ensures
        pos <= p <= cs@.len(),
        blank(cs@.subrange(pos as int, p as int)),
        p < cs@.len() ==> !space_char(cs@[p as int]),
{
    let mut p = pos;
    while p < cs.len() && is_space(cs[p])
        invariant
            pos <= p <= cs@.len(),
            blank(cs@.subrange(pos as int, p as int)),
        decreases cs.len() - p,
    {
        p = p + 1;
    }
    p
}

/// Whether the characters at `pos` spell `word` (given in lower case),
/// ignoring the case of ASCII letters.
fn word_at(cs: &Vec<char>, pos: usize, word: &str) -> (r: bool)
    requires
        pos <= cs@.len(),
    ensures
        r <==> pos + word@.len() <= cs@.len() && keyword(cs@.subrange(pos as int, pos + word@.len()), word@),
{
    let n = word.unicode_len();
    let len = cs.len();
    if n > len - pos {
        return false;
    }
    let mut i: usize = 0;
    while i < n
        invariant
            n == word@.len(),
            i <= n,
            len == cs@.len(),
            pos + n <= len,
            forall|j: int|
                0 <= j < i ==> (#[trigger] cs@[pos + j] == word@[j] || ('A' <= cs@[pos + j] && cs@[pos + j] <= 'Z'
                    && (cs@[pos + j] as u32) + 32 == (word@[j] as u32))),
        decreases n - i,
    {
        assert(pos + i < cs@.len());
        let c = cs[pos + i];
        let w = word.get_char(i);
        let upper = 'A' <= c && c <= 'Z';
        if c != w && !(upper && (c as u32) + 32 == (w as u32)) {
            assert(cs@.subrange(pos as int, pos + n)[i as int] == c);
            return false;
        }
        i = i + 1;
    }
    assert forall|j: int| 0 <= j < n implies #[trigger] cs@.subrange(pos as int, pos + n)[j] == cs@[pos + j] by {}
    true
}

/// The value of the decimal digits `cs[from..to]`, if it fits in an `i64`.
fn digits_value(cs: &Vec<char>, from: usize, to: usize) -> (r: Option<i64>)
    requires
        from <= to <= cs@.len(),
        numeral(cs@.subrange(from as int, to as int)),
    ensures
        r matches Some(v) ==> v == numeral_value(cs@.subrange(from as int, to as int)),
        numeral_value(cs@.subrange(from as int, to as int)) <= i64::MAX ==> r is Some,
{
    let mut v: i64 = 0;
    let mut i = from;
    while i < to
        invariant
            from <= i <= to,
            to <= cs@.len(),
            v >= 0,
            v == numeral_value(cs@.subrange(from as int, i as int)),
            numeral(cs@.subrange(from as int, to as int)),
        decreases to - i,
    {
        let c = cs[i];
        assert(cs@.subrange(from as int, to as int)[i - from] == c);
        assert(digit_char(c));
        let cu = c as u32;
        assert(48 <= cu <= 57);
        let d = (cu - 48) as i64;
        assert(cs@.subrange(from as int, i + 1).drop_last() =~= cs@.subrange(from as int, i as int));
        if v > (i64::MAX - d) / 10 {
            assert(v * 10 + d > i64::MAX) by (nonlinear_arith)
                requires
                    v > (i64::MAX - d) / 10,
                    0 <= d <= 9,
            ;
            proof {
                let t = cs@.subrange(from as int, to as int);
                assert(numeral(t));
                lemma_numeral_prefix(t, i + 1 - from);
                assert(t.take(i + 1 - from) =~= cs@.subrange(from as int, i + 1));
            }
            return None;
        }
        assert(v * 10 + d <= i64::MAX) by (nonlinear_arith)
            requires
                0 <= v <= (i64::MAX - d) / 10,
                0 <= d <= 9,
        ;
        v = v * 10 + d;
        i = i + 1;
    }
    Some(v)
}

/// Whether `t` names the function `f`.
pub open spec fn fname_text(t: Seq<char>, f: FuncType) -> bool {
    match f {
        FuncType::Equals => t == seq!['='],
        FuncType::GT => t == seq!['>'],
        FuncType::LT => t == seq!['<'],
        FuncType::And => keyword(t, seq!['a', 'n', 'd']),
        FuncType::Or => false,
    }
}

/// Marks a choice of split points in a function application's text.
pub open spec fn splits(k: int, i1: int, i2: int, i3: int, i4: int, i5: int) -> bool {
    0 <= k <= i1 <= i2 < i3 <= i4 < i5
}

/// Whether `t` reads as the expression `e`: optional leading whitespace,
/// then a column name (letters), an integer (digits), a quoted string
/// without quotes inside, or `f(a, b)` with whitespace allowed around the
/// parentheses and the comma.
pub open spec fn expr_text(t: Seq<char>, e: ExprView) -> bool
    decreases e,
{
    match e {
        ExprView::ColName(n) => exists|k: int|
            0 <= k <= t.len() && blank(t.take(k)) && #[trigger] t.skip(k) == n && letters(n),
        ExprView::Const(ValueView::Integer(v)) => exists|k: int|
            0 <= k <= t.len() && blank(t.take(k)) && numeral(#[trigger] t.skip(k)) && numeral_value(
                t.skip(k),
            ) == v,
        ExprView::Const(ValueView::Str(x)) => exists|k: int|
            0 <= k <= t.len() && blank(t.take(k)) && #[trigger] t.skip(k) == seq!['"'] + x
                + seq!['"'] && !x.contains('"'),
        ExprView::Func(f, a, b) => exists|k: int, i1: int, i2: int, i3: int, i4: int, i5: int|
            #[trigger] splits(k, i1, i2, i3, i4, i5) && i5 < t.len() && blank(t.take(k))
                && fname_text(t.subrange(k, i1), f) && blank(t.subrange(i1, i2)) && t[i2] == '('
                && expr_text(t.subrange(i2 + 1, i3), *a) && blank(t.subrange(i3, i4)) && t[i4]
                == ',' && expr_text(t.subrange(i4 + 1, i5), *b) && blank(
                t.subrange(i5, t.len() - 1),
            ) && t.last() == ')',
        _ => false,
    }
}

/// Where an expression's text may end inside `s`: not inside a name or a
/// numeral, and with no `(` reachable over whitespace.
pub open spec fn expr_boundary(s: Seq<char>, e: int) -> bool {
    &&& (0 <= e < s.len() ==> !letter_char(s[e]) && !digit_char(s[e]))
    &&& forall|j: int| e <= j < s.len() && blank(s.subrange(e, j)) ==> #[trigger] s[j] != '('
}

/// `s[p..q]` reads as `e` with no leading whitespace.
pub open spec fn body_at(s: Seq<char>, p: int, q: int, e: ExprView) -> bool {
    match e {
        ExprView::ColName(n) => s.subrange(p, q) == n && letters(n),
        ExprView::Const(ValueView::Integer(v)) => numeral(s.subrange(p, q)) && numeral_value(
            s.subrange(p, q),
        ) == v,
        ExprView::Const(ValueView::Str(x)) => s.subrange(p, q) == seq!['"'] + x + seq!['"']
            && !x.contains('"'),
        ExprView::Func(f, a, b) => exists|i1: int, i2: int, i3: int, i4: int, i5: int|
            #[trigger] splits(p, i1, i2, i3, i4, i5) && i5 < q && fname_text(s.subrange(p, i1), f)
                && blank(s.subrange(i1, i2)) && s[i2] == '(' && expr_text(s.subrange(i2 + 1, i3), *a)
                && blank(s.subrange(i3, i4)) && s[i4] == ',' && expr_text(s.subrange(i4 + 1, i5), *b)
                && blank(s.subrange(i5, q - 1)) && s[q - 1] == ')',
        _ => false,
    }
}

/// An expression's text is never empty.
proof fn lemma_text_nonempty(t: Seq<char>, e: ExprView)
    requires
        expr_text(t, e),
    ensures
        t.len() > 0,
{
    match e {
        ExprView::ColName(n) => {
            let k = choose|k: int| 0 <= k <= t.len() && blank(t.take(k)) && #[trigger] t.skip(k) == n && letters(n);
            assert(t.skip(k).len() > 0);
        },
        ExprView::Const(ValueView::Integer(v)) => {
            let k = choose|k: int|
                0 <= k <= t.len() && blank(t.take(k)) && numeral(#[trigger] t.skip(k)) && numeral_value(t.skip(k)) == v;
            assert(t.skip(k).len() > 0);
        },
        ExprView::Const(ValueView::Str(x)) => {
            let k = choose|k: int|
                0 <= k <= t.len() && blank(t.take(k)) && #[trigger] t.skip(k) == seq!['"'] + x + seq!['"'] && !x.contains('"');
            assert(t.skip(k).len() > 0);
        },
        _ => {},
    }
}

/// A function name is one symbol, or `and` in any case; its first
/// character tells which.
proof fn lemma_fname(u: Seq<char>, f: FuncType)
    requires
        fname_text(u, f),
    ensures
        u.len() > 0,
        !space_char(u[0]),
        !digit_char(u[0]),
        u[0] != '"',
        f == FuncType::Equals <==> u[0] == '=',
        f == FuncType::GT <==> u[0] == '>',
        f == FuncType::LT <==> u[0] == '<',
        f == FuncType::And <==> letter_char(u[0]),
        f == FuncType::And ==> u.len() == 3 && keyword(u, seq!['a', 'n', 'd']),
        f != FuncType::And ==> u.len() == 1,
{
    if f == FuncType::And {
        assert(u[0] == 'a' || ('A' <= u[0] && u[0] <= 'Z'));
    } else {
        assert(u =~= seq![u[0]]);
    }
}

/// Two whitespace runs from `pos` that both end before a non-space end at
/// the same place.
proof fn lemma_first_solid(s: Seq<char>, pos: int, p: int, k: int)
    requires
        0 <= pos <= p <= s.len(),
        pos <= k <= s.len(),
        blank(s.subrange(pos, p)),
        p < s.len() ==> !space_char(s[p]),
        blank(s.subrange(pos, k)),
        k < s.len() ==> !space_char(s[k]),
    ensures
        p == k,
{
    if p < k {
        assert(s.subrange(pos, k)[p - pos] == s[p]);
    }
    if k < p {
        assert(s.subrange(pos, p)[k - pos] == s[k]);
    }
}

/// An expression may end where whitespace and then a separator follow.
proof fn lemma_boundary_at(s: Seq<char>, e: int, m: int)
    requires
        0 <= e <= m < s.len(),
        blank(s.subrange(e, m)),
        s[m] == ',' || s[m] == ')' || s[m] == ';' || s[m] == 'w' || s[m] == 'W',
    ensures
        expr_boundary(s, e) || (e == m && (s[m] == 'w' || s[m] == 'W')),
{
    if e < m {
        assert(s.subrange(e, m)[0] == s[e]);
    }
    assert forall|j: int| e <= j < s.len() && blank(s.subrange(e, j)) implies #[trigger] s[j] != '(' by {
        if j < m {
            assert(s.subrange(e, m)[j - e] == s[j]);
        } else if j > m {
            assert(s.subrange(e, j)[m - e] == s[m]);
        }
    }
}

/// An expression may end where only whitespace follows.
proof fn lemma_boundary_tail(s: Seq<char>, e: int)
    requires
        0 <= e <= s.len(),
        blank(s.subrange(e, s.len() as int)),
    ensures
        expr_boundary(s, e),
{
    if e < s.len() {
        assert(s.subrange(e, s.len() as int)[0] == s[e]);
    }
    assert forall|j: int| e <= j < s.len() && blank(s.subrange(e, j)) implies #[trigger] s[j] != '(' by {
        assert(s.subrange(e, s.len() as int)[j - e] == s[j]);
    }
}

/// A name cannot be read where a keyword, whitespace and `(` stand.
proof fn lemma_name_not_call(s: Seq<char>, p: int, qn: int, w: Seq<char>, i2: int)
    requires
        0 <= p < qn <= s.len(),
        letters(s.subrange(p, qn)),
        w.len() > 0,
        forall|i: int| 0 <= i < w.len() ==> 'a' <= #[trigger] w[i] && w[i] <= 'z',
        p + w.len() <= i2 < s.len(),
        keyword(s.subrange(p, p + w.len()), w),
        blank(s.subrange(p + w.len(), i2)),
        s[i2] == '(',
    ensures
        !expr_boundary(s, qn),
{
    let l = p + w.len();
    if qn < l {
        assert(s.subrange(p, p + w.len())[qn - p] == s[qn]);
        assert('a' <= w[qn - p] && w[qn - p] <= 'z');
    } else if qn == l {
        if expr_boundary(s, qn) {
            assert(s[i2] != '(');
        }
    } else {
        assert(s.subrange(p, qn)[l - p] == s[l]);
        if l < i2 {
            assert(s.subrange(l, i2)[0] == s[l]);
        }
    }
}

/// Reading an expression's text: its body starts at the first non-space.
proof fn lemma_text_body(s: Seq<char>, pos: int, q: int, e: ExprView, p: int)
    requires
        0 <= pos <= p <= s.len(),
        pos < q <= s.len(),
        blank(s.subrange(pos, p)),
        p < s.len() ==> !space_char(s[p]),
        expr_text(s.subrange(pos, q), e),
    ensures
        p < q,
        body_at(s, p, q, e),
{
    let t = s.subrange(pos, q);
    match e {
        ExprView::ColName(n) => {
            let k = choose|k: int| 0 <= k <= t.len() && blank(t.take(k)) && #[trigger] t.skip(k) == n && letters(n);
            assert(t.take(k) =~= s.subrange(pos, pos + k));
            assert(n[0] == s[pos + k]);
            lemma_first_solid(s, pos, p, pos + k);
            assert(s.subrange(p, q) =~= t.skip(k));
        },
        ExprView::Const(ValueView::Integer(v)) => {
            let k = choose|k: int|
                0 <= k <= t.len() && blank(t.take(k)) && numeral(#[trigger] t.skip(k)) && numeral_value(t.skip(k)) == v;
            assert(t.take(k) =~= s.subrange(pos, pos + k));
            assert(t.skip(k).len() > 0);
            assert(t.skip(k)[0] == t[k]);
            assert(digit_char(t.skip(k)[0]));
            lemma_first_solid(s, pos, p, pos + k);
            assert(s.subrange(p, q) =~= t.skip(k));
        },
        ExprView::Const(ValueView::Str(x)) => {
            let k = choose|k: int|
                0 <= k <= t.len() && blank(t.take(k)) && #[trigger] t.skip(k) == seq!['"'] + x + seq!['"'] && !x.contains('"');
            assert(t.take(k) =~= s.subrange(pos, pos + k));
            assert((seq!['"'] + x + seq!['"']).len() == x.len() + 2);
            assert((seq!['"'] + x + seq!['"'])[0] == '"');
            assert(t.skip(k).len() >= 2);
            assert(t.skip(k)[0] == t[k]);
            assert(t[k] == s[pos + k]);
            lemma_first_solid(s, pos, p, pos + k);
            assert(s.subrange(p, q) =~= t.skip(k));
        },
        ExprView::Func(f, a, b) => {
            let (k, i1, i2, i3, i4, i5) = choose|k: int, i1: int, i2: int, i3: int, i4: int, i5: int|
                #[trigger] splits(k, i1, i2, i3, i4, i5) && i5 < t.len() && blank(t.take(k))
                    && fname_text(t.subrange(k, i1), f) && blank(t.subrange(i1, i2)) && t[i2] == '('
                    && expr_text(t.subrange(i2 + 1, i3), *a) && blank(t.subrange(i3, i4)) && t[i4]
                    == ',' && expr_text(t.subrange(i4 + 1, i5), *b) && blank(
                    t.subrange(i5, t.len() - 1),
                ) && t.last() == ')';
            assert(t.take(k) =~= s.subrange(pos, pos + k));
            lemma_fname(t.subrange(k, i1), f);
            assert(t.subrange(k, i1)[0] == s[pos + k]);
            lemma_first_solid(s, pos, p, pos + k);
            assert(t.subrange(k, i1) =~= s.subrange(p, pos + i1));
            assert(t.subrange(i1, i2) =~= s.subrange(pos + i1, pos + i2));
            assert(t.subrange(i2 + 1, i3) =~= s.subrange(pos + i2 + 1, pos + i3));
            assert(t.subrange(i3, i4) =~= s.subrange(pos + i3, pos + i4));
            assert(t.subrange(i4 + 1, i5) =~= s.subrange(pos + i4 + 1, pos + i5));
            assert(t.subrange(i5, t.len() - 1) =~= s.subrange(pos + i5, q - 1));
            assert(splits(p, pos + i1, pos + i2, pos + i3, pos + i4, pos + i5));
        },
        _ => {},
    }
}

/// A body after whitespace is a reading of the whole text.
proof fn lemma_body_text(s: Seq<char>, pos: int, p: int, q: int, e: ExprView)
    requires
        0 <= pos <= p < q <= s.len(),
        blank(s.subrange(pos, p)),
        body_at(s, p, q, e),
    ensures
        expr_text(s.subrange(pos, q), e),
{
    let t = s.subrange(pos, q);
    let k = p - pos;
    assert(t.take(k) =~= s.subrange(pos, p));
    assert(t.skip(k) =~= s.subrange(p, q));
    match e {
        ExprView::Func(f, a, b) => {
            let (i1, i2, i3, i4, i5) = choose|i1: int, i2: int, i3: int, i4: int, i5: int|
                #[trigger] splits(p, i1, i2, i3, i4, i5) && i5 < q && fname_text(s.subrange(p, i1), f)
                    && blank(s.subrange(i1, i2)) && s[i2] == '(' && expr_text(s.subrange(i2 + 1, i3), *a)
                    && blank(s.subrange(i3, i4)) && s[i4] == ',' && expr_text(s.subrange(i4 + 1, i5), *b)
                    && blank(s.subrange(i5, q - 1)) && s[q - 1] == ')';
            let o = pos;
            assert(t.subrange(k, i1 - o) =~= s.subrange(p, i1));
            assert(t.subrange(i1 - o, i2 - o) =~= s.subrange(i1, i2));
            assert(t.subrange(i2 - o + 1, i3 - o) =~= s.subrange(i2 + 1, i3));
            assert(t.subrange(i3 - o, i4 - o) =~= s.subrange(i3, i4));
            assert(t.subrange(i4 - o + 1, i5 - o) =~= s.subrange(i4 + 1, i5));
            assert(t.subrange(i5 - o, t.len() - 1) =~= s.subrange(i5, q - 1));
            assert(splits(k, i1 - o, i2 - o, i3 - o, i4 - o, i5 - o));
        },
        _ => {},
    }
}

/// A function application whose name starts at `p`.
/// A function application whose name starts at `p`.
#[verifier::rlimit(100)]
#[verifier::spinoff_prover]
fn parse_func(src: &str, cs: &Vec<char>, p: usize) -> (r: Option<(Expr, usize)>)
    requires
        p < cs@.len(),
        cs@ == src@,
    ensures
        r matches Some((e, q)) ==> p < q <= cs@.len() && no_index(e@) && e@ is Func && body_at(
            cs@,
            p as int,
            q as int,
            e@,
        ),
        forall|e: ExprView, q: int|
            #![trigger body_at(cs@, p as int, q, e)]
            p < q <= cs@.len() && e is Func && body_at(cs@, p as int, q, e) ==> r is Some
                && r->Some_0.0@ == e && r->Some_0.1 == q,
    decreases cs@.len() - p, 0int,
{
    let ghost s = cs@;
    let len = cs.len();
    let c = cs[p];
    proof {
        reveal_strlit("and");
        assert("and"@ =~= seq!['a', 'n', 'd']);
    }
    let (f, q) = if c == '=' {
        (FuncType::Equals, p + 1)
    } else if c == '>' {
        (FuncType::GT, p + 1)
    } else if c == '<' {
        (FuncType::LT, p + 1)
    } else if word_at(cs, p, "and") {
        (FuncType::And, p + 3)
    } else {
        proof {
            assert forall|e: ExprView, q: int| p < q <= s.len() && e is Func && #[trigger] body_at(s, p as int, q, e) implies false by {
                let (i1, i2, i3, i4, i5) = choose|i1: int, i2: int, i3: int, i4: int, i5: int|
                    #[trigger] splits(p as int, i1, i2, i3, i4, i5) && i5 < q && fname_text(s.subrange(p as int, i1), e->Func_0)
                        && blank(s.subrange(i1, i2)) && s[i2] == '(';
                lemma_fname(s.subrange(p as int, i1), e->Func_0);
                assert(s.subrange(p as int, i1)[0] == c);
                if e->Func_0 == FuncType::And {
                    assert(s.subrange(p as int, i1) =~= s.subrange(p as int, p + 3));
                }
            }
        }
        return None;
    };
    // Every reading names `f` in `s[p..q]`.
    proof {
        assert(fname_text(s.subrange(p as int, q as int), f)) by {
            if f != FuncType::And {
                assert(s.subrange(p as int, q as int) =~= seq![c]);
            }
        }
        assert forall|g: FuncType, i1: int| p <= i1 <= s.len() && #[trigger] fname_text(s.subrange(p as int, i1), g)
            implies g == f && i1 == q by {
            lemma_fname(s.subrange(p as int, i1), g);
            assert(s.subrange(p as int, i1)[0] == c);
            lemma_fname(s.subrange(p as int, q as int), f);
            if g == FuncType::And && f == FuncType::And {
                assert(i1 == p + 3);
            }
        }
    }
    let q1 = skip_ws(cs, q);
    if !(q1 < len && cs[q1] == '(') {
        proof {
            assert forall|e: ExprView, qq: int| p < qq <= s.len() && e is Func && #[trigger] body_at(s, p as int, qq, e) implies false by {
                let (i1, i2, i3, i4, i5) = choose|i1: int, i2: int, i3: int, i4: int, i5: int|
                    #[trigger] splits(p as int, i1, i2, i3, i4, i5) && i5 < qq && fname_text(s.subrange(p as int, i1), e->Func_0)
                        && blank(s.subrange(i1, i2)) && s[i2] == '(';
                lemma_first_solid(s, q as int, q1 as int, i2);
            }
        }
        return None;
    }
    let ra = parse_expr(src, cs, q1 + 1);
    if ra.is_none() {
        proof {
            assert forall|e: ExprView, qq: int| p < qq <= s.len() && e is Func && #[trigger] body_at(s, p as int, qq, e) implies false by {
                let (i1, i2, i3, i4, i5) = choose|i1: int, i2: int, i3: int, i4: int, i5: int|
                    #[trigger] splits(p as int, i1, i2, i3, i4, i5) && i5 < qq && fname_text(s.subrange(p as int, i1), e->Func_0)
                        && blank(s.subrange(i1, i2)) && s[i2] == '(' && expr_text(s.subrange(i2 + 1, i3), *e->Func_1)
                        && blank(s.subrange(i3, i4)) && s[i4] == ',';
                lemma_first_solid(s, q as int, q1 as int, i2);
                lemma_text_nonempty(s.subrange(i2 + 1, i3), *e->Func_1);
                lemma_boundary_at(s, i3, i4);
            }
        }
        return None;
    }
    let (a, qa) = ra.unwrap();
    let q2 = skip_ws(cs, qa);
    if !(q2 < len && cs[q2] == ',') {
        proof {
            assert forall|e: ExprView, qq: int| p < qq <= s.len() && e is Func && #[trigger] body_at(s, p as int, qq, e) implies false by {
                let (i1, i2, i3, i4, i5) = choose|i1: int, i2: int, i3: int, i4: int, i5: int|
                    #[trigger] splits(p as int, i1, i2, i3, i4, i5) && i5 < qq && fname_text(s.subrange(p as int, i1), e->Func_0)
                        && blank(s.subrange(i1, i2)) && s[i2] == '(' && expr_text(s.subrange(i2 + 1, i3), *e->Func_1)
                        && blank(s.subrange(i3, i4)) && s[i4] == ',';
                lemma_first_solid(s, q as int, q1 as int, i2);
                lemma_text_nonempty(s.subrange(i2 + 1, i3), *e->Func_1);
                lemma_boundary_at(s, i3, i4);
                lemma_first_solid(s, qa as int, q2 as int, i4);
            }
        }
        return None;
    }
    let rb = parse_expr(src, cs, q2 + 1);
    if rb.is_none() {
        proof {
            assert forall|e: ExprView, qq: int| p < qq <= s.len() && e is Func && #[trigger] body_at(s, p as int, qq, e) implies false by {
                let (i1, i2, i3, i4, i5) = choose|i1: int, i2: int, i3: int, i4: int, i5: int|
                    #[trigger] splits(p as int, i1, i2, i3, i4, i5) && i5 < qq && fname_text(s.subrange(p as int, i1), e->Func_0)
                        && blank(s.subrange(i1, i2)) && s[i2] == '(' && expr_text(s.subrange(i2 + 1, i3), *e->Func_1)
                        && blank(s.subrange(i3, i4)) && s[i4] == ',' && expr_text(s.subrange(i4 + 1, i5), *e->Func_2)
                        && blank(s.subrange(i5, qq - 1)) && s[qq - 1] == ')';
                lemma_first_solid(s, q as int, q1 as int, i2);
                lemma_text_nonempty(s.subrange(i2 + 1, i3), *e->Func_1);
                lemma_boundary_at(s, i3, i4);
                lemma_first_solid(s, qa as int, q2 as int, i4);
                lemma_text_nonempty(s.subrange(i4 + 1, i5), *e->Func_2);
                lemma_boundary_at(s, i5, qq - 1);
            }
        }
        return None;
    }
    let (b, qb) = rb.unwrap();
    let q3 = skip_ws(cs, qb);
    if !(q3 < len && cs[q3] == ')') {
        proof {
            assert forall|e: ExprView, qq: int| p < qq <= s.len() && e is Func && #[trigger] body_at(s, p as int, qq, e) implies false by {
                let (i1, i2, i3, i4, i5) = choose|i1: int, i2: int, i3: int, i4: int, i5: int|
                    #[trigger] splits(p as int, i1, i2, i3, i4, i5) && i5 < qq && fname_text(s.subrange(p as int, i1), e->Func_0)
                        && blank(s.subrange(i1, i2)) && s[i2] == '(' && expr_text(s.subrange(i2 + 1, i3), *e->Func_1)
                        && blank(s.subrange(i3, i4)) && s[i4] == ',' && expr_text(s.subrange(i4 + 1, i5), *e->Func_2)
                        && blank(s.subrange(i5, qq - 1)) && s[qq - 1] == ')';
                lemma_first_solid(s, q as int, q1 as int, i2);
                lemma_text_nonempty(s.subrange(i2 + 1, i3), *e->Func_1);
                lemma_boundary_at(s, i3, i4);
                lemma_first_solid(s, qa as int, q2 as int, i4);
                lemma_text_nonempty(s.subrange(i4 + 1, i5), *e->Func_2);
                lemma_boundary_at(s, i5, qq - 1);
                lemma_first_solid(s, qb as int, q3 as int, qq - 1);
            }
        }
        return None;
    }
    let e = Expr::func(f, a, b);
    proof {
        assert(splits(p as int, q as int, q1 as int, qa as int, q2 as int, qb as int));
        assert(body_at(s, p as int, q3 + 1, e@));
        assert forall|e2: ExprView, qq: int| p < qq <= s.len() && e2 is Func && #[trigger] body_at(s, p as int, qq, e2) implies e@ == e2 && q3 + 1 == qq by {
            let (i1, i2, i3, i4, i5) = choose|i1: int, i2: int, i3: int, i4: int, i5: int|
                #[trigger] splits(p as int, i1, i2, i3, i4, i5) && i5 < qq && fname_text(s.subrange(p as int, i1), e2->Func_0)
                    && blank(s.subrange(i1, i2)) && s[i2] == '(' && expr_text(s.subrange(i2 + 1, i3), *e2->Func_1)
                    && blank(s.subrange(i3, i4)) && s[i4] == ',' && expr_text(s.subrange(i4 + 1, i5), *e2->Func_2)
                    && blank(s.subrange(i5, qq - 1)) && s[qq - 1] == ')';
            lemma_first_solid(s, q as int, q1 as int, i2);
            lemma_text_nonempty(s.subrange(i2 + 1, i3), *e2->Func_1);
            lemma_boundary_at(s, i3, i4);
            lemma_first_solid(s, qa as int, q2 as int, i4);
            lemma_text_nonempty(s.subrange(i4 + 1, i5), *e2->Func_2);
            lemma_boundary_at(s, i5, qq - 1);
            lemma_first_solid(s, qb as int, q3 as int, qq - 1);
        }
    }
    Some((e, q3 + 1))
}

/// What the first character of a body tells about it.
proof fn lemma_body_first(s: Seq<char>, p: int, q: int, e: ExprView)
    requires
        0 <= p < q <= s.len(),
        body_at(s, p, q, e),
    ensures
        e is ColName ==> letter_char(s[p]),
        e is Const ==> digit_char(s[p]) || s[p] == '"',
        e is Const && digit_char(s[p]) ==> e->Const_0 is Integer,
        e is Const && s[p] == '"' ==> e->Const_0 is Str,
        e is Func ==> !digit_char(s[p]) && s[p] != '"' && (letter_char(s[p]) ==> e->Func_0 == FuncType::And),
        !(e is ColIndex),
{
    match e {
        ExprView::ColName(n) => {
            assert(s.subrange(p, q)[0] == s[p]);
        },
        ExprView::Const(ValueView::Integer(v)) => {
            assert(s.subrange(p, q)[0] == s[p]);
        },
        ExprView::Const(ValueView::Str(x)) => {
            assert(s.subrange(p, q)[0] == s[p]);
            assert((seq!['"'] + x + seq!['"'])[0] == '"');
        },
        ExprView::Func(f, a, b) => {
            let (i1, i2, i3, i4, i5) = choose|i1: int, i2: int, i3: int, i4: int, i5: int|
                #[trigger] splits(p, i1, i2, i3, i4, i5) && i5 < q && fname_text(s.subrange(p, i1), f);
            lemma_fname(s.subrange(p, i1), f);
            assert(s.subrange(p, i1)[0] == s[p]);
        },
        _ => {},
    }
}

/// The letters from `p` on, as a column name.
fn parse_name(src: &str, cs: &Vec<char>, p: usize) -> (r: (String, usize))
    requires
        p < cs@.len(),
        cs@ == src@,
        letter_char(cs@[p as int]),
    ensures
        p < r.1 <= cs@.len(),
        body_at(cs@, p as int, r.1 as int, ExprView::ColName(r.0@)),
        forall|n: Seq<char>, q: int|
            #![trigger body_at(cs@, p as int, q, ExprView::ColName(n))]
            p < q <= cs@.len() && body_at(cs@, p as int, q, ExprView::ColName(n)) && expr_boundary(cs@, q)
                ==> n == r.0@ && q == r.1,
{
    let ghost s = cs@;
    let len = cs.len();
    let mut q = p + 1;
    while q < len && is_alpha(cs[q])
        invariant
            p < q <= len,
            len == cs@.len(),
            s == cs@,
            forall|j: int| p <= j < q ==> letter_char(#[trigger] cs@[j]),
        decreases len - q,
    {
        q = q + 1;
    }
    let name = String::from_str(src.substring_char(p, q));
    proof {
        assert(name@ =~= s.subrange(p as int, q as int));
        assert forall|n: Seq<char>, q2: int|
            p < q2 <= s.len() && #[trigger] body_at(s, p as int, q2, ExprView::ColName(n)) && expr_boundary(s, q2)
            implies n == name@ && q2 == q by {
            if q < q2 {
                assert(s.subrange(p as int, q2)[q - p] == s[q as int]);
            } else if q2 < q {
                assert(letter_char(s[q2]));
            }
            assert(s.subrange(p as int, q2) =~= s.subrange(p as int, q as int));
        }
    }
    (name, q)
}

/// The integer whose digits start at `p`, if it fits in an `i64`.
fn parse_number(cs: &Vec<char>, p: usize) -> (r: Option<(i64, usize)>)
    requires
        p < cs@.len(),
        digit_char(cs@[p as int]),
    ensures
        r matches Some((v, q)) ==> p < q <= cs@.len() && body_at(cs@, p as int, q as int, ExprView::Const(ValueView::Integer(v))),
        forall|v: i64, q: int|
            #![trigger body_at(cs@, p as int, q, ExprView::Const(ValueView::Integer(v)))]
            p < q <= cs@.len() && body_at(cs@, p as int, q, ExprView::Const(ValueView::Integer(v))) && expr_boundary(cs@, q)
                ==> r == Some((v, q as usize)),
{
    let ghost s = cs@;
    let len = cs.len();
    let mut q = p + 1;
    while q < len && is_digit(cs[q])
        invariant
            p < q <= len,
            len == cs@.len(),
            s == cs@,
            forall|j: int| p <= j < q ==> digit_char(#[trigger] cs@[j]),
        decreases len - q,
    {
        q = q + 1;
    }
    assert(numeral(s.subrange(p as int, q as int)));
    proof {
        assert forall|v: i64, q2: int|
            p < q2 <= s.len() && #[trigger] body_at(s, p as int, q2, ExprView::Const(ValueView::Integer(v))) && expr_boundary(s, q2)
            implies q2 == q && numeral_value(s.subrange(p as int, q as int)) == v by {
            if q < q2 {
                assert(s.subrange(p as int, q2)[q - p] == s[q as int]);
            } else if q2 < q {
                assert(digit_char(s[q2]));
            }
        }
    }
    match digits_value(cs, p, q) {
        Some(v) => Some((v, q)),
        None => None,
    }
}

/// The quoted string that starts at `p`, if it is closed.
fn parse_string(src: &str, cs: &Vec<char>, p: usize) -> (r: Option<(String, usize)>)
    requires
        p < cs@.len(),
        cs@ == src@,
        cs@[p as int] == '"',
    ensures
        r matches Some((x, q)) ==> p < q <= cs@.len() && body_at(cs@, p as int, q as int, ExprView::Const(ValueView::Str(x@))),
        forall|x: Seq<char>, q: int|
            #![trigger body_at(cs@, p as int, q, ExprView::Const(ValueView::Str(x)))]
            p < q <= cs@.len() && body_at(cs@, p as int, q, ExprView::Const(ValueView::Str(x)))
                ==> r is Some && r->Some_0.0@ == x && r->Some_0.1 == q,
{
    let ghost s = cs@;
    let len = cs.len();
    let mut q = p + 1;
    while q < len && cs[q] != '"'
        invariant
            p < q <= len,
            len == cs@.len(),
            s == cs@,
            forall|j: int| p < j < q ==> #[trigger] cs@[j] != '"',
        decreases len - q,
    {
        q = q + 1;
    }
    proof {
        assert forall|x: Seq<char>, q2: int|
            p < q2 <= s.len() && #[trigger] body_at(s, p as int, q2, ExprView::Const(ValueView::Str(x)))
            implies q < len && x == s.subrange(p + 1, q as int) && q + 1 == q2 by {
            let t = s.subrange(p as int, q2);
            assert(t.len() == x.len() + 2);
            assert(t[t.len() - 1] == (seq!['"'] + x + seq!['"'])[x.len() + 1int]);
            if q < q2 - 1 {
                assert(t[q - p] == s[q as int]);
                assert(x[q - p - 1] == t[q - p]);
            } else if q2 - 1 < q {
                assert(s[q2 - 1] == '"');
            }
            assert forall|j: int| 0 <= j < x.len() implies x[j] == s[p + 1 + j] by {
                assert(t[j + 1] == x[j]);
            }
            assert(x =~= s.subrange(p + 1, q as int));
        }
    }
    if q < len {
        let text = String::from_str(src.substring_char(p + 1, q));
        proof {
            let x = text@;
            assert(s.subrange(p as int, q + 1) =~= seq!['"'] + x + seq!['"']);
            assert(!x.contains('"')) by {
                if x.contains('"') {
                    let j = choose|j: int| 0 <= j < x.len() && x[j] == '"';
                    assert(s[p + 1 + j] == '"');
                }
            }
        }
        Some((text, q + 1))
    } else {
        None
    }
}

/// An expression at `pos`, after optional whitespace: a function
/// application, a column name, an integer or a quoted string. Gives the
/// expression and the position after the text it was read from. Where the
/// text from `pos` reads as an expression up to a place where an expression
/// may end, that is what comes back.
#[verifier::rlimit(100)]
#[verifier::spinoff_prover]
fn parse_expr(src: &str, cs: &Vec<char>, pos: usize) -> (r: Option<(Expr, usize)>)
    requires
        pos <= cs@.len(),
        cs@ == src@,
    ensures
        r matches Some((e, p)) ==> pos < p <= cs@.len() && no_index(e@) && expr_text(
            cs@.subrange(pos as int, p as int),
            e@,
        ),
        forall|e: ExprView, q: int|
            #![trigger expr_text(cs@.subrange(pos as int, q), e)]
            pos < q <= cs@.len() && expr_text(cs@.subrange(pos as int, q), e) && expr_boundary(cs@, q)
                ==> r is Some && r->Some_0.0@ == e && r->Some_0.1 == q,
    decreases cs@.len() - pos, 1int,
{
    let ghost s = cs@;
    let len = cs.len();
    let p = skip_ws(cs, pos);
    proof {
        assert forall|e: ExprView, q: int| pos < q <= s.len() && #[trigger] expr_text(s.subrange(pos as int, q), e) implies p < q && body_at(s, p as int, q, e) by {
            lemma_text_body(s, pos as int, q, e, p as int);
            lemma_body_first(s, p as int, q, e);
        }
    }
    if p >= len {
        return None;
    }
    let c = cs[p];
    let rf = parse_func(src, cs, p);
    if let Some((e, q)) = rf {
        proof {
            lemma_body_text(s, pos as int, p as int, q as int, e@);
            let (i1, i2, i3, i4, i5) = choose|i1: int, i2: int, i3: int, i4: int, i5: int|
                #[trigger] splits(p as int, i1, i2, i3, i4, i5) && i5 < q && fname_text(s.subrange(p as int, i1), e@->Func_0)
                    && blank(s.subrange(i1, i2)) && s[i2] == '(';
            lemma_fname(s.subrange(p as int, i1), e@->Func_0);
            assert(s.subrange(p as int, i1)[0] == c);
            assert forall|e2: ExprView, q2: int| pos < q2 <= s.len() && #[trigger] expr_text(s.subrange(pos as int, q2), e2) && expr_boundary(s, q2)
                implies e@ == e2 && q == q2 by {
                lemma_body_first(s, p as int, q2, e2);
                if e2 is ColName {
                    assert(s.subrange(p as int, i1) =~= s.subrange(p as int, p + 3));
                    lemma_name_not_call(s, p as int, q2, seq!['a', 'n', 'd'], i2);
                }
            }
        }
        return Some((e, q));
    }
    if is_alpha(c) {
        let (name, q) = parse_name(src, cs, p);
        proof {
            lemma_body_text(s, pos as int, p as int, q as int, ExprView::ColName(name@));
            assert forall|e2: ExprView, q2: int| pos < q2 <= s.len() && #[trigger] expr_text(s.subrange(pos as int, q2), e2) && expr_boundary(s, q2)
                implies ExprView::ColName(name@) == e2 && q == q2 by {
                lemma_body_first(s, p as int, q2, e2);
            }
        }
        return Some((Expr::ColName(name), q));
    }
    if is_digit(c) {
        return match parse_number(cs, p) {
            Some((v, q)) => {
                proof {
                    lemma_body_text(s, pos as int, p as int, q as int, ExprView::Const(ValueView::Integer(v)));
                    assert forall|e2: ExprView, q2: int| pos < q2 <= s.len() && #[trigger] expr_text(s.subrange(pos as int, q2), e2) && expr_boundary(s, q2)
                        implies ExprView::Const(ValueView::Integer(v)) == e2 && q == q2 by {
                        lemma_body_first(s, p as int, q2, e2);
                        let v2 = e2->Const_0->Integer_0;
                        assert(e2 == ExprView::Const(ValueView::Integer(v2)));
                        assert(body_at(s, p as int, q2, ExprView::Const(ValueView::Integer(v2))));
                    }
                }
                Some((Expr::Const(Value::Integer(v)), q))
            },
            None => {
                proof {
                    assert forall|e2: ExprView, q2: int| pos < q2 <= s.len() && #[trigger] expr_text(s.subrange(pos as int, q2), e2) && expr_boundary(s, q2)
                        implies false by {
                        lemma_body_first(s, p as int, q2, e2);
                        let v2 = e2->Const_0->Integer_0;
                        assert(e2 == ExprView::Const(ValueView::Integer(v2)));
                        assert(body_at(s, p as int, q2, ExprView::Const(ValueView::Integer(v2))));
                    }
                }
                None
            },
        };
    }
    if c == '"' {
        return match parse_string(src, cs, p) {
            Some((text, q)) => {
                proof {
                    lemma_body_text(s, pos as int, p as int, q as int, ExprView::Const(ValueView::Str(text@)));
                    assert forall|e2: ExprView, q2: int| pos < q2 <= s.len() && #[trigger] expr_text(s.subrange(pos as int, q2), e2) && expr_boundary(s, q2)
                        implies ExprView::Const(ValueView::Str(text@)) == e2 && q == q2 by {
                        lemma_body_first(s, p as int, q2, e2);
                    }
                }
                Some((Expr::Const(Value::Str(text)), q))
            },
            None => {
                proof {
                    assert forall|e2: ExprView, q2: int| pos < q2 <= s.len() && #[trigger] expr_text(s.subrange(pos as int, q2), e2) && expr_boundary(s, q2)
                        implies false by {
                        lemma_body_first(s, p as int, q2, e2);
                    }
                }
                None
            },
        };
    }
    proof {
        assert forall|e2: ExprView, q2: int| pos < q2 <= s.len() && #[trigger] expr_text(s.subrange(pos as int, q2), e2) && expr_boundary(s, q2)
            implies false by {
            lemma_body_first(s, p as int, q2, e2);
        }
    }
    None
}

/// The lower-case name of an aggregate.
pub open spec fn agg_word(agg: Aggregator) -> Seq<char> {
    match agg {
        Aggregator::Count => seq!['c', 'o', 'u', 'n', 't'],
        Aggregator::Sum => seq!['s', 'u', 'm'],
    }
}

/// Marks a choice of split points in a clause's or a query's text.
pub open spec fn splits4(k: int, i1: int, i2: int, i3: int) -> bool {
    0 <= k <= i1 <= i2 <= i3
}

/// Whether `t` reads as the clause `c`: an expression, or an aggregate's
/// name (any case) and its expression in parentheses, whitespace allowed
/// around the parentheses.
pub open spec fn clause_text(t: Seq<char>, c: ClauseView) -> bool {
    match c {
        ClauseView::Select(e) => expr_text(t, e),
        ClauseView::Aggregate(agg, e) => exists|k: int, i1: int, i2: int, i3: int|
            #[trigger] splits4(k, i1, i2, i3) && i2 < i3 < t.len() && blank(t.take(k)) && keyword(
                t.subrange(k, i1),
                agg_word(agg),
            ) && blank(t.subrange(i1, i2)) && t[i2] == '(' && expr_text(t.subrange(i2 + 1, i3), e)
                && blank(t.subrange(i3, t.len() - 1)) && t.last() == ')',
    }
}

/// Where the clauses of a list stand in `t`: clause `m` in `t[b[m]..e[m]]`,
/// the first at the start and the last at the end; between two clauses
/// whitespace and a comma, the comma just before the next clause.
pub open spec fn clause_layout(t: Seq<char>, items: Seq<ClauseView>, b: Seq<int>, e: Seq<int>) -> bool {
    &&& items.len() > 0
    &&& b.len() == items.len()
    &&& e.len() == items.len()
    &&& b[0] == 0
    &&& e[items.len() - 1] == t.len()
    &&& forall|m: int|
        0 <= m < items.len() ==> 0 <= b[m] < e[m] <= t.len() && clause_text(
            t.subrange(b[m], e[m]),
            #[trigger] items[m],
        )
    &&& forall|m: int|
        0 <= m < items.len() - 1 ==> #[trigger] e[m] < b[m + 1] && blank(t.subrange(e[m], b[m + 1] - 1))
            && t[b[m + 1] - 1] == ','
}

/// Whether `t` reads as the clause list `items`, separated by commas with
/// whitespace allowed before each comma.
pub open spec fn clauses_text(t: Seq<char>, items: Seq<ClauseView>) -> bool {
    exists|b: Seq<int>, e: Seq<int>| #[trigger] clause_layout(t, items, b, e)
}

/// Whether `t` is whitespace, optionally with one `;` inside.
pub open spec fn query_end(t: Seq<char>) -> bool {
    blank(t) || exists|i: int|
        0 <= i < t.len() && #[trigger] t[i] == ';' && blank(t.take(i)) && blank(t.skip(i + 1))
}

/// The parts of a query text: `select` at `k`, the clauses in
/// `t[k+6..c]`, `where` at `wp` with the filter in `t[wp+5..w]` (or no
/// `where` and an always-true filter when `c == w`), then the end.
pub open spec fn query_layout(
    t: Seq<char>,
    items: Seq<ClauseView>,
    filter: ExprView,
    k: int,
    c: int,
    wp: int,
    w: int,
) -> bool {
    &&& splits4(k, c, wp, w)
    &&& w <= t.len()
    &&& blank(t.take(k))
    &&& k + 6 < c
    &&& keyword(t.subrange(k, k + 6), seq!['s', 'e', 'l', 'e', 'c', 't'])
    &&& space_char(t[k + 6])
    &&& clauses_text(t.subrange(k + 6, c), items)
    &&& if c == w {
        filter == ExprView::Const(ValueView::Bool(true))
    } else {
        c < wp && wp + 5 <= w && blank(t.subrange(c, wp)) && keyword(
            t.subrange(wp, wp + 5),
            seq!['w', 'h', 'e', 'r', 'e'],
        ) && expr_text(t.subrange(wp + 5, w), filter)
    }
    &&& query_end(t.skip(w))
}

/// Whether `t` reads as a query with the clauses `items` and the filter
/// `filter`: `select`, whitespace, the clauses, then `where` and the filter
/// after whitespace (or no `where` and an always-true filter), then an
/// optional `;`. Keywords may be written in any case.
pub open spec fn query_text(t: Seq<char>, items: Seq<ClauseView>, filter: ExprView) -> bool {
    exists|k: int, c: int, wp: int, w: int| #[trigger] query_layout(t, items, filter, k, c, wp, w)
}

/// A clause layout grows by one clause after a comma.
proof fn lemma_layout_push(
    s: Seq<char>,
    start: int,
    items: Seq<ClauseView>,
    b: Seq<int>,
    e: Seq<int>,
    old_end: int,
    p: int,
    q: int,
    cv: ClauseView,
)
    requires
        0 <= start <= old_end <= p < q <= s.len(),
        items.len() == 0 ==> p == start && b.len() == 0 && e.len() == 0,
        items.len() > 0 ==> clause_layout(s.subrange(start, old_end), items, b, e) && old_end < p
            && blank(s.subrange(old_end, p - 1)) && s[p - 1] == ',',
        clause_text(s.subrange(p, q), cv),
    ensures
        clause_layout(s.subrange(start, q), items.push(cv), b.push(p - start), e.push(q - start)),
{
    let t0 = s.subrange(start, old_end);
    let t = s.subrange(start, q);
    let it = items.push(cv);
    let nb = b.push(p - start);
    let ne = e.push(q - start);
    let n = items.len();
    assert(b.len() == n && e.len() == n);
    assert(t.subrange(p - start, q - start) =~= s.subrange(p, q));
    assert forall|m: int|
        #![trigger it[m]]
        #![trigger nb[m]]
        0 <= m < it.len() implies 0 <= nb[m] < ne[m] <= t.len() && clause_text(t.subrange(nb[m], ne[m]), it[m]) by {
        if m < n {
            assert(it[m] == items[m]);
            assert(clause_text(t0.subrange(b[m], e[m]), items[m]));
            assert(nb[m] == b[m] && ne[m] == e[m]);
            assert(0 <= b[m] < e[m] <= t0.len());
            assert(t.subrange(nb[m], ne[m]) =~= t0.subrange(b[m], e[m]));
        } else {
            assert(m == n);
            assert(nb[m] == p - start && ne[m] == q - start);
        }
    }
    assert forall|m: int| 0 <= m < it.len() - 1 implies #[trigger] ne[m] < nb[m + 1] && blank(t.subrange(ne[m], nb[m + 1] - 1))
        && t[nb[m + 1] - 1] == ',' by {
        if m < n - 1 {
            assert(e[m] < b[m + 1]);
            assert(clause_text(t0.subrange(b[m], e[m]), items[m]));
            assert(clause_text(t0.subrange(b[m + 1], e[m + 1]), items[m + 1]));
            assert(ne[m] == e[m] && nb[m + 1] == b[m + 1]);
            assert(t.subrange(ne[m], nb[m + 1] - 1) =~= t0.subrange(e[m], b[m + 1] - 1));
            assert(t[nb[m + 1] - 1] == t0[b[m + 1] - 1]);
        } else {
            assert(e[m] == old_end - start);
            assert(t.subrange(ne[m], nb[m + 1] - 1) =~= s.subrange(old_end, p - 1));
        }
    }
    if n > 0 {
        assert(b[0] == 0);
        assert(nb[0] == 0);
    } else {
        assert(nb[0] == 0);
    }
    assert(ne[it.len() - 1] == t.len());
    assert(nb.len() == it.len());
    assert(ne.len() == it.len());
    assert(clause_layout(t, it, nb, ne));
}

/// `s[p..q]` reads as the aggregate `agg` of `e`, with no leading
/// whitespace.
pub open spec fn agg_body_at(s: Seq<char>, p: int, q: int, agg: Aggregator, e: ExprView) -> bool {
    exists|i1: int, i2: int, i3: int|
        #[trigger] splits4(p, i1, i2, i3) && i2 < i3 < q && keyword(s.subrange(p, i1), agg_word(agg))
            && blank(s.subrange(i1, i2)) && s[i2] == '(' && expr_text(s.subrange(i2 + 1, i3), e)
            && blank(s.subrange(i3, q - 1)) && s[q - 1] == ')'
}

proof fn lemma_agg_word(agg: Aggregator)
    ensures
        agg_word(agg).len() > 0,
        forall|i: int| 0 <= i < agg_word(agg).len() ==> 'a' <= #[trigger] agg_word(agg)[i] && agg_word(agg)[i] <= 'z',
{
}

/// A keyword's first character is that of the word, in either case.
proof fn lemma_keyword_first(u: Seq<char>, w: Seq<char>)
    requires
        keyword(u, w),
        w.len() > 0,
    ensures
        u[0] == w[0] || (u[0] as u32) + 32 == (w[0] as u32),
        !space_char(u[0]) || space_char(w[0]),
{
}

/// Reading an aggregate clause: its body starts at the first non-space.
proof fn lemma_agg_text_body(s: Seq<char>, pos: int, q: int, agg: Aggregator, e: ExprView, p: int)
    requires
        0 <= pos <= p <= s.len(),
        pos < q <= s.len(),
        blank(s.subrange(pos, p)),
        p < s.len() ==> !space_char(s[p]),
        clause_text(s.subrange(pos, q), ClauseView::Aggregate(agg, e)),
    ensures
        p < q,
        agg_body_at(s, p, q, agg, e),
{
    let t = s.subrange(pos, q);
    let (k, i1, i2, i3) = choose|k: int, i1: int, i2: int, i3: int|
        #[trigger] splits4(k, i1, i2, i3) && i2 < i3 < t.len() && blank(t.take(k)) && keyword(
            t.subrange(k, i1),
            agg_word(agg),
        ) && blank(t.subrange(i1, i2)) && t[i2] == '(' && expr_text(t.subrange(i2 + 1, i3), e)
            && blank(t.subrange(i3, t.len() - 1)) && t.last() == ')';
    lemma_agg_word(agg);
    lemma_keyword_first(t.subrange(k, i1), agg_word(agg));
    assert(t.take(k) =~= s.subrange(pos, pos + k));
    assert(t.subrange(k, i1)[0] == s[pos + k]);
    lemma_first_solid(s, pos, p, pos + k);
    assert(t.subrange(k, i1) =~= s.subrange(p, pos + i1));
    assert(t.subrange(i1, i2) =~= s.subrange(pos + i1, pos + i2));
    assert(t.subrange(i2 + 1, i3) =~= s.subrange(pos + i2 + 1, pos + i3));
    assert(t.subrange(i3, t.len() - 1) =~= s.subrange(pos + i3, q - 1));
    assert(splits4(p, pos + i1, pos + i2, pos + i3));
}

/// An aggregate body after whitespace is a reading of the whole clause.
proof fn lemma_agg_body_text(s: Seq<char>, pos: int, p: int, q: int, agg: Aggregator, e: ExprView)
    requires
        0 <= pos <= p < q <= s.len(),
        blank(s.subrange(pos, p)),
        agg_body_at(s, p, q, agg, e),
    ensures
        clause_text(s.subrange(pos, q), ClauseView::Aggregate(agg, e)),
{
    let t = s.subrange(pos, q);
    let (i1, i2, i3) = choose|i1: int, i2: int, i3: int|
        #[trigger] splits4(p, i1, i2, i3) && i2 < i3 < q && keyword(s.subrange(p, i1), agg_word(agg))
            && blank(s.subrange(i1, i2)) && s[i2] == '(' && expr_text(s.subrange(i2 + 1, i3), e)
            && blank(s.subrange(i3, q - 1)) && s[q - 1] == ')';
    let o = pos;
    assert(t.take(p - o) =~= s.subrange(pos, p));
    assert(t.subrange(p - o, i1 - o) =~= s.subrange(p, i1));
    assert(t.subrange(i1 - o, i2 - o) =~= s.subrange(i1, i2));
    assert(t.subrange(i2 - o + 1, i3 - o) =~= s.subrange(i2 + 1, i3));
    assert(t.subrange(i3 - o, t.len() - 1) =~= s.subrange(i3, q - 1));
    assert(splits4(p - o, i1 - o, i2 - o, i3 - o));
}

/// `count(expr)` or `sum(expr)` starting at `p`, the name in any case.
#[verifier::rlimit(100)]
#[verifier::spinoff_prover]
fn parse_aggregate(src: &str, cs: &Vec<char>, p: usize) -> (r: Option<(Aggregator, Expr, usize)>)
    requires
        p < cs@.len(),
        cs@ == src@,
    ensures
        r matches Some((agg, e, q)) ==> p < q <= cs@.len() && no_index(e@) && agg_body_at(
            cs@,
            p as int,
            q as int,
            agg,
            e@,
        ),
        forall|agg: Aggregator, e: ExprView, q: int|
            #![trigger agg_body_at(cs@, p as int, q, agg, e)]
            p < q <= cs@.len() && agg_body_at(cs@, p as int, q, agg, e) ==> r is Some && r->Some_0.0
                == agg && r->Some_0.1@ == e && r->Some_0.2 == q,
{
    let ghost s = cs@;
    let len = cs.len();
    proof {
        reveal_strlit("count");
        reveal_strlit("sum");
        assert("count"@ =~= agg_word(Aggregator::Count));
        assert("sum"@ =~= agg_word(Aggregator::Sum));
    }
    let (agg, q) = if word_at(cs, p, "count") {
        (Aggregator::Count, p + 5)
    } else if word_at(cs, p, "sum") {
        (Aggregator::Sum, p + 3)
    } else {
        proof {
            assert forall|agg: Aggregator, e: ExprView, qq: int| p < qq <= s.len() && #[trigger] agg_body_at(s, p as int, qq, agg, e) implies false by {
                let (i1, i2, i3) = choose|i1: int, i2: int, i3: int|
                    #[trigger] splits4(p as int, i1, i2, i3) && i2 < i3 < qq && keyword(s.subrange(p as int, i1), agg_word(agg));
                assert(s.subrange(p as int, i1) =~= s.subrange(p as int, p + agg_word(agg).len()));
            }
        }
        return None;
    };
    proof {
        assert forall|g: Aggregator, i1: int| p <= i1 <= s.len() && #[trigger] keyword(s.subrange(p as int, i1), agg_word(g))
            implies g == agg && i1 == q by {
            lemma_keyword_first(s.subrange(p as int, i1), agg_word(g));
            lemma_keyword_first(s.subrange(p as int, q as int), agg_word(agg));
            assert(s.subrange(p as int, i1)[0] == s[p as int]);
            assert(s.subrange(p as int, q as int)[0] == s[p as int]);
        }
    }
    let q1 = skip_ws(cs, q);
    if !(q1 < len && cs[q1] == '(') {
        proof {
            assert forall|g: Aggregator, e: ExprView, qq: int| p < qq <= s.len() && #[trigger] agg_body_at(s, p as int, qq, g, e) implies false by {
                let (i1, i2, i3) = choose|i1: int, i2: int, i3: int|
                    #[trigger] splits4(p as int, i1, i2, i3) && i2 < i3 < qq && keyword(s.subrange(p as int, i1), agg_word(g))
                        && blank(s.subrange(i1, i2)) && s[i2] == '(';
                lemma_first_solid(s, q as int, q1 as int, i2);
            }
        }
        return None;
    }
    let re = parse_expr(src, cs, q1 + 1);
    if re.is_none() {
        proof {
            assert forall|g: Aggregator, e: ExprView, qq: int| p < qq <= s.len() && #[trigger] agg_body_at(s, p as int, qq, g, e) implies false by {
                let (i1, i2, i3) = choose|i1: int, i2: int, i3: int|
                    #[trigger] splits4(p as int, i1, i2, i3) && i2 < i3 < qq && keyword(s.subrange(p as int, i1), agg_word(g))
                        && blank(s.subrange(i1, i2)) && s[i2] == '(' && expr_text(s.subrange(i2 + 1, i3), e)
                        && blank(s.subrange(i3, qq - 1)) && s[qq - 1] == ')';
                lemma_first_solid(s, q as int, q1 as int, i2);
                lemma_text_nonempty(s.subrange(i2 + 1, i3), e);
                lemma_boundary_at(s, i3, qq - 1);
            }
        }
        return None;
    }
    let (e, qe) = re.unwrap();
    let q2 = skip_ws(cs, qe);
    if !(q2 < len && cs[q2] == ')') {
        proof {
            assert forall|g: Aggregator, e2: ExprView, qq: int| p < qq <= s.len() && #[trigger] agg_body_at(s, p as int, qq, g, e2) implies false by {
                let (i1, i2, i3) = choose|i1: int, i2: int, i3: int|
                    #[trigger] splits4(p as int, i1, i2, i3) && i2 < i3 < qq && keyword(s.subrange(p as int, i1), agg_word(g))
                        && blank(s.subrange(i1, i2)) && s[i2] == '(' && expr_text(s.subrange(i2 + 1, i3), e2)
                        && blank(s.subrange(i3, qq - 1)) && s[qq - 1] == ')';
                lemma_first_solid(s, q as int, q1 as int, i2);
                lemma_text_nonempty(s.subrange(i2 + 1, i3), e2);
                lemma_boundary_at(s, i3, qq - 1);
                lemma_first_solid(s, qe as int, q2 as int, qq - 1);
            }
        }
        return None;
    }
    proof {
        assert(agg_word(agg).len() == q - p);
        assert(splits4(p as int, q as int, q1 as int, qe as int));
        assert(agg_body_at(s, p as int, q2 + 1, agg, e@));
        assert forall|g: Aggregator, e2: ExprView, qq: int| p < qq <= s.len() && #[trigger] agg_body_at(s, p as int, qq, g, e2)
            implies g == agg && e2 == e@ && qq == q2 + 1 by {
            let (i1, i2, i3) = choose|i1: int, i2: int, i3: int|
                #[trigger] splits4(p as int, i1, i2, i3) && i2 < i3 < qq && keyword(s.subrange(p as int, i1), agg_word(g))
                    && blank(s.subrange(i1, i2)) && s[i2] == '(' && expr_text(s.subrange(i2 + 1, i3), e2)
                    && blank(s.subrange(i3, qq - 1)) && s[qq - 1] == ')';
            lemma_first_solid(s, q as int, q1 as int, i2);
            lemma_text_nonempty(s.subrange(i2 + 1, i3), e2);
            lemma_boundary_at(s, i3, qq - 1);
            lemma_first_solid(s, qe as int, q2 as int, qq - 1);
        }
    }
    Some((agg, e, q2 + 1))
}

/// A clause at `pos`: `count(expr)`, `sum(expr)` (either in any case), or
/// an expression. Where the text from `pos` reads as a clause up to a place
/// where an expression may end, that is what comes back.
#[verifier::rlimit(100)]
#[verifier::spinoff_prover]
fn parse_clause(src: &str, cs: &Vec<char>, pos: usize) -> (r: Option<(AggregateOrSelect, usize)>)
    requires
        pos <= cs@.len(),
        cs@ == src@,
    ensures
        r matches Some((c, p)) ==> pos < p <= cs@.len() && clause_by_name(c@) && clause_text(
            cs@.subrange(pos as int, p as int),
            c@,
        ),
        forall|c: ClauseView, q: int|
            #![trigger clause_text(cs@.subrange(pos as int, q), c)]
            pos < q <= cs@.len() && clause_text(cs@.subrange(pos as int, q), c) && expr_boundary(cs@, q)
                ==> r is Some && r->Some_0.0@ == c && r->Some_0.1 == q,
{
    let ghost s = cs@;
    let len = cs.len();
    let p = skip_ws(cs, pos);
    proof {
        assert forall|g: Aggregator, e: ExprView, q: int| pos < q <= s.len() && #[trigger] clause_text(s.subrange(pos as int, q), ClauseView::Aggregate(g, e))
            implies p < q && agg_body_at(s, p as int, q, g, e) by {
            lemma_agg_text_body(s, pos as int, q, g, e, p as int);
        }
    }
    if p < len {
        if let Some((agg, e, q)) = parse_aggregate(src, cs, p) {
            let c = AggregateOrSelect::Aggregate((agg, e));
            proof {
                lemma_agg_body_text(s, pos as int, p as int, q as int, agg, e@);
                let (i1, i2, i3) = choose|i1: int, i2: int, i3: int|
                    #[trigger] splits4(p as int, i1, i2, i3) && i2 < i3 < q && keyword(s.subrange(p as int, i1), agg_word(agg))
                        && blank(s.subrange(i1, i2)) && s[i2] == '(';
                lemma_agg_word(agg);
                lemma_keyword_first(s.subrange(p as int, i1), agg_word(agg));
                assert(s.subrange(p as int, i1)[0] == s[p as int]);
                assert(s.subrange(p as int, i1) =~= s.subrange(p as int, p + agg_word(agg).len()));
                assert forall|c2: ClauseView, q2: int| pos < q2 <= s.len() && #[trigger] clause_text(s.subrange(pos as int, q2), c2) && expr_boundary(s, q2)
                    implies c@ == c2 && q == q2 by {
                    if c2 is Select {
                        let e2 = c2->Select_0;
                        lemma_text_body(s, pos as int, q2, e2, p as int);
                        lemma_body_first(s, p as int, q2, e2);
                        if e2 is ColName {
                            lemma_name_not_call(s, p as int, q2, agg_word(agg), i2);
                        } else if e2 is Func {
                            let (j1, j2, j3, j4, j5) = choose|j1: int, j2: int, j3: int, j4: int, j5: int|
                                #[trigger] splits(p as int, j1, j2, j3, j4, j5) && j5 < q2 && fname_text(s.subrange(p as int, j1), e2->Func_0);
                            lemma_fname(s.subrange(p as int, j1), e2->Func_0);
                            assert(s.subrange(p as int, j1)[0] == s[p as int]);
                            lemma_keyword_first(s.subrange(p as int, j1), seq!['a', 'n', 'd']);
                        }
                    }
                }
            }
            return Some((c, q));
        }
    }
    match parse_expr(src, cs, pos) {
        Some((e, q)) => {
            proof {
                assert forall|c2: ClauseView, q2: int| pos < q2 <= s.len() && #[trigger] clause_text(s.subrange(pos as int, q2), c2) && expr_boundary(s, q2)
                    implies c2 == ClauseView::Select(e@) && q == q2 by {
                }
            }
            Some((AggregateOrSelect::Select(e), q))
        },
        None => None,
    }
}

/// The end of a query text: whitespace, then nothing, or `;` and
/// whitespace.
proof fn lemma_query_end(s: Seq<char>, w: int) -> (j: int)
    requires
        0 <= w <= s.len(),
        query_end(s.skip(w)),
    ensures
        w <= j <= s.len(),
        blank(s.subrange(w, j)),
        j < s.len() ==> s[j] == ';' && blank(s.subrange(j + 1, s.len() as int)),
        expr_boundary(s, w),
{
    if blank(s.skip(w)) {
        assert(s.skip(w) =~= s.subrange(w, s.len() as int));
        lemma_boundary_tail(s, w);
        s.len() as int
    } else {
        let i = choose|i: int|
            0 <= i < s.skip(w).len() && #[trigger] s.skip(w)[i] == ';' && blank(s.skip(w).take(i)) && blank(
                s.skip(w).skip(i + 1),
            );
        assert(s.skip(w).take(i) =~= s.subrange(w, w + i));
        assert(s.skip(w).skip(i + 1) =~= s.subrange(w + i + 1, s.len() as int));
        lemma_boundary_at(s, w, w + i);
        w + i
    }
}

/// Parses `select clause, ... [where expr] [;]`, whitespace allowed between
/// tokens and keywords in any case. A query it returns is a reading of the
/// whole input, and refers to columns by name only, as `Query::run` asks;
/// and where the input reads as a query, one comes back.
#[verifier::rlimit(100)]
#[verifier::spinoff_prover]
pub fn parse_query(input: &str) -> (r: Option<Query>)
    ensures
        r matches Some(q) ==> {
            &&& query_by_name(q@)
            &&& exists|items: Seq<ClauseView>|
                #[trigger] query_text(input@, items, q@.filter) && q@.select == selects_of(items)
                    && q@.aggregate == aggregates_of(items)
        },
        (exists|items: Seq<ClauseView>, f: ExprView| #[trigger] query_text(input@, items, f)) ==> r is Some,
{
    let cs = chars_of(input);
    let ghost s = cs@;
    let len = cs.len();
    proof {
        reveal_strlit("select");
        reveal_strlit("where");
        assert("select"@ =~= seq!['s', 'e', 'l', 'e', 'c', 't']);
        assert("where"@ =~= seq!['w', 'h', 'e', 'r', 'e']);
    }
    // A reading of the input, where there is one.
    let ghost good = exists|items: Seq<ClauseView>, f: ExprView| #[trigger] query_text(input@, items, f);
    let ghost (gi, gf) = choose|items: Seq<ClauseView>, f: ExprView| #[trigger] query_text(input@, items, f);
    let ghost (gk, gc, gwp, gw) = choose|k: int, c: int, wp: int, w: int| #[trigger] query_layout(s, gi, gf, k, c, wp, w);
    let ghost (gb, ge) = choose|b: Seq<int>, e: Seq<int>| #[trigger] clause_layout(s.subrange(gk + 6, gc), gi, b, e);
    let ghost mut jend: int = 0;
    let p0 = skip_ws(&cs, 0);
    proof {
        if good {
            assert(query_layout(s, gi, gf, gk, gc, gwp, gw));
            assert(s.take(gk) =~= s.subrange(0, gk));
            lemma_keyword_first(s.subrange(gk, gk + 6), seq!['s', 'e', 'l', 'e', 'c', 't']);
            assert(s.subrange(gk, gk + 6)[0] == s[gk]);
            lemma_first_solid(s, 0, p0 as int, gk);
            jend = lemma_query_end(s, gw);
            if gc != gw {
                lemma_keyword_first(s.subrange(gwp, gwp + 5), seq!['w', 'h', 'e', 'r', 'e']);
                assert(s.subrange(gwp, gwp + 5)[0] == s[gwp]);
                lemma_boundary_at(s, gc, gwp);
            }
        }
    }
    if !word_at(&cs, p0, "select") {
        return None;
    }
    let start = p0 + 6;
    if start >= len || !is_space(cs[start]) {
        return None;
    }
    let mut items: Vec<AggregateOrSelect> = Vec::new();
    let mut p = start;
    let mut last_end: usize = start;
    let mut more = true;
    let ghost mut b: Seq<int> = Seq::empty();
    let ghost mut e: Seq<int> = Seq::empty();
    while more
        invariant
            start <= last_end <= p <= len,
            len == cs@.len(),
            s == cs@,
            cs@ == input@,
            forall|i: int| 0 <= i < items@.len() ==> clause_by_name((#[trigger] items@[i])@),
            items@.len() == 0 ==> more && p == start && b.len() == 0 && e.len() == 0,
            items@.len() > 0 ==> start < last_end && clause_layout(
                s.subrange(start as int, last_end as int),
                clauses_view(items@),
                b,
                e,
            ),
            items@.len() > 0 && more ==> last_end < p && cs@[p - 1] == ',' && blank(
                cs@.subrange(last_end as int, p - 1),
            ),
            !more ==> p == last_end && items@.len() > 0,
            good == (exists|items: Seq<ClauseView>, f: ExprView| #[trigger] query_text(input@, items, f)),
            good ==> query_layout(s, gi, gf, gk, gc, gwp, gw) && gk == p0 && start == gk + 6,
            good ==> clause_layout(s.subrange(start as int, gc), gi, gb, ge) && expr_boundary(s, gc),
            good ==> gw <= jend <= s.len() && blank(s.subrange(gw, jend)) && (jend < s.len() ==> s[jend] == ';'),
            good ==> items@.len() <= gi.len() && clauses_view(items@) == gi.take(items@.len() as int),
            good && more ==> items@.len() < gi.len() && p == start + gb[items@.len() as int],
            good && items@.len() > 0 ==> last_end == start + ge[items@.len() - 1],
            good && !more ==> items@.len() == gi.len(),
        decreases len - p + (if more { 1int } else { 0int }),
    {
        let ghost cur = items@.len() as int;
        proof {
            if good {
                let t = s.subrange(start as int, gc);
                assert(clause_text(t.subrange(gb[cur], ge[cur]), gi[cur]));
                assert(t.subrange(gb[cur], ge[cur]) =~= s.subrange(p as int, start + ge[cur]));
                assert(clause_text(s.subrange(p as int, start + ge[cur]), gi[cur]));
                if cur < gi.len() - 1 {
                    assert(clause_text(t.subrange(gb[cur + 1], ge[cur + 1]), gi[cur + 1]));
                    assert(ge[cur] < gb[cur + 1]);
                    assert(t.subrange(ge[cur], gb[cur + 1] - 1) =~= s.subrange(start + ge[cur], start + gb[cur + 1] - 1));
                    assert(t[gb[cur + 1] - 1] == s[start + gb[cur + 1] - 1]);
                    lemma_boundary_at(s, start + ge[cur], start + gb[cur + 1] - 1);
                } else {
                    assert(start + ge[cur] == gc);
                }
                assert(expr_boundary(s, start + ge[cur]));
            }
        }
        match parse_clause(input, &cs, p) {
            None => {
                return None;
            },
            Some((c, q)) => {
                let ghost cv = c@;
                let ghost before = clauses_view(items@);
                proof {
                    lemma_layout_push(s, start as int, before, b, e, last_end as int, p as int, q as int, cv);
                }
                items.push(c);
                proof {
                    assert(clauses_view(items@) =~= before.push(cv));
                    b = b.push(p - start);
                    e = e.push(q - start);
                    if good {
                        assert(gi.take(cur + 1) =~= gi.take(cur).push(gi[cur]));
                    }
                }
                last_end = q;
                let r = skip_ws(&cs, q);
                proof {
                    if good {
                        let t = s.subrange(start as int, gc);
                        if cur < gi.len() - 1 {
                            assert(clause_text(t.subrange(gb[cur + 1], ge[cur + 1]), gi[cur + 1]));
                            assert(ge[cur] < gb[cur + 1]);
                            assert(t.subrange(ge[cur], gb[cur + 1] - 1) =~= s.subrange(start + ge[cur], start + gb[cur + 1] - 1));
                            assert(t[gb[cur + 1] - 1] == s[start + gb[cur + 1] - 1]);
                            lemma_first_solid(s, q as int, r as int, start + gb[cur + 1] - 1);
                        } else if gc != gw {
                            lemma_keyword_first(s.subrange(gwp, gwp + 5), seq!['w', 'h', 'e', 'r', 'e']);
                            assert(s.subrange(gwp, gwp + 5)[0] == s[gwp]);
                            lemma_first_solid(s, q as int, r as int, gwp);
                        } else {
                            lemma_first_solid(s, q as int, r as int, jend);
                        }
                    }
                }
                if r < len && cs[r] == ',' {
                    p = r + 1;
                } else {
                    p = q;
                    more = false;
                }
            },
        }
    }
    let c = p;
    let mut filter = Expr::Const(Value::Bool(true));
    let mut w = p;
    let wq = skip_ws(&cs, p);
    let ghost mut wp: int = c as int;
    proof {
        if good {
            if gc != gw {
                lemma_keyword_first(s.subrange(gwp, gwp + 5), seq!['w', 'h', 'e', 'r', 'e']);
                assert(s.subrange(gwp, gwp + 5)[0] == s[gwp]);
                lemma_first_solid(s, c as int, wq as int, gwp);
                lemma_text_nonempty(s.subrange(gwp + 5, gw), gf);
            } else {
                lemma_first_solid(s, c as int, wq as int, jend);
            }
        }
    }
    if wq > p && word_at(&cs, wq, "where") {
        proof {
            wp = wq as int;
            if good && gc == gw {
                lemma_keyword_first(s.subrange(wq as int, wq + 5), seq!['w', 'h', 'e', 'r', 'e']);
                assert(s.subrange(wq as int, wq + 5)[0] == s[wq as int]);
            }
        }
        match parse_expr(input, &cs, wq + 5) {
            None => {
                return None;
            },
            Some((fe, q)) => {
                filter = fe;
                w = q;
            },
        }
    }
    let mut fin = skip_ws(&cs, w);
    let semi = fin;
    if fin < len && cs[fin] == ';' {
        fin = skip_ws(&cs, fin + 1);
    }
    proof {
        if good {
            assert(w == gw);
            lemma_first_solid(s, w as int, semi as int, jend);
            if jend < s.len() {
                lemma_first_solid(s, semi + 1, fin as int, s.len() as int);
            }
        }
    }
    if fin != len {
        return None;
    }
    proof {
        lemma_parts_by_name(clauses_view(items@));
        let t = cs@;
        assert(t.take(p0 as int) =~= cs@.subrange(0, p0 as int));
        if semi < len {
            let i = semi - w;
            assert(t.skip(w as int).take(i) =~= cs@.subrange(w as int, semi as int));
            assert(t.skip(w as int).skip(i + 1) =~= cs@.subrange(semi + 1, len as int));
            assert(t.skip(w as int)[i] == ';');
        } else {
            assert(t.skip(w as int) =~= cs@.subrange(w as int, semi as int));
        }
        assert(query_end(t.skip(w as int)));
        assert(clauses_text(s.subrange(start as int, c as int), clauses_view(items@)));
    }
    let ghost items_view = clauses_view(items@);
    let q = construct_query(items, filter);
    proof {
        assert forall|j: int| 0 <= j < q@.select.len() implies no_index(#[trigger] q@.select[j]) by {
            assert(q@.select[j] == selects_of(items_view)[j]);
        }
        assert(query_layout(input@, items_view, q@.filter, p0 as int, c as int, wp, w as int));
        assert(query_text(input@, items_view, q@.filter));
        assert(q@.select == selects_of(items_view));
        assert(q@.aggregate == aggregates_of(items_view));
        assert(query_by_name(q@));
    }
    Some(q)
}

} // verus!
