//! The chain itself: construction, incremental training over a sliding
//! window, and introspection.

use vstd::prelude::*;

use crate::model::{
    advance, bump_list, ctx_row, lemma_bump_at, lemma_ctx_row_at, lemma_step_at, lemma_step_wf,
    list_has_token, parts_wf, row_wf, step_table, table_has_ctx, table_wf, train_from, train_spec,
    TableView,
};

verus! {

/// One stored entry: a context of exactly `order` tokens and its continuation
/// list.
pub type Entry = (Vec<String>, Vec<(String, u32)>);

/// A fixed-order Markov chain over token strings.
pub struct MarkovChain {
    pub(crate) order: usize,
    pub(crate) table: Vec<Entry>,
}

impl MarkovChain {
    /// The chain's order, as a mathematical value.
    pub closed spec fn spec_order(&self) -> nat {
        self.order as nat
    }

    /// The chain's table, as a sequence of (context, continuation list)
    /// entries over character sequences.
    pub closed spec fn spec_table(&self) -> TableView {
        self.table.deep_view()
    }

    /// The chain's invariant: a positive order and a well-formed table.
    pub open spec fn wf(&self) -> bool {
        parts_wf(self.spec_order(), self.spec_table())
    }

    /// Ties the chain's fields to its model, for the crate's other modules.
    pub(crate) proof fn view_facts(&self)
        ensures
            self.spec_order() == self.order as nat,
            self.spec_table() == self.table.deep_view(),
    {
    }

    /// Creates a new, empty chain with the given order. An order of zero is
    /// not a meaningful configuration and is ruled out up front.
    pub fn new(order: usize) -> (r: MarkovChain)
        requires
            order >= 1,
        ensures
            r.wf(),
            r.spec_order() == order,
            r.spec_table() == Seq::<(Seq<Seq<char>>, Seq<(Seq<char>, u32)>)>::empty(),
    {
        let r = MarkovChain { order, table: Vec::new() };
        proof {
            assert(r.spec_table() =~= Seq::<(Seq<Seq<char>>, Seq<(Seq<char>, u32)>)>::empty());
        }
        r
    }

    /// Learns the relations of a token sequence: every run of `order`
    /// consecutive tokens becomes a context, and the token right after it is
    /// recorded as one more observation of a continuation. The sliding window
    /// is seeded from this very input, so no context ever straddles two
    /// training calls. An input of fewer than `order + 1` tokens changes
    /// nothing.
    pub fn train(&mut self, tokens: &Vec<String>)
        requires
            old(self).wf(),
        ensures
            final(self).wf(),
            final(self).spec_order() == old(self).spec_order(),
            final(self).spec_table() == train_spec(
                old(self).spec_table(),
                old(self).spec_order(),
                tokens.deep_view(),
            ),
    {
        let ghost toks = tokens.deep_view();
        let ghost ord = self.spec_order();
        let ghost t0 = self.spec_table();
        let ghost goal = train_spec(t0, ord, toks);
        proof {
            assert(toks.len() == tokens@.len());
        }
        if tokens.len() <= self.order {
            proof {
                assert(goal == t0);
            }
            return;
        }
        // Seed the sliding window from the first `order` tokens.
        let mut window: Vec<String> = Vec::new();
        let mut i: usize = 0;
        while i < self.order
            invariant
                i <= self.order,
                self.order < tokens@.len(),
                window@.len() == i,
                window.deep_view() == tokens.deep_view().take(i as int),
            decreases self.order - i,
        {
            let w = tokens[i].clone();
            window.push(w);
            proof {
                assert(window.deep_view() =~= tokens.deep_view().take(i + 1));
            }
            i += 1;
        }
        proof {
            assert(goal == train_from(t0, toks.take(ord as int), toks.skip(ord as int)));
        }
        let mut k: usize = self.order;
        while k < tokens.len()
            invariant
                self.spec_order() == ord,
                self.order == ord,
                ord <= k <= tokens@.len(),
                ord >= 1,
                toks == tokens.deep_view(),
                toks.len() == tokens@.len(),
                window@.len() == ord,
                window.deep_view() == toks.subrange(k - ord as int, k as int),
                table_wf(self.spec_table(), ord),
                train_from(self.spec_table(), window.deep_view(), toks.skip(k as int)) == goal,
            decreases tokens@.len() - k,
        {
            let ghost pre = self.spec_table();
            let ghost win = window.deep_view();
            let ghost w = toks[k as int];
            let word = &tokens[k];
            proof {
                assert(word@ == w);
            }
            match find_ctx(&self.table, &window) {
                Some(at) => {
                    let mut new_row = clone_row(&self.table[at].1);
                    let ghost old_row = pre[at as int].1;
                    match find_token(&new_row, word) {
                        Some(j) => {
                            let c: u32 = new_row[j].1;
                            let bumped: u32 = if c < u32::MAX {
                                c + 1
                            } else {
                                c
                            };
                            new_row.set(j, (word.clone(), bumped));
                            proof {
                                lemma_bump_at(old_row, j as int, w);
                                assert(new_row.deep_view() =~= bump_list(old_row, w));
                            }
                        },
                        None => {
                            new_row.push((word.clone(), 1u32));
                            proof {
                                assert(new_row.deep_view() =~= bump_list(old_row, w));
                            }
                        },
                    }
                    let key = clone_ctx(&window);
                    self.table.set(at, (key, new_row));
                    proof {
                        lemma_step_at(pre, at as int, w);
                        assert(self.spec_table() =~= pre.update(
                            at as int,
                            (pre[at as int].0, bump_list(old_row, w)),
                        ));
                        assert(self.spec_table() == step_table(pre, win, w));
                    }
                },
                None => {
                    let key = clone_ctx(&window);
                    let row: Vec<(String, u32)> = vec![(word.clone(), 1u32)];
                    proof {
                        assert(row.deep_view() =~= seq![(w, 1u32)]);
                    }
                    self.table.push((key, row));
                    proof {
                        assert(self.spec_table() =~= pre.push((win, seq![(w, 1u32)])));
                        assert(self.spec_table() == step_table(pre, win, w));
                    }
                },
            }
            proof {
                lemma_step_wf(pre, win, w, ord);
                assert(toks.skip(k as int)[0] == w);
                assert(toks.skip(k as int).drop_first() =~= toks.skip(k + 1));
                assert(train_from(self.spec_table(), advance(win, w), toks.skip(k + 1)) == goal);
            }
            window.remove(0);
            window.push(word.clone());
            proof {
                assert(window.deep_view() =~= advance(win, w));
                assert(window.deep_view() =~= toks.subrange(k + 1 - ord as int, k + 1));
            }
            k += 1;
        }
        proof {
            assert(toks.skip(tokens@.len() as int).len() == 0);
            assert(self.spec_table() == goal);
        }
    }

    /// The number of distinct contexts currently stored.
    pub fn len(&self) -> (r: usize)
        ensures
            r == self.spec_table().len(),
    {
        self.table.len()
    }

    /// Whether no context has been stored yet.
    pub fn is_empty(&self) -> (r: bool)
        ensures
            r == (self.spec_table().len() == 0),
    {
        self.table.len() == 0
    }

    /// The chain's order.
    pub fn order(&self) -> (r: usize)
        ensures
            r == self.spec_order(),
    {
        self.order
    }

    /// The continuation list stored for `context`, if that context is known.
    pub fn lookup(&self, context: &Vec<String>) -> (r: Option<Vec<(String, u32)>>)
        requires
            self.wf(),
        ensures
            (r is Some) <==> table_has_ctx(self.spec_table(), context.deep_view()),
            r is Some ==> r->0.deep_view() == ctx_row(self.spec_table(), context.deep_view()),
    {
        match find_ctx(&self.table, context) {
            Some(i) => {
                proof {
                    lemma_ctx_row_at(self.spec_table(), i as int);
                }
                Some(clone_row(&self.table[i].1))
            },
            None => None,
        }
    }

    /// A copy of every stored entry, in stored order.
    pub fn entries(&self) -> (r: Vec<Entry>)
        ensures
            r.deep_view() == self.spec_table(),
    {
        let mut out: Vec<Entry> = Vec::new();
        let mut i: usize = 0;
        while i < self.table.len()
            invariant
                i <= self.table@.len(),
                out@.len() == i,
                out.deep_view() == self.spec_table().take(i as int),
            decreases self.table@.len() - i,
        {
            let e = &self.table[i];
            let key = clone_ctx(&e.0);
            let row = clone_row(&e.1);
            out.push((key, row));
            proof {
                assert(out.deep_view() =~= self.spec_table().take(i + 1));
            }
            i += 1;
        }
        proof {
            assert(self.spec_table().take(self.table@.len() as int) =~= self.spec_table());
        }
        out
    }

    /// Builds a chain from an order and a list of entries, when they satisfy
    /// the chain's invariant; gives `None` on exactly the ill-formed inputs.
    pub fn from_parts(order: usize, entries: Vec<Entry>) -> (r: Option<MarkovChain>)
        ensures
            (r is Some) <==> parts_wf(order as nat, entries.deep_view()),
            r is Some ==> r->0.wf() && r->0.spec_order() == order && r->0.spec_table()
                == entries.deep_view(),
    {
        if order == 0 {
            return None;
        }
        if table_ok(order, &entries) {
            Some(MarkovChain { order, table: entries })
        } else {
            None
        }
    }
}

/// Whether a continuation list satisfies its invariant: non-empty, positive
/// counts, distinct tokens.
pub(crate) fn row_ok(row: &Vec<(String, u32)>) -> (r: bool)
    ensures
        r == row_wf(row.deep_view()),
{
    if row.len() == 0 {
        return false;
    }
    let mut i: usize = 0;
    while i < row.len()
        invariant
            i <= row@.len(),
            forall|j: int| 0 <= j < i ==> (#[trigger] row.deep_view()[j]).1 >= 1,
        decreases row@.len() - i,
    {
        if row[i].1 < 1 {
            proof {
                assert(row.deep_view()[i as int].1 == row@[i as int].1);
            }
            return false;
        }
        i += 1;
    }
    let mut p: usize = 0;
    while p < row.len()
        invariant
            p <= row@.len(),
            forall|j: int| 0 <= j < row@.len() ==> (#[trigger] row.deep_view()[j]).1 >= 1,
            forall|a: int, b: int|
                0 <= a < b < row@.len() && a < p ==> (#[trigger] row.deep_view()[a]).0 != (
                #[trigger] row.deep_view()[b]).0,
        decreases row@.len() - p,
    {
        let mut q: usize = p + 1;
        while q < row.len()
            invariant
                p < q <= row@.len(),
                p < row@.len(),
                forall|b: int| p < b < q ==> row.deep_view()[p as int].0 != (
                #[trigger] row.deep_view()[b]).0,
            decreases row@.len() - q,
        {
            if row[p].0.eq(&row[q].0) {
                proof {
                    assert(row.deep_view()[p as int].0 == row.deep_view()[q as int].0);
                }
                return false;
            }
            q += 1;
        }
        p += 1;
    }
    true
}

/// Whether a table satisfies the chain's invariant for the given order.
pub(crate) fn table_ok(order: usize, table: &Vec<Entry>) -> (r: bool)
    ensures
        r == table_wf(table.deep_view(), order as nat),
{
    let mut i: usize = 0;
    while i < table.len()
        invariant
            i <= table@.len(),
            forall|j: int|
                0 <= j < i ==> (#[trigger] table.deep_view()[j]).0.len() == order && row_wf(
                    table.deep_view()[j].1,
                ),
        decreases table@.len() - i,
    {
        let e = &table[i];
        if e.0.len() != order {
            proof {
                assert(table.deep_view()[i as int] == table@[i as int].deep_view());
                assert(table.deep_view()[i as int].0 == table@[i as int].0.deep_view());
                assert(table.deep_view()[i as int].0.len() == table@[i as int].0@.len());
                assert(table@[i as int].0@.len() == e.0@.len());
                assert(table.deep_view()[i as int].0.len() != order);
                assert(!table_wf(table.deep_view(), order as nat));
            }
            return false;
        }
        if !row_ok(&e.1) {
            proof {
                assert(table.deep_view()[i as int] == table@[i as int].deep_view());
                assert(table.deep_view()[i as int].1 == table@[i as int].1.deep_view());
            }
            return false;
        }
        i += 1;
    }
    let mut p: usize = 0;
    while p < table.len()
        invariant
            p <= table@.len(),
            forall|j: int|
                0 <= j < table@.len() ==> (#[trigger] table.deep_view()[j]).0.len() == order
                    && row_wf(table.deep_view()[j].1),
            forall|a: int, b: int|
                0 <= a < b < table@.len() && a < p ==> (#[trigger] table.deep_view()[a]).0 != (
                #[trigger] table.deep_view()[b]).0,
        decreases table@.len() - p,
    {
        let mut q: usize = p + 1;
        while q < table.len()
            invariant
                p < q <= table@.len(),
                p < table@.len(),
                forall|b: int| p < b < q ==> table.deep_view()[p as int].0 != (
                #[trigger] table.deep_view()[b]).0,
            decreases table@.len() - q,
        {
            if ctx_eq(&table[p].0, &table[q].0) {
                proof {
                    assert(table.deep_view()[p as int].0 == table@[p as int].0.deep_view());
                    assert(table.deep_view()[q as int].0 == table@[q as int].0.deep_view());
                }
                return false;
            }
            q += 1;
        }
        p += 1;
    }
    true
}

/// Whether two token vectors hold the same token sequences.
pub(crate) fn ctx_eq(a: &Vec<String>, b: &Vec<String>) -> (r: bool)
    ensures
        r == (a.deep_view() == b.deep_view()),
{
    if a.len() != b.len() {
        proof {
            assert(a.deep_view().len() == a@.len());
            assert(b.deep_view().len() == b@.len());
        }
        return false;
    }
    let mut i: usize = 0;
    while i < a.len()
        invariant
            a@.len() == b@.len(),
            i <= a@.len(),
            forall|j: int| 0 <= j < i ==> a.deep_view()[j] == b.deep_view()[j],
        decreases a@.len() - i,
    {
        if !a[i].eq(&b[i]) {
            proof {
                assert(a.deep_view()[i as int] == a@[i as int]@);
                assert(b.deep_view()[i as int] == b@[i as int]@);
            }
            return false;
        }
        i += 1;
    }
    proof {
        assert(a.deep_view() =~= b.deep_view());
    }
    true
}

/// A copy of a token vector with the same view.
pub(crate) fn clone_ctx(v: &Vec<String>) -> (r: Vec<String>)
    ensures
        r.deep_view() == v.deep_view(),
{
    let mut out: Vec<String> = Vec::new();
    let mut i: usize = 0;
    while i < v.len()
        invariant
            i <= v@.len(),
            out@.len() == i,
            out.deep_view() == v.deep_view().take(i as int),
        decreases v@.len() - i,
    {
        let w = v[i].clone();
        out.push(w);
        proof {
            assert(out.deep_view() =~= v.deep_view().take(i + 1));
        }
        i += 1;
    }
    proof {
        assert(v.deep_view().take(v@.len() as int) =~= v.deep_view());
    }
    out
}

/// A copy of a continuation list with the same view.
pub(crate) fn clone_row(v: &Vec<(String, u32)>) -> (r: Vec<(String, u32)>)
    ensures
        r.deep_view() == v.deep_view(),
{
    let mut out: Vec<(String, u32)> = Vec::new();
    let mut i: usize = 0;
    while i < v.len()
        invariant
            i <= v@.len(),
            out@.len() == i,
            out.deep_view() == v.deep_view().take(i as int),
        decreases v@.len() - i,
    {
        let e = &v[i];
        out.push((e.0.clone(), e.1));
        proof {
            assert(out.deep_view() =~= v.deep_view().take(i + 1));
        }
        i += 1;
    }
    proof {
        assert(v.deep_view().take(v@.len() as int) =~= v.deep_view());
    }
    out
}

/// The index of the entry whose context is `key`, if one exists.
pub(crate) fn find_ctx(table: &Vec<Entry>, key: &Vec<String>) -> (r: Option<usize>)
    ensures
        match r {
            Some(i) => i < table@.len() && table.deep_view()[i as int].0 == key.deep_view(),
            None => !table_has_ctx(table.deep_view(), key.deep_view()),
        },
{
    let mut i: usize = 0;
    while i < table.len()
        invariant
            i <= table@.len(),
            forall|j: int| 0 <= j < i ==> (#[trigger] table.deep_view()[j]).0 != key.deep_view(),
        decreases table@.len() - i,
    {
        if ctx_eq(&table[i].0, key) {
            return Some(i);
        }
        i += 1;
    }
    None
}

/// The index of the pair whose token is `w`, if one exists.
pub(crate) fn find_token(row: &Vec<(String, u32)>, w: &String) -> (r: Option<usize>)
    ensures
        match r {
            Some(j) => j < row@.len() && row.deep_view()[j as int].0 == w@,
            None => !list_has_token(row.deep_view(), w@),
        },
{
    let mut j: usize = 0;
    while j < row.len()
        invariant
            j <= row@.len(),
            forall|i: int| 0 <= i < j ==> (#[trigger] row.deep_view()[i]).0 != w@,
        decreases row@.len() - j,
    {
        if row[j].0.eq(w) {
            return Some(j);
        }
        j += 1;
    }
    None
}

} // verus!
