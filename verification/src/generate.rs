//! Text generation: a random seed context, then weighted sampling of
//! continuations until the bound is reached or the chain runs out.

use vstd::prelude::*;
use vstd::string::StringExecFns;

use crate::chain::{clone_ctx, find_ctx, MarkovChain};
use crate::model::{ctx_row, list_has_token, table_has_ctx, TableView};

verus! {

/// The sum of a sequence of counts.
pub open spec fn sum_counts(s: Seq<u32>) -> int
    decreases s.len(),
{
    if s.len() == 0 {
        0
    } else {
        sum_counts(s.drop_last()) + s.last()
    }
}

/// The tokens joined with a single space between neighbours.
pub open spec fn join_spaces(ws: Seq<Seq<char>>) -> Seq<char>
    decreases ws.len(),
{
    if ws.len() == 0 {
        Seq::empty()
    } else if ws.len() == 1 {
        ws[0]
    } else {
        join_spaces(ws.drop_last()) + seq![' '] + ws.last()
    }
}

/// Whether the token at position `i` of a generated sequence is a stored
/// continuation of the `order` tokens just before it.
pub open spec fn continues_at(table: TableView, order: nat, ws: Seq<Seq<char>>, i: int) -> bool {
    &&& table_has_ctx(table, ws.subrange(i - order as int, i))
    &&& list_has_token(ctx_row(table, ws.subrange(i - order as int, i)), ws[i])
}

/// The sampling invariant of a generated token sequence: it opens with a
/// stored context, and every later token is a stored continuation of the
/// `order` tokens just before it.
pub open spec fn gen_prefix_ok(order: nat, table: TableView, ws: Seq<Seq<char>>) -> bool {
    &&& ws.len() >= order
    &&& table_has_ctx(table, ws.take(order as int))
    &&& forall|i: int| order <= i < ws.len() ==> #[trigger] continues_at(table, order, ws, i)
}

/// What generation may return: a seed context plus at most `max_len` sampled
/// continuations, cut short only where the chain has no continuation for the
/// run's last `order` tokens.
pub open spec fn valid_generation(
    order: nat,
    table: TableView,
    ws: Seq<Seq<char>>,
    max_len: u32,
) -> bool {
    &&& gen_prefix_ok(order, table, ws)
    &&& ws.len() <= order + max_len
    &&& ws.len() < order + max_len ==> !table_has_ctx(
        table,
        ws.subrange(ws.len() - order as int, ws.len() as int),
    )
}

/// Relies on rand's `Rng::gen_range` over `thread_rng`: a value drawn from
/// the range `0..n` lies below `n`.
#[verifier::external_body]
fn random_below(n: usize) -> (r: usize)
    requires
        n >= 1,
    ensures
        r < n,
{
    rand::Rng::gen_range(&mut rand::thread_rng(), 0..n)
}

/// Relies on rand's `WeightedIndex::new` and `Distribution::sample`: with at
/// least one weight, every weight positive and their total within `u32`,
/// `new` succeeds and a sample is the index of one of the weights, drawn with
/// probability proportional to it.
#[verifier::external_body]
fn sample_weighted(weights: &Vec<u32>) -> (r: usize)
    requires
        weights@.len() >= 1,
        forall|i: int| 0 <= i < weights@.len() ==> weights@[i] >= 1,
        sum_counts(weights@) <= u32::MAX,
    ensures
        r < weights@.len(),
{
    let dist = rand::distributions::WeightedIndex::new(weights.iter().copied()).unwrap();
    rand::distributions::Distribution::sample(&dist, &mut rand::thread_rng())
}

/// One weighted draw over a continuation list's counts: an index of the list,
/// drawn in proportion to its count. A total beyond `u32` falls back to a
/// uniform draw, which still returns a valid index.
fn pick_weighted(counts: &Vec<u32>) -> (r: usize)
    requires
        counts@.len() >= 1,
        forall|i: int| 0 <= i < counts@.len() ==> counts@[i] >= 1,
    ensures
        r < counts@.len(),
{
    let mut total: u64 = 0;
    let mut i: usize = 0;
    while i < counts.len()
        invariant
            i <= counts@.len(),
            total <= u32::MAX as u64 ==> total == sum_counts(counts@.take(i as int)),
            total <= 2 * (u32::MAX as u64),
        decreases counts@.len() - i,
    {
        if total <= u32::MAX as u64 {
            total = total + counts[i] as u64;
            proof {
                assert(counts@.take(i + 1).drop_last() =~= counts@.take(i as int));
                assert(counts@.take(i + 1).last() == counts@[i as int]);
            }
        }
        i += 1;
    }
    if total <= u32::MAX as u64 {
        proof {
            assert(counts@.take(counts@.len() as int) =~= counts@);
        }
        sample_weighted(counts)
    } else {
        random_below(counts.len())
    }
}

/// The counts of a continuation list, in order.
fn row_counts(row: &Vec<(String, u32)>) -> (r: Vec<u32>)
    ensures
        r@.len() == row@.len(),
        forall|i: int| 0 <= i < r@.len() ==> r@[i] == row.deep_view()[i].1,
{
    let mut out: Vec<u32> = Vec::new();
    let mut i: usize = 0;
    while i < row.len()
        invariant
            i <= row@.len(),
            out@.len() == i,
            forall|j: int| 0 <= j < i ==> out@[j] == row.deep_view()[j].1,
        decreases row@.len() - i,
    {
        let e = &row[i];
        out.push(e.1);
        i += 1;
    }
    out
}

/// A copy of the last `order` tokens of the output so far: the lookup key for
/// the next continuation.
fn last_window(words: &Vec<String>, order: usize) -> (r: Vec<String>)
    requires
        order <= words@.len(),
    ensures
        r.deep_view() == words.deep_view().subrange(
            words@.len() - order as int,
            words@.len() as int,
        ),
{
    let start = words.len() - order;
    let mut out: Vec<String> = Vec::new();
    let mut i: usize = start;
    while i < words.len()
        invariant
            start <= i <= words@.len(),
            start == words@.len() - order,
            out@.len() == i - start,
            out.deep_view() == words.deep_view().subrange(start as int, i as int),
        decreases words@.len() - i,
    {
        let w = words[i].clone();
        out.push(w);
        proof {
            assert(out.deep_view() =~= words.deep_view().subrange(start as int, i + 1));
        }
        i += 1;
    }
    out
}

/// The tokens joined into one string with single spaces between them.
fn join_words(words: &Vec<String>) -> (r: String)
    ensures
        r@ == join_spaces(words.deep_view()),
{
    let mut out = String::new();
    let mut i: usize = 0;
    proof {
        reveal_strlit(" ");
    }
    while i < words.len()
        invariant
            i <= words@.len(),
            out@ == join_spaces(words.deep_view().take(i as int)),
            " "@ == seq![' '],
        decreases words@.len() - i,
    {
        if i > 0 {
            out.append(" ");
        }
        let w = &words[i];
        out.append(w.as_str());
        proof {
            let ws = words.deep_view();
            assert(ws.take(i + 1).drop_last() =~= ws.take(i as int));
            assert(ws.take(i + 1).last() == ws[i as int]);
            assert(w@ == ws[i as int]);
            if i == 0 {
                assert(out@ == ws.take(1)[0]);
                assert(out@ == join_spaces(ws.take(1)));
            }
        }
        i += 1;
    }
    proof {
        assert(words.deep_view().take(words@.len() as int) =~= words.deep_view());
    }
    out
}

impl MarkovChain {
    /// Generates text from the learned relations: a uniformly chosen stored
    /// context opens the output, and up to `max_len` further tokens are drawn
    /// from the continuations of the last `order` tokens, each in proportion
    /// to its count; the run stops early only where no continuation is
    /// stored. The tokens come back joined by single spaces; an empty chain
    /// gives `None` and nothing else does.
    pub fn generate_text(&self, max_len: u32) -> (r: Option<String>)
        requires
            self.wf(),
        ensures
            (r is None) <==> self.spec_table().len() == 0,
            r is Some ==> exists|ws: Seq<Seq<char>>|
                #[trigger] valid_generation(self.spec_order(), self.spec_table(), ws, max_len)
                    && r->0@ == join_spaces(ws),
    {
        let ghost ord = self.spec_order();
        let ghost table = self.spec_table();
        proof {
            self.view_facts();
        }
        if self.table.len() == 0 {
            return None;
        }
        let seed = random_below(self.table.len());
        let e0 = &self.table[seed];
        let mut words = clone_ctx(&e0.0);
        proof {
            assert(words.deep_view() == table[seed as int].0);
            assert(table_has_ctx(table, words.deep_view()));
            assert(words.deep_view().take(ord as int) =~= words.deep_view());
            assert(words.deep_view().len() == ord);
        }
        let mut appended: u32 = 0;
        let mut ran_out = false;
        while appended < max_len && !ran_out
            invariant
                self.wf(),
                self.spec_order() == ord,
                self.spec_table() == table,
                appended <= max_len,
                words@.len() == ord + appended,
                words.deep_view().len() == words@.len(),
                gen_prefix_ok(ord, table, words.deep_view()),
                ran_out ==> appended < max_len && !table_has_ctx(
                    table,
                    words.deep_view().subrange(
                        words@.len() - ord as int,
                        words@.len() as int,
                    ),
                ),
            decreases 2 * (max_len - appended) + (if ran_out { 0int } else { 1int }),
        {
            proof {
                self.view_facts();
            }
            let key = last_window(&words, self.order);
            let ghost pre = words.deep_view();
            match find_ctx(&self.table, &key) {
                None => {
                    ran_out = true;
                },
                Some(at) => {
                    let e = &self.table[at];
                    let row = &e.1;
                    let counts = row_counts(row);
                    proof {
                        assert(row.deep_view() == table[at as int].1);
                        assert(crate::model::row_wf(row.deep_view()));
                        assert(forall|i: int|
                            0 <= i < counts@.len() ==> counts@[i] == (
                            #[trigger] row.deep_view()[i]).1);
                    }
                    let j = pick_weighted(&counts);
                    let p = &row[j];
                    let tok = p.0.clone();
                    words.push(tok);
                    proof {
                        let newdv = words.deep_view();
                        let n = pre.len() as int;
                        crate::model::lemma_ctx_row_at(table, at as int);
                        assert(newdv =~= pre.push(row.deep_view()[j as int].0));
                        assert(newdv.take(ord as int) =~= pre.take(ord as int));
                        assert(newdv.subrange(n - ord as int, n) =~= key.deep_view());
                        assert(ctx_row(table, key.deep_view()) == table[at as int].1);
                        assert(list_has_token(ctx_row(table, key.deep_view()), newdv[n]));
                        assert forall|i: int| ord <= i < newdv.len() implies #[trigger] continues_at(
                            table,
                            ord,
                            newdv,
                            i,
                        ) by {
                            if i < n {
                                assert(continues_at(table, ord, pre, i));
                                assert(newdv.subrange(i - ord as int, i) =~= pre.subrange(
                                    i - ord as int,
                                    i,
                                ));
                                assert(newdv[i] == pre[i]);
                            } else {
                                assert(newdv.subrange(i - ord as int, i) =~= key.deep_view());
                            }
                        }
                        assert(gen_prefix_ok(ord, table, newdv));
                    }
                    appended += 1;
                },
            }
        }
        proof {
            assert(valid_generation(ord, table, words.deep_view(), max_len));
        }
        let text = join_words(&words);
        Some(text)
    }
}

} // verus!

