//! The mathematical model of a chain: contexts, continuation lists, the
//! training step over a sliding window, and their well-formedness.

use vstd::prelude::*;

verus! {

/// A token, as a sequence of characters.
pub type TokenView = Seq<char>;

/// A context: an ordered run of exactly `order` tokens, used as a lookup key.
pub type CtxView = Seq<Seq<char>>;

/// A continuation list: one `(token, count)` pair per distinct token observed
/// after a context, in first-observed order.
pub type RowView = Seq<(Seq<char>, u32)>;

/// The table: one `(context, continuation list)` entry per distinct context,
/// in first-observed order.
pub type TableView = Seq<(Seq<Seq<char>>, Seq<(Seq<char>, u32)>)>;

/// Counts grow by one per observation and stay put at the top of `u32`
/// rather than wrapping.
pub open spec fn bump_count(c: u32) -> u32 {
    if c < u32::MAX {
        (c + 1) as u32
    } else {
        c
    }
}

/// Whether some pair of the list carries the token `w`.
pub open spec fn list_has_token(list: RowView, w: TokenView) -> bool {
    exists|i: int| 0 <= i < list.len() && list[i].0 == w
}

/// Record one more observation of `w` in a continuation list: bump the count
/// of its pair if one exists, else append `(w, 1)`.
pub open spec fn bump_list(list: RowView, w: TokenView) -> RowView {
    if list_has_token(list, w) {
        list.map(|i: int, p: (Seq<char>, u32)| if p.0 == w {
            (p.0, bump_count(p.1))
        } else {
            p
        })
    } else {
        list.push((w, 1u32))
    }
}

/// Whether the table holds an entry for the context `ctx`.
pub open spec fn table_has_ctx(table: TableView, ctx: CtxView) -> bool {
    exists|i: int| 0 <= i < table.len() && table[i].0 == ctx
}

/// The continuation list stored for `ctx` (meaningful when the table's
/// contexts are distinct and `ctx` is present).
pub open spec fn ctx_row(table: TableView, ctx: CtxView) -> RowView {
    let i = choose|i: int| 0 <= i < table.len() && table[i].0 == ctx;
    table[i].1
}

/// Record one observation `ctx -> w` in the table: bump the context's list if
/// the context is known, else append a fresh entry `(ctx, [(w, 1)])`.
pub open spec fn step_table(table: TableView, ctx: CtxView, w: TokenView) -> TableView {
    if table_has_ctx(table, ctx) {
        table.map(|i: int, e: (Seq<Seq<char>>, Seq<(Seq<char>, u32)>)| if e.0 == ctx {
            (e.0, bump_list(e.1, w))
        } else {
            e
        })
    } else {
        table.push((ctx, seq![(w, 1u32)]))
    }
}

/// Slide the window one token forward: drop its oldest token, append `w`.
pub open spec fn advance(window: CtxView, w: TokenView) -> CtxView {
    window.drop_first().push(w)
}

/// Train on the remaining tokens, one observation per token, sliding the
/// window as the trainer goes.
pub open spec fn train_from(table: TableView, window: CtxView, rest: Seq<Seq<char>>) -> TableView
    decreases rest.len(),
{
    if rest.len() == 0 {
        table
    } else {
        train_from(step_table(table, window, rest[0]), advance(window, rest[0]), rest.drop_first())
    }
}

/// One whole training call: seed the window from the first `order` tokens and
/// consume the rest. An input of at most `order` tokens changes nothing.
pub open spec fn train_spec(table: TableView, order: nat, tokens: Seq<Seq<char>>) -> TableView {
    if tokens.len() <= order {
        table
    } else {
        train_from(table, tokens.take(order as int), tokens.skip(order as int))
    }
}

/// A continuation list is well formed when it is non-empty, every count is at
/// least one, and no two pairs share a token.
pub open spec fn row_wf(list: RowView) -> bool {
    &&& list.len() >= 1
    &&& forall|i: int| 0 <= i < list.len() ==> (#[trigger] list[i]).1 >= 1
    &&& forall|i: int, j: int| 0 <= i < j < list.len() ==> (#[trigger] list[i]).0 != (
    #[trigger] list[j]).0
}

/// A table is well formed for `order` when every context is exactly `order`
/// tokens long, no two entries share a context, and every list is well formed.
pub open spec fn table_wf(table: TableView, order: nat) -> bool {
    &&& forall|i: int| 0 <= i < table.len() ==> (#[trigger] table[i]).0.len() == order
    &&& forall|i: int, j: int| 0 <= i < j < table.len() ==> (#[trigger] table[i]).0 != (
    #[trigger] table[j]).0
    &&& forall|i: int| 0 <= i < table.len() ==> row_wf((#[trigger] table[i]).1)
}

/// A whole model is well formed when its order is positive and its table is
/// well formed for that order.
pub open spec fn parts_wf(order: nat, table: TableView) -> bool {
    &&& order >= 1
    &&& table_wf(table, order)
}

/// Whether the table records that `w` was observed after `ctx`.
pub open spec fn pair_present(table: TableView, ctx: CtxView, w: TokenView) -> bool {
    table_has_ctx(table, ctx) && list_has_token(ctx_row(table, ctx), w)
}

/// With distinct contexts, the row looked up for the `i`th entry's context is
/// that entry's list.
pub proof fn lemma_ctx_row_at(table: TableView, i: int)
    requires
        forall|p: int, q: int| 0 <= p < q < table.len() ==> (#[trigger] table[p]).0 != (
        #[trigger] table[q]).0,
        0 <= i < table.len(),
    ensures
        table_has_ctx(table, table[i].0),
        ctx_row(table, table[i].0) == table[i].1,
{
    assert(table_has_ctx(table, table[i].0));
    let j = choose|j: int| 0 <= j < table.len() && table[j].0 == table[i].0;
    if i < j {
        assert(table[i].0 != table[j].0);
    } else if j < i {
        assert(table[j].0 != table[i].0);
    }
}

/// Bumping a list keeps it well formed, and its tokens are the old tokens
/// together with the observed one.
pub proof fn lemma_bump_list_wf(list: RowView, w: TokenView)
    requires
        row_wf(list) || list.len() == 0,
    ensures
        row_wf(bump_list(list, w)),
        forall|x: Seq<char>| list_has_token(bump_list(list, w), x) <==> (list_has_token(list, x)
            || x == w),
{
    let out = bump_list(list, w);
    if list_has_token(list, w) {
        assert(forall|i: int| 0 <= i < out.len() ==> (#[trigger] out[i]).0 == list[i].0);
        assert forall|x: Seq<char>| list_has_token(out, x) implies (list_has_token(list, x) || x
            == w) by {
            let i = choose|i: int| 0 <= i < out.len() && out[i].0 == x;
            assert(list[i].0 == x);
        }
        assert forall|x: Seq<char>| list_has_token(list, x) implies list_has_token(out, x) by {
            let i = choose|i: int| 0 <= i < list.len() && list[i].0 == x;
            assert(out[i].0 == x);
        }
        let k = choose|k: int| 0 <= k < list.len() && list[k].0 == w;
        assert(out[k].0 == w);
    } else {
        assert(out[list.len() as int].0 == w);
        assert(forall|i: int| 0 <= i < list.len() ==> #[trigger] out[i] == list[i]);
        assert forall|x: Seq<char>| list_has_token(out, x) implies (list_has_token(list, x) || x
            == w) by {
            let i = choose|i: int| 0 <= i < out.len() && out[i].0 == x;
            if i < list.len() {
                assert(list[i].0 == x);
            }
        }
        assert forall|x: Seq<char>| list_has_token(list, x) implies list_has_token(out, x) by {
            let i = choose|i: int| 0 <= i < list.len() && list[i].0 == x;
            assert(out[i].0 == x);
        }
    }
}

/// One observation keeps the table well formed, when the window has the
/// table's order.
pub proof fn lemma_step_wf(table: TableView, ctx: CtxView, w: TokenView, order: nat)
    requires
        table_wf(table, order),
        ctx.len() == order,
    ensures
        table_wf(step_table(table, ctx, w), order),
{
    let out = step_table(table, ctx, w);
    if table_has_ctx(table, ctx) {
        assert(forall|i: int| 0 <= i < out.len() ==> (#[trigger] out[i]).0 == table[i].0);
        assert forall|i: int| 0 <= i < out.len() implies row_wf((#[trigger] out[i]).1) by {
            if table[i].0 == ctx {
                lemma_bump_list_wf(table[i].1, w);
            }
        }
    } else {
        assert forall|i: int| 0 <= i < out.len() implies row_wf((#[trigger] out[i]).1) by {
            if i < table.len() {
            } else {
                assert(out[i].1 =~= seq![(w, 1u32)]);
            }
        }
    }
}

/// Training on an input of fewer than `order + 1` tokens leaves the table as
/// it was; in particular a fresh chain stays empty.
pub proof fn lemma_train_short_input(table: TableView, order: nat, tokens: Seq<Seq<char>>)
    requires
        tokens.len() < order + 1,
    ensures
        train_spec(table, order, tokens) == table,
{
}

/// With distinct contexts, one observation on the `i`th entry's context just
/// replaces that entry's list with its bumped form.
pub proof fn lemma_step_at(table: TableView, i: int, w: TokenView)
    requires
        forall|p: int, q: int| 0 <= p < q < table.len() ==> (#[trigger] table[p]).0 != (
        #[trigger] table[q]).0,
        0 <= i < table.len(),
    ensures
        step_table(table, table[i].0, w) == table.update(
            i,
            (table[i].0, bump_list(table[i].1, w)),
        ),
{
    let ctx = table[i].0;
    assert(table_has_ctx(table, ctx));
    let out = step_table(table, ctx, w);
    let upd = table.update(i, (ctx, bump_list(table[i].1, w)));
    assert forall|j: int| 0 <= j < table.len() implies #[trigger] out[j] == upd[j] by {
        if j != i {
            if j < i {
                assert(table[j].0 != table[i].0);
            } else {
                assert(table[i].0 != table[j].0);
            }
        }
    }
    assert(out =~= upd);
}

/// With distinct tokens, one observation of the `j`th pair's token just
/// bumps that pair's count.
pub proof fn lemma_bump_at(list: RowView, j: int, w: TokenView)
    requires
        forall|p: int, q: int| 0 <= p < q < list.len() ==> (#[trigger] list[p]).0 != (
        #[trigger] list[q]).0,
        0 <= j < list.len(),
        list[j].0 == w,
    ensures
        bump_list(list, w) == list.update(j, (w, bump_count(list[j].1))),
{
    assert(list_has_token(list, w));
    let out = bump_list(list, w);
    let upd = list.update(j, (w, bump_count(list[j].1)));
    assert forall|i: int| 0 <= i < list.len() implies #[trigger] out[i] == upd[i] by {
        if i != j {
            if i < j {
                assert(list[i].0 != list[j].0);
            } else {
                assert(list[j].0 != list[i].0);
            }
        }
    }
    assert(out =~= upd);
}

/// Any pair present after one observation was present before, or is that very
/// observation.
pub proof fn lemma_step_pair_origin(
    table: TableView,
    ctx: CtxView,
    w: TokenView,
    order: nat,
    c2: CtxView,
    w2: TokenView,
)
    requires
        table_wf(table, order),
        pair_present(step_table(table, ctx, w), c2, w2),
    ensures
        pair_present(table, c2, w2) || (c2 == ctx && w2 == w),
{
    let out = step_table(table, ctx, w);
    let i = choose|i: int| 0 <= i < out.len() && out[i].0 == c2;
    if table_has_ctx(table, ctx) {
        assert(forall|j: int| 0 <= j < out.len() ==> (#[trigger] out[j]).0 == table[j].0);
        assert forall|p: int, q: int| 0 <= p < q < out.len() implies (#[trigger] out[p]).0 != (
        #[trigger] out[q]).0 by {
            assert(table[p].0 != table[q].0);
        }
        lemma_ctx_row_at(out, i);
        lemma_ctx_row_at(table, i);
        if table[i].0 == ctx {
            assert(out[i].1 == bump_list(table[i].1, w));
            lemma_bump_list_wf(table[i].1, w);
            if c2 == ctx {
                assert(list_has_token(bump_list(table[i].1, w), w2));
                assert(list_has_token(table[i].1, w2) || w2 == w);
            } else {
                assert(false);
            }
        } else {
            assert(out[i].1 == table[i].1);
        }
    } else {
        if i < table.len() {
            assert(out[i] == table[i]);
            assert forall|p: int, q: int| 0 <= p < q < out.len() implies (#[trigger] out[p]).0
                != (#[trigger] out[q]).0 by {
                if q < table.len() {
                    assert(table[p].0 != table[q].0);
                } else {
                    assert(out[q].0 == ctx);
                    assert(table_has_ctx(table, table[p].0));
                }
            }
            lemma_ctx_row_at(out, i);
            lemma_ctx_row_at(table, i);
        } else {
            assert(out[i].0 == ctx && out[i].1 =~= seq![(w, 1u32)]);
            assert forall|p: int, q: int| 0 <= p < q < out.len() implies (#[trigger] out[p]).0
                != (#[trigger] out[q]).0 by {
                if q < table.len() {
                    assert(table[p].0 != table[q].0);
                } else {
                    assert(table_has_ctx(table, table[p].0));
                }
            }
            lemma_ctx_row_at(out, i);
            assert(ctx_row(out, c2) == seq![(w, 1u32)]);
            let k = choose|k: int| 0 <= k < 1 && seq![(w, 1u32)][k].0 == w2;
            assert(w2 == w);
        }
    }
}

/// Whether the observation `c2 -> w2` is the one made at position `k` of the
/// token sequence: `c2` is the window of `order` tokens starting at `k`, and
/// `w2` the token right after it.
pub open spec fn observed_at(
    tokens: Seq<Seq<char>>,
    order: nat,
    k: int,
    c2: CtxView,
    w2: TokenView,
) -> bool {
    &&& 0 <= k
    &&& k + order < tokens.len()
    &&& c2 == tokens.subrange(k, k + order as int)
    &&& w2 == tokens[k + order as int]
}

/// Any pair present after a sliding run, and not before it, is an observation
/// made somewhere inside that run.
pub proof fn lemma_train_from_origin(
    table: TableView,
    window: CtxView,
    rest: Seq<Seq<char>>,
    order: nat,
    c2: CtxView,
    w2: TokenView,
)
    requires
        table_wf(table, order),
        window.len() == order,
        order >= 1,
        pair_present(train_from(table, window, rest), c2, w2),
        !pair_present(table, c2, w2),
    ensures
        exists|k: int| #[trigger] observed_at(window + rest, order, k, c2, w2),
    decreases rest.len(),
{
    let full = window + rest;
    if rest.len() == 0 {
        assert(false);
    } else {
        let t1 = step_table(table, window, rest[0]);
        let win1 = advance(window, rest[0]);
        let rest1 = rest.drop_first();
        if pair_present(t1, c2, w2) {
            lemma_step_pair_origin(table, window, rest[0], order, c2, w2);
            assert(c2 == window && w2 == rest[0]);
            assert(full.subrange(0, order as int) =~= window);
            assert(full[order as int] == rest[0]);
            assert(observed_at(full, order, 0, c2, w2));
        } else {
            lemma_step_wf(table, window, rest[0], order);
            lemma_train_from_origin(t1, win1, rest1, order, c2, w2);
            let k = choose|k: int| #[trigger] observed_at(win1 + rest1, order, k, c2, w2);
            assert((win1 + rest1) =~= full.subrange(1, full.len() as int));
            assert(c2 =~= full.subrange(k + 1, k + 1 + order as int));
            assert(w2 == full[k + 1 + order as int]);
            assert(observed_at(full, order, k + 1, c2, w2));
        }
    }
}

/// Training calls never mix: a pair recorded by one call is a window of that
/// call's own input followed by its next token. Two separate calls therefore
/// never create a context that straddles their boundary.
pub proof fn lemma_no_cross_input(
    table: TableView,
    order: nat,
    tokens: Seq<Seq<char>>,
    c2: CtxView,
    w2: TokenView,
)
    requires
        parts_wf(order, table),
        pair_present(train_spec(table, order, tokens), c2, w2),
        !pair_present(table, c2, w2),
    ensures
        exists|k: int| #[trigger] observed_at(tokens, order, k, c2, w2),
{
    if tokens.len() <= order {
        assert(false);
    } else {
        let window = tokens.take(order as int);
        let rest = tokens.skip(order as int);
        lemma_train_from_origin(table, window, rest, order, c2, w2);
        let k = choose|k: int| #[trigger] observed_at(window + rest, order, k, c2, w2);
        assert((window + rest) =~= tokens);
        assert(observed_at(tokens, order, k, c2, w2));
    }
}

} // verus!
