//! Relevance ranking: scored entries sort by (score, tie key, position),
//! all descending, and the context extractor windows the top matches.

use vstd::prelude::*;
use vstd::relations::{sorted_by, total_ordering};
use vstd::seq_lib::lemma_sorted_unique;
use vstd::seq_lib::to_multiset_build;
use vstd::seq_lib::to_multiset_insert;
use crate::session::{Message, MessageV};
use crate::text::{fold_chars, lower_of, score_of, score_bytes, tokens_of, tokenize};

verus! {

broadcast use vstd::seq_lib::group_to_multiset_ensures;

/// A rankable entry: relevance score, a tie-break key (message index or
/// timestamp), and the entry's position in its source list. Positions are
/// distinct, so the order below is total and the sorted arrangement unique.
/// `a` ranks no worse than `b`: all three components compare descending.
pub open spec fn rank_leq(a: (u128, i128, usize), b: (u128, i128, usize)) -> bool {
    if a.0 != b.0 {
        a.0 > b.0
    } else if a.1 != b.1 {
        a.1 > b.1
    } else {
        a.2 >= b.2
    }
}

/// [`rank_leq`] as a relation value, for vstd's ordering machinery.
pub open spec fn rank_order() -> spec_fn((u128, i128, usize), (u128, i128, usize)) -> bool {
    |a: (u128, i128, usize), b: (u128, i128, usize)| rank_leq(a, b)
}

/// Descending rank order is a total order.
pub proof fn lemma_rank_total()
    ensures
        total_ordering(rank_order()),
{
    let r = rank_order();
    assert forall|a: (u128, i128, usize)| #[trigger] r(a, a) by {}
    assert forall|a: (u128, i128, usize), b: (u128, i128, usize)| #[trigger] r(a, b) && #[trigger] r(
        b,
        a,
    ) implies a == b by {
        assert(a.0 == b.0 && a.1 == b.1 && a.2 == b.2);
    }
    assert forall|a: (u128, i128, usize), b: (u128, i128, usize), c: (u128, i128, usize)|
        #[trigger] r(a, b) && #[trigger] r(b, c) implies r(a, c) by {}
    assert forall|a: (u128, i128, usize), b: (u128, i128, usize)| #[trigger] r(a, b) || #[trigger] r(
        b,
        a,
    ) by {}
}

/// The unique arrangement of `s` in descending rank order.
pub open spec fn rank_sorted(s: Seq<(u128, i128, usize)>) -> Seq<(u128, i128, usize)> {
    s.sort_by(rank_order())
}

fn rank_leq_exec(a: &(u128, i128, usize), b: &(u128, i128, usize)) -> (r: bool)
    ensures
        r == rank_leq(*a, *b),
{
    if a.0 != b.0 {
        a.0 > b.0
    } else if a.1 != b.1 {
        a.1 > b.1
    } else {
        a.2 >= b.2
    }
}

/// Sorts entries into descending rank order; the result is exactly
/// [`rank_sorted`] of the input.
pub fn sort_ranked(v: &Vec<(u128, i128, usize)>) -> (r: Vec<(u128, i128, usize)>)
    ensures
        r@ == rank_sorted(v@),
{
    proof {
        lemma_rank_total();
        assert(Seq::<(u128, i128, usize)>::empty() =~= v@.take(0));
    }
    let mut out: Vec<(u128, i128, usize)> = Vec::new();
    let mut idx: usize = 0;
    while idx < v.len()
        invariant
            idx <= v@.len(),
            sorted_by(out@, rank_order()),
            out@.to_multiset() == v@.take(idx as int).to_multiset(),
        decreases v@.len() - idx,
    {
        let x = v[idx];
        let mut p: usize = 0;
        while p < out.len() && rank_leq_exec(&out[p], &x)
            invariant
                p <= out@.len(),
                forall|q: int| 0 <= q < p ==> rank_leq(#[trigger] out@[q], x),
            decreases out@.len() - p,
        {
            p = p + 1;
        }
        let ghost out0 = out@;
        out.insert(p, x);
        proof {
            lemma_rank_total();
            let ord = rank_order();
            assert forall|a: int, b: int| 0 <= a < b < out@.len() implies ord(
                out@[a],
                out@[b],
            ) by {
                if b < p {
                    assert(ord(out0[a], out0[b]));
                } else if b == p {
                    assert(rank_leq(out0[a], x));
                } else if a < p {
                    assert(ord(out0[a], out0[b - 1]));
                } else if a == p {
                    assert(!rank_leq(out0[p as int], x));
                    assert(rank_leq(x, out0[p as int]));
                    if b - 1 > p {
                        assert(ord(out0[p as int], out0[b - 1]));
                    }
                } else {
                    assert(ord(out0[a - 1], out0[b - 1]));
                }
            }
            to_multiset_insert(out0, p as int, x);
            assert(v@.take(idx as int + 1) =~= v@.take(idx as int).push(v@[idx as int]));
            to_multiset_build(v@.take(idx as int), v@[idx as int]);
        }
        idx = idx + 1;
    }
    proof {
        assert(v@.take(v@.len() as int) =~= v@);
        lemma_rank_total();
        v@.lemma_sort_by_ensures(rank_order());
        lemma_sorted_unique(out@, v@.sort_by(rank_order()), rank_order());
        assert(out@ =~= rank_sorted(v@));
    }
    out
}


/// Sorting keeps length and elements: every ranked entry is one of the
/// input's entries.
pub proof fn lemma_rank_sorted_elements(v: Seq<(u128, i128, usize)>)
    ensures
        rank_sorted(v).len() == v.len(),
        forall|j: int| 0 <= j < rank_sorted(v).len() ==> v.contains(#[trigger] rank_sorted(v)[j]),
{
    lemma_rank_total();
    v.lemma_sort_by_ensures(rank_order());
    let s = rank_sorted(v);
    assert(s.to_multiset().len() == v.to_multiset().len());
    assert forall|j: int| 0 <= j < s.len() implies v.contains(#[trigger] s[j]) by {
        assert(s.contains(s[j]));
        assert(s.to_multiset().count(s[j]) > 0);
        assert(v.to_multiset().count(s[j]) > 0);
    }
}

/// Equal-score entries stand in descending tie-key order: in a rank-sorted
/// sequence, of two entries with the same score the earlier one has the
/// larger (or equal) tie key — for messages, the more recent index.
pub proof fn lemma_rank_tie_break(s: Seq<(u128, i128, usize)>, i: int, j: int)
    requires
        sorted_by(s, rank_order()),
        0 <= i < j < s.len(),
        s[i].0 == s[j].0,
    ensures
        s[i].1 >= s[j].1,
{
    let ord = rank_order();
    assert(ord(s[i], s[j]));
    assert(rank_leq(s[i], s[j]));
}


/// How many top-scoring messages a snippet draws from.
pub const DEFAULT_MESSAGES_PER_SESSION: usize = 5;

/// A message's relevance: the sum over the query's folded tokens of their
/// occurrence counts in the message's folded content.
pub open spec fn msg_score(m: MessageV, terms: Seq<Seq<u8>>) -> nat {
    score_of(lower_of(m.content), terms)
}

/// The scored entries of a message list: one (score, index, index) entry per
/// message with positive score, in index order.
pub open spec fn scored_msgs(msgs: Seq<MessageV>, terms: Seq<Seq<u8>>) -> Seq<(u128, i128, usize)>
    decreases msgs.len(),
{
    if msgs.len() == 0 {
        Seq::empty()
    } else {
        let pre = scored_msgs(msgs.drop_last(), terms);
        let i = msgs.len() - 1;
        if msg_score(msgs.last(), terms) > 0 {
            pre.push((msg_score(msgs.last(), terms) as u128, i as i128, i as usize))
        } else {
            pre
        }
    }
}

/// Every scored entry points at a message of the list.
pub proof fn lemma_scored_positions(msgs: Seq<MessageV>, terms: Seq<Seq<u8>>)
    ensures
        forall|j: int| 0 <= j < scored_msgs(msgs, terms).len()
            ==> (#[trigger] scored_msgs(msgs, terms)[j]).2 < msgs.len(),
    decreases msgs.len(),
{
    if msgs.len() > 0 {
        lemma_scored_positions(msgs.drop_last(), terms);
        let pre = scored_msgs(msgs.drop_last(), terms);
        let s = scored_msgs(msgs, terms);
        assert forall|j: int| 0 <= j < s.len() implies (#[trigger] s[j]).2 < msgs.len() by {
            if j < pre.len() {
                assert(pre[j].2 < msgs.drop_last().len());
                assert(s[j] == pre[j]);
            }
        }
    }
}

/// Scores each message against the folded query tokens; returns exactly
/// [`scored_msgs`].
pub fn score_messages(messages: &Vec<Message>, terms: &Vec<Vec<u8>>) -> (r: Vec<(u128, i128, usize)>)
    ensures
        r@ == scored_msgs(messages.deep_view(), terms.deep_view()),
{
    let ghost mv = messages.deep_view();
    let ghost tv = terms.deep_view();
    let mut out: Vec<(u128, i128, usize)> = Vec::new();
    let mut i: usize = 0;
    proof {
        assert(mv.take(0) =~= Seq::<MessageV>::empty());
    }
    while i < messages.len()
        invariant
            mv == messages.deep_view(),
            tv == terms.deep_view(),
            mv.len() == messages@.len(),
            i <= messages@.len(),
            out@ == scored_msgs(mv.take(i as int), tv),
        decreases messages@.len() - i,
    {
        let folded = fold_chars(&messages[i].content);
        let sc = score_bytes(&folded, terms);
        proof {
            assert(messages@[i as int]@ == mv[i as int]);
            assert(mv.take(i + 1).drop_last() =~= mv.take(i as int));
            assert(mv.take(i + 1).last() == mv[i as int]);
        }
        if sc > 0 {
            out.push((sc, i as i128, i));
        }
        i = i + 1;
    }
    proof {
        assert(mv.take(messages@.len() as int) =~= mv);
    }
    out
}

/// The top `k` entries' messages, verbatim, in rank order.
pub open spec fn top_selected(
    msgs: Seq<MessageV>,
    ranked: Seq<(u128, i128, usize)>,
    k: int,
) -> Seq<MessageV> {
    let n = if k < ranked.len() {
        k
    } else {
        ranked.len() as int
    };
    Seq::new(n as nat, |j: int| msgs[ranked[j].2 as int])
}

/// Returns the messages of the first `k` ranked entries, in that order.
pub fn select_top(messages: &Vec<Message>, ranked: &Vec<(u128, i128, usize)>, k: usize) -> (r: Vec<Message>)
    requires
        forall|j: int| 0 <= j < ranked@.len() ==> (#[trigger] ranked@[j]).2 < messages@.len(),
    ensures
        r.deep_view() == top_selected(messages.deep_view(), ranked@, k as int),
{
    let ghost mv = messages.deep_view();
    let n = if k < ranked.len() {
        k
    } else {
        ranked.len()
    };
    let mut out: Vec<Message> = Vec::new();
    let mut j: usize = 0;
    while j < n
        invariant
            mv == messages.deep_view(),
            mv.len() == messages@.len(),
            n <= ranked@.len(),
            n as int == top_selected(mv, ranked@, k as int).len(),
            forall|q: int| 0 <= q < ranked@.len() ==> (#[trigger] ranked@[q]).2 < messages@.len(),
            j <= n,
            out.deep_view().len() == j,
            forall|q: int| 0 <= q < j ==> #[trigger] out.deep_view()[q] == top_selected(
                mv,
                ranked@,
                k as int,
            )[q],
        decreases n - j,
    {
        let pos = ranked[j].2;
        let ghost out0 = out.deep_view();
        let ghost outv0 = out@;
        let m = messages[pos].duplicate();
        out.push(m);
        proof {
            let sel = top_selected(mv, ranked@, k as int);
            assert forall|q: int| 0 <= q < j + 1 implies #[trigger] out.deep_view()[q]
                == sel[q] by {
                if q < j {
                    assert(out@[q] == outv0[q]);
                    assert(out0[q] == sel[q]);
                } else {
                    assert(out@[q] == m);
                    assert(m@ == mv[ranked@[q].2 as int]);
                }
            }
        }
        j = j + 1;
    }
    proof {
        assert(out.deep_view() =~= top_selected(mv, ranked@, k as int));
    }
    out
}

/// Whether message index `i` falls in the context window of one of the first
/// `k` ranked entries.
pub open spec fn in_ctx(i: int, ranked: Seq<(u128, i128, usize)>, k: int, context: int) -> bool {
    exists|j: int|
        0 <= j < k && j < ranked.len() && (#[trigger] ranked[j]).2 - context <= i <= ranked[j].2
            + context
}

/// The messages with index below `n` selected by the context windows, in
/// ascending index order, without duplicates.
pub open spec fn ctx_selected_upto(
    msgs: Seq<MessageV>,
    ranked: Seq<(u128, i128, usize)>,
    k: int,
    context: int,
    n: int,
) -> Seq<MessageV>
    decreases n,
{
    if n <= 0 {
        Seq::empty()
    } else {
        let pre = ctx_selected_upto(msgs, ranked, k, context, n - 1);
        if in_ctx(n - 1, ranked, k, context) {
            pre.push(msgs[n - 1])
        } else {
            pre
        }
    }
}

/// All messages selected by the context windows of the top `k` entries.
pub open spec fn ctx_selected(
    msgs: Seq<MessageV>,
    ranked: Seq<(u128, i128, usize)>,
    k: int,
    context: int,
) -> Seq<MessageV> {
    ctx_selected_upto(msgs, ranked, k, context, msgs.len() as int)
}

fn in_ctx_check(i: usize, ranked: &Vec<(u128, i128, usize)>, k: usize, context: usize) -> (r: bool)
    ensures
        r == in_ctx(i as int, ranked@, k as int, context as int),
{
    let n = if k < ranked.len() {
        k
    } else {
        ranked.len()
    };
    let mut j: usize = 0;
    while j < n
        invariant
            n <= ranked@.len(),
            k as int <= ranked@.len() ==> n == k,
            k as int > ranked@.len() ==> n as int == ranked@.len(),
            j <= n,
            forall|q: int| 0 <= q < j ==> !(ranked@[q].2 - context <= i as int
                <= #[trigger] ranked@[q].2 + context),
        decreases n - j,
    {
        let pos = ranked[j].2;
        if (pos as u128) <= (i as u128) + (context as u128) && (i as u128) <= (pos as u128)
            + (context as u128) {
            return true;
        }
        j = j + 1;
    }
    false
}

/// Gathers the context windows around the top-scoring matches: each of the
/// first [`DEFAULT_MESSAGES_PER_SESSION`] ranked entries expands to the
/// messages within `context` of it, clamped to the session; the union comes
/// back in ascending transcript order, without duplicates.
pub fn collect_with_context(
    messages: &Vec<Message>,
    ranked: &Vec<(u128, i128, usize)>,
    context: usize,
) -> (r: Vec<Message>)
    ensures
        r.deep_view() == ctx_selected(messages.deep_view(), ranked@, DEFAULT_MESSAGES_PER_SESSION as int, context as int),
{
    let ghost mv = messages.deep_view();
    let ghost k = DEFAULT_MESSAGES_PER_SESSION as int;
    let mut out: Vec<Message> = Vec::new();
    let mut i: usize = 0;
    while i < messages.len()
        invariant
            mv == messages.deep_view(),
            mv.len() == messages@.len(),
            i <= messages@.len(),
            k == DEFAULT_MESSAGES_PER_SESSION as int,
            out.deep_view() == ctx_selected_upto(mv, ranked@, k, context as int, i as int),
        decreases messages@.len() - i,
    {
        let ghost out0 = out.deep_view();
        if in_ctx_check(i, ranked, DEFAULT_MESSAGES_PER_SESSION, context) {
            let m = messages[i].duplicate();
            out.push(m);
            proof {
                assert(out.deep_view() =~= out0.push(mv[i as int]));
            }
        }
        i = i + 1;
    }
    out
}

/// The messages a snippet shows for a query: with a context window the
/// windowed union in transcript order, otherwise the top `limit` matches in
/// rank order.
pub open spec fn spec_relevant(
    msgs: Seq<MessageV>,
    folded_query: Seq<u8>,
    context: int,
    limit: int,
) -> Seq<MessageV> {
    let terms = tokens_of(folded_query);
    let ranked = rank_sorted(scored_msgs(msgs, terms));
    if context > 0 {
        ctx_selected(msgs, ranked, DEFAULT_MESSAGES_PER_SESSION as int, context)
    } else {
        top_selected(msgs, ranked, limit)
    }
}

/// Ranks a session's messages against the query and selects the snippet
/// messages, exactly as [`spec_relevant`] states.
pub fn relevant_messages(
    messages: &Vec<Message>,
    query: &Vec<char>,
    context: usize,
    limit: usize,
) -> (r: Vec<Message>)
    ensures
        r.deep_view() == (spec_relevant(
            messages.deep_view(),
            lower_of(query@),
            context as int,
            limit as int,
        )),
{
    let ghost mv = messages.deep_view();
    let folded = fold_chars(query);
    let terms = tokenize(&folded);
    let scored = score_messages(messages, &terms);
    let ranked = sort_ranked(&scored);
    proof {
        lemma_scored_positions(mv, terms.deep_view());
        lemma_rank_total();
        scored@.lemma_sort_by_ensures(rank_order());
        assert forall|j: int| 0 <= j < ranked@.len() implies (#[trigger] ranked@[j]).2
            < messages@.len() by {
            assert(ranked@.contains(ranked@[j]));
            assert(ranked@.to_multiset().count(ranked@[j]) > 0);
            assert(scored@.to_multiset().count(ranked@[j]) > 0);
            assert(scored@.contains(ranked@[j]));
            let q = choose|q: int| 0 <= q < scored@.len() && scored@[q] == ranked@[j];
            assert(scored@[q].2 < mv.len());
        }
    }
    if context > 0 {
        collect_with_context(messages, &ranked, context)
    } else {
        select_top(messages, &ranked, limit)
    }
}

} // verus!
