//! Result filtering for the scriptable query mode: by source tool and by
//! time window, cut to a limit — applied after the engine query, in engine
//! order.

use vstd::prelude::*;
use crate::session::{SearchResult, SearchResultV, SessionSource};

verus! {

/// Whether a result passes the source and time filters.
pub open spec fn keep_result(
    r: SearchResultV,
    source: Option<SessionSource>,
    since: Option<i64>,
    until: Option<i64>,
) -> bool {
    &&& (source matches Some(s) ==> r.session.source == s)
    &&& (since matches Some(t) ==> r.session.timestamp >= t)
    &&& (until matches Some(t) ==> r.session.timestamp <= t)
}

/// The results that pass the filters, in order.
pub open spec fn filtered_results(
    rs: Seq<SearchResultV>,
    source: Option<SessionSource>,
    since: Option<i64>,
    until: Option<i64>,
) -> Seq<SearchResultV>
    decreases rs.len(),
{
    if rs.len() == 0 {
        Seq::empty()
    } else {
        let pre = filtered_results(rs.drop_last(), source, since, until);
        if keep_result(rs.last(), source, since, until) {
            pre.push(rs.last())
        } else {
            pre
        }
    }
}

/// Keeps the results that pass the source and time filters, cut to `limit`,
/// in engine order.
pub fn filter_results(
    results: &Vec<SearchResult>,
    source: Option<SessionSource>,
    since: Option<i64>,
    until: Option<i64>,
    limit: usize,
) -> (r: Vec<SearchResult>)
    ensures
        r.deep_view() == ({
            let full = filtered_results(results.deep_view(), source, since, until);
            full.take(if limit < full.len() {
                limit as int
            } else {
                full.len() as int
            })
        }),
{
    let ghost rv = results.deep_view();
    let mut out: Vec<SearchResult> = Vec::new();
    let mut i: usize = 0;
    proof {
        assert(rv.take(0) =~= Seq::<SearchResultV>::empty());
        assert(out.deep_view() =~= filtered_results(rv.take(0), source, since, until));
    }
    while i < results.len()
        invariant
            rv == results.deep_view(),
            rv.len() == results@.len(),
            i <= results@.len(),
            out.deep_view() == filtered_results(rv.take(i as int), source, since, until),
        decreases results@.len() - i,
    {
        proof {
            assert(results@[i as int]@ == rv[i as int]);
            assert(rv.take(i + 1).drop_last() =~= rv.take(i as int));
            assert(rv.take(i + 1).last() == rv[i as int]);
        }
        let item = &results[i];
        let src_ok = match source {
            Some(s) => item.session.source == s,
            None => true,
        };
        let since_ok = match since {
            Some(t) => item.session.timestamp >= t,
            None => true,
        };
        let until_ok = match until {
            Some(t) => item.session.timestamp <= t,
            None => true,
        };
        if src_ok && since_ok && until_ok {
            let ghost o0 = out.deep_view();
            let kept = item.duplicate();
            out.push(kept);
            proof {
                assert(out.deep_view() =~= o0.push(rv[i as int]));
            }
        }
        i = i + 1;
    }
    proof {
        assert(rv.take(rv.len() as int) =~= rv);
    }
    if out.len() > limit {
        let ghost full = out.deep_view();
        let ghost fullv = out@;
        out.truncate(limit);
        proof {
            assert forall|q: int| 0 <= q < out.deep_view().len() implies out.deep_view()[q]
                == full.take(limit as int)[q] by {
                assert(out@[q] == fullv[q]);
            }
            assert(out.deep_view() =~= full.take(limit as int));
        }
    } else {
        proof {
            let full = out.deep_view();
            assert(full.take(full.len() as int) =~= full);
        }
    }
    out
}

/// The count after filtering never exceeds the count before: restricting the
/// scope of a result set can only narrow it.
pub proof fn lemma_filter_shrinks(
    rs: Seq<SearchResultV>,
    source: Option<SessionSource>,
    since: Option<i64>,
    until: Option<i64>,
)
    ensures
        filtered_results(rs, source, since, until).len() <= rs.len(),
        forall|j: int| 0 <= j < filtered_results(rs, source, since, until).len() ==> keep_result(
            #[trigger] filtered_results(rs, source, since, until)[j],
            source,
            since,
            until,
        ),
    decreases rs.len(),
{
    if rs.len() > 0 {
        lemma_filter_shrinks(rs.drop_last(), source, since, until);
        let pre = filtered_results(rs.drop_last(), source, since, until);
        let s = filtered_results(rs, source, since, until);
        assert forall|j: int| 0 <= j < s.len() implies keep_result(
            #[trigger] s[j],
            source,
            since,
            until,
        ) by {
            if j < pre.len() {
                assert(s[j] == pre[j]);
            }
        }
    }
}

} // verus!
