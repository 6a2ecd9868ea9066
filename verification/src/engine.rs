//! The session index: an in-memory model of the full-text store with a
//! scoped single writer, explicit commit, and an explicitly reloaded read
//! view — commits are not visible to reads until `reload`.

use vstd::prelude::*;
use crate::rank::{
    lemma_rank_sorted_elements, lemma_rank_total, rank_leq, rank_order, rank_sorted, scored_msgs,
    score_messages, sort_ranked,
};
use crate::session::{SearchResult, SearchResultV, Session, SessionV};
use crate::text::{fold_chars, lower_of, tokenize, tokens_of};

verus! {

/// Why an index operation was refused.
#[derive(Clone, Copy, Debug, PartialEq, Eq, Structural, Hash)]
pub enum IndexError {
    /// A writer is already live; at most one may exist at a time.
    WriterActive,
}

/// One pending write: remove every document of a file, or add a session's
/// documents.
pub enum WriteOp {
    Delete(String),
    Upsert(Session),
}

/// Mathematical view of a [`WriteOp`].
#[verifier::ext_equal]
pub ghost enum WriteOpV {
    Delete(Seq<char>),
    Upsert(SessionV),
}

impl View for WriteOp {
    type V = WriteOpV;

    open spec fn view(&self) -> WriteOpV {
        match self {
            WriteOp::Delete(p) => WriteOpV::Delete(p@),
            WriteOp::Upsert(s) => WriteOpV::Upsert(s@),
        }
    }
}

impl DeepView for WriteOp {
    type V = WriteOpV;

    open spec fn deep_view(&self) -> WriteOpV {
        self.view()
    }
}

/// The entries left after removing every session stored under `path`.
pub open spec fn remove_path(s: Seq<SessionV>, path: Seq<char>) -> Seq<SessionV>
    decreases s.len(),
{
    if s.len() == 0 {
        Seq::empty()
    } else {
        let pre = remove_path(s.drop_last(), path);
        if s.last().file_path == path {
            pre
        } else {
            pre.push(s.last())
        }
    }
}

/// The store after one pending write.
pub open spec fn apply_op(s: Seq<SessionV>, op: WriteOpV) -> Seq<SessionV> {
    match op {
        WriteOpV::Delete(p) => remove_path(s, p),
        WriteOpV::Upsert(e) => s.push(e),
    }
}

/// The store after a batch of pending writes, applied in order.
pub open spec fn apply_ops(s: Seq<SessionV>, ops: Seq<WriteOpV>) -> Seq<SessionV>
    decreases ops.len(),
{
    if ops.len() == 0 {
        s
    } else {
        apply_op(apply_ops(s, ops.drop_last()), ops.last())
    }
}

/// Applying two batches one after the other equals applying their
/// concatenation.
pub proof fn lemma_apply_ops_concat(s: Seq<SessionV>, a: Seq<WriteOpV>, b: Seq<WriteOpV>)
    ensures
        apply_ops(apply_ops(s, a), b) == apply_ops(s, a + b),
    decreases b.len(),
{
    if b.len() == 0 {
        assert(a + b =~= a);
    } else {
        lemma_apply_ops_concat(s, a, b.drop_last());
        assert((a + b).drop_last() =~= a + b.drop_last());
        assert((a + b).last() == b.last());
    }
}

/// One scoped write session; obtained from [`SessionIndex::writer`], holds
/// the pending writes until `commit`.
pub struct IndexWriter {
    pending: Vec<WriteOp>,
}

impl IndexWriter {
    /// The pending writes, in order.
    pub closed spec fn ops(&self) -> Seq<WriteOpV> {
        self.pending.deep_view()
    }
}

/// The per-session search entries: one (best score, timestamp, position)
/// entry for each stored session with at least one matching message.
pub open spec fn session_triples(entries: Seq<SessionV>, terms: Seq<Seq<u8>>) -> Seq<
    (u128, i128, usize),
>
    decreases entries.len(),
{
    if entries.len() == 0 {
        Seq::empty()
    } else {
        let pre = session_triples(entries.drop_last(), terms);
        let i = entries.len() - 1;
        let e = entries.last();
        if scored_msgs(e.messages, terms).len() > 0 {
            pre.push(
                (rank_sorted(scored_msgs(e.messages, terms))[0].0, e.timestamp as i128, i as usize),
            )
        } else {
            pre
        }
    }
}

/// Every search entry points at a stored session.
pub proof fn lemma_session_triples_positions(entries: Seq<SessionV>, terms: Seq<Seq<u8>>)
    ensures
        forall|j: int| 0 <= j < session_triples(entries, terms).len()
            ==> (#[trigger] session_triples(entries, terms)[j]).2 < entries.len(),
    decreases entries.len(),
{
    if entries.len() > 0 {
        lemma_session_triples_positions(entries.drop_last(), terms);
        let pre = session_triples(entries.drop_last(), terms);
        let s = session_triples(entries, terms);
        assert forall|j: int| 0 <= j < s.len() implies (#[trigger] s[j]).2 < entries.len() by {
            if j < pre.len() {
                assert(pre[j].2 < entries.drop_last().len());
                assert(s[j] == pre[j]);
            }
        }
    }
}

/// What one query hit holds: the stored session behind a search entry, its
/// best-matching message, and the entry's score.
pub open spec fn result_of(
    entries: Seq<SessionV>,
    terms: Seq<Seq<u8>>,
    t: (u128, i128, usize),
) -> SearchResultV {
    SearchResultV {
        session: entries[t.2 as int],
        matched_message_index: rank_sorted(
            scored_msgs(entries[t.2 as int].messages, terms),
        )[0].2 as int,
        score: t.0 as int,
    }
}

/// The hits of a query: all matching sessions ranked by (score, timestamp)
/// descending, cut to `limit`.
pub open spec fn spec_query(entries: Seq<SessionV>, terms: Seq<Seq<u8>>, limit: int) -> Seq<
    SearchResultV,
> {
    let ranked = rank_sorted(session_triples(entries, terms));
    let n = if limit < ranked.len() {
        limit
    } else {
        ranked.len() as int
    };
    Seq::new(n as nat, |j: int| result_of(entries, terms, ranked[j]))
}

/// The most recent stored sessions: every session ranked by timestamp
/// descending, cut to `limit`.
pub open spec fn spec_recent(entries: Seq<SessionV>, limit: int) -> Seq<SearchResultV> {
    let ranked = rank_sorted(ts_triples(entries));
    let n = if limit < ranked.len() {
        limit
    } else {
        ranked.len() as int
    };
    Seq::new(
        n as nat,
        |j: int|
            SearchResultV {
                session: entries[ranked[j].2 as int],
                matched_message_index: 0,
                score: 0,
            },
    )
}

/// One (constant, timestamp, position) entry per stored session, for the
/// recency ordering.
pub open spec fn ts_triples(entries: Seq<SessionV>) -> Seq<(u128, i128, usize)> {
    Seq::new(entries.len(), |i: int| (0u128, entries[i].timestamp as i128, i as usize))
}

/// The file path of the first stored session carrying `id`.
pub open spec fn find_by_id(entries: Seq<SessionV>, id: Seq<char>) -> Option<Seq<char>>
    decreases entries.len(),
{
    if entries.len() == 0 {
        None
    } else if entries[0].id == id {
        Some(entries[0].file_path)
    } else {
        find_by_id(entries.drop_first(), id)
    }
}

proof fn lemma_find_by_id_found(entries: Seq<SessionV>, id: Seq<char>, i: int)
    requires
        0 <= i < entries.len(),
        entries[i].id == id,
        forall|j: int| 0 <= j < i ==> (#[trigger] entries[j]).id != id,
    ensures
        find_by_id(entries, id) == Some(entries[i].file_path),
    decreases entries.len(),
{
    if i > 0 {
        lemma_find_by_id_found(entries.drop_first(), id, i - 1);
    }
}

proof fn lemma_find_by_id_absent(entries: Seq<SessionV>, id: Seq<char>)
    requires
        forall|j: int| 0 <= j < entries.len() ==> (#[trigger] entries[j]).id != id,
    ensures
        find_by_id(entries, id) is None,
    decreases entries.len(),
{
    if entries.len() > 0 {
        lemma_find_by_id_absent(entries.drop_first(), id);
    }
}

/// The index: a committed store, a read view that lags it until `reload`,
/// and at most one live writer at a time.
pub struct SessionIndex {
    committed: Vec<Session>,
    reader: Vec<Session>,
    writer_live: bool,
}

impl SessionIndex {
    /// The durably committed sessions, in commit order.
    pub closed spec fn committed_view(&self) -> Seq<SessionV> {
        self.committed.deep_view()
    }

    /// The sessions visible to queries: the store as of the last `reload`.
    pub closed spec fn reader_view(&self) -> Seq<SessionV> {
        self.reader.deep_view()
    }

    /// Whether a writer is live.
    pub closed spec fn writer_is_live(&self) -> bool {
        self.writer_live
    }

    /// A fresh, empty index.
    pub fn new() -> (r: SessionIndex)
        ensures
            r.committed_view() == Seq::<SessionV>::empty(),
            r.reader_view() == Seq::<SessionV>::empty(),
            !r.writer_is_live(),
    {
        let r = SessionIndex { committed: Vec::new(), reader: Vec::new(), writer_live: false };
        proof {
            assert(r.committed_view() =~= Seq::<SessionV>::empty());
            assert(r.reader_view() =~= Seq::<SessionV>::empty());
        }
        r
    }

    /// Yields the one scoped writer, or refuses while another is live.
    pub fn writer(&mut self) -> (r: Result<IndexWriter, IndexError>)
        ensures
            final(self).committed_view() == old(self).committed_view(),
            final(self).reader_view() == old(self).reader_view(),
            old(self).writer_is_live() ==> (r is Err && final(self).writer_is_live()),
            !old(self).writer_is_live() ==> (r is Ok && final(self).writer_is_live()
                && r->Ok_0.ops() == Seq::<WriteOpV>::empty()),
    {
        if self.writer_live {
            return Err(IndexError::WriterActive);
        }
        self.writer_live = true;
        let w = IndexWriter { pending: Vec::new() };
        proof {
            assert(w.ops() =~= Seq::<WriteOpV>::empty());
        }
        Ok(w)
    }

    /// Closes the writer; pending, uncommitted writes are discarded.
    pub fn close_writer(&mut self, w: IndexWriter)
        ensures
            final(self).committed_view() == old(self).committed_view(),
            final(self).reader_view() == old(self).reader_view(),
            !final(self).writer_is_live(),
    {
        self.writer_live = false;
    }

    /// Queues the session's documents for addition.
    pub fn index_session(&self, w: &mut IndexWriter, session: &Session)
        ensures
            final(w).ops() == old(w).ops().push(WriteOpV::Upsert(session@)),
    {
        let ghost w0 = old(w).ops();
        let ghost pv0 = w.pending@;
        w.pending.push(WriteOp::Upsert(session.duplicate()));
        proof {
            assert forall|x: int| 0 <= x < w.ops().len() implies w.ops()[x] == w0.push(
                WriteOpV::Upsert(session@),
            )[x] by {
                if x < w0.len() {
                    assert(w.pending@[x] == pv0[x]);
                }
            }
            assert(w.ops() =~= w0.push(WriteOpV::Upsert(session@)));
        }
    }

    /// Queues the removal of every document stored for `path`; a no-op at
    /// commit time if none is stored.
    pub fn delete_session(&self, w: &mut IndexWriter, path: &String)
        ensures
            final(w).ops() == old(w).ops().push(WriteOpV::Delete(path@)),
    {
        let ghost w0 = old(w).ops();
        let ghost pv0 = w.pending@;
        w.pending.push(WriteOp::Delete(path.clone()));
        proof {
            assert forall|x: int| 0 <= x < w.ops().len() implies w.ops()[x] == w0.push(
                WriteOpV::Delete(path@),
            )[x] by {
                if x < w0.len() {
                    assert(w.pending@[x] == pv0[x]);
                }
            }
            assert(w.ops() =~= w0.push(WriteOpV::Delete(path@)));
        }
    }

    /// Durably applies the writer's pending writes to the committed store, in
    /// order. Not visible to queries until `reload`.
    pub fn commit(&mut self, w: &mut IndexWriter)
        ensures
            final(self).committed_view() == apply_ops(old(self).committed_view(), old(w).ops()),
            final(self).reader_view() == old(self).reader_view(),
            final(self).writer_is_live() == old(self).writer_is_live(),
            final(w).ops() == Seq::<WriteOpV>::empty(),
    {
        let ghost c0 = self.committed_view();
        let ghost wv = w.ops();
        let mut k: usize = 0;
        proof {
            assert(wv.take(0) =~= Seq::<WriteOpV>::empty());
        }
        while k < w.pending.len()
            invariant
                wv == w.ops(),
                wv.len() == w.pending@.len(),
                c0 == old(self).committed_view(),
                k <= w.pending@.len(),
                self.committed_view() == apply_ops(c0, wv.take(k as int)),
                self.reader_view() == old(self).reader_view(),
                self.writer_is_live() == old(self).writer_is_live(),
            decreases w.pending@.len() - k,
        {
            proof {
                assert(wv.take(k + 1).drop_last() =~= wv.take(k as int));
                assert(wv.take(k + 1).last() == wv[k as int]);
                assert(w.pending@[k as int]@ == wv[k as int]);
            }
            match &w.pending[k] {
                WriteOp::Delete(p) => {
                    let kept = retain_other_paths(&self.committed, p);
                    self.committed = kept;
                },
                WriteOp::Upsert(s) => {
                    let ghost cv0 = self.committed.deep_view();
                    let ghost cvv0 = self.committed@;
                    let s2 = s.duplicate();
                    self.committed.push(s2);
                    proof {
                        assert forall|x: int| 0 <= x < self.committed.deep_view().len() implies self
                            .committed.deep_view()[x] == cv0.push(s@)[x] by {
                            if x < cv0.len() {
                                assert(self.committed@[x] == cvv0[x]);
                            }
                        }
                        assert(self.committed.deep_view() =~= cv0.push(s@));
                    }
                },
            }
            k = k + 1;
        }
        proof {
            assert(wv.take(wv.len() as int) =~= wv);
        }
        w.pending.truncate(0);
        proof {
            assert(w.ops() =~= Seq::<WriteOpV>::empty());
        }
    }

    /// Refreshes the read view to the latest commit.
    pub fn reload(&mut self)
        ensures
            final(self).committed_view() == old(self).committed_view(),
            final(self).reader_view() == old(self).committed_view(),
            final(self).writer_is_live() == old(self).writer_is_live(),
    {
        let mut fresh: Vec<Session> = Vec::new();
        let mut i: usize = 0;
        while i < self.committed.len()
            invariant
                self.committed_view() == old(self).committed_view(),
                self.reader_view() == old(self).reader_view(),
                self.writer_is_live() == old(self).writer_is_live(),
                i <= self.committed@.len(),
                fresh@.len() == i,
                forall|j: int| 0 <= j < i ==> #[trigger] fresh@[j]@ == self.committed@[j]@,
            decreases self.committed@.len() - i,
        {
            let s = self.committed[i].duplicate();
            fresh.push(s);
            i = i + 1;
        }
        proof {
            assert(fresh.deep_view() =~= self.committed.deep_view());
        }
        self.reader = fresh;
    }

    /// Runs a query against the read view: tokenizes the case-folded query,
    /// scores every visible session, and returns up to `limit` hits by
    /// descending (score, timestamp).
    pub fn search(&self, query: &Vec<char>, limit: usize) -> (r: Vec<SearchResult>)
        ensures
            r.deep_view() == (spec_query(
                self.reader_view(),
                tokens_of(lower_of(query@)),
                limit as int,
            )),
    {
        let ghost rv = self.reader_view();
        let folded = fold_chars(query);
        let terms = tokenize(&folded);
        let ghost tm = terms.deep_view();
        let mut triples: Vec<(u128, i128, usize)> = Vec::new();
        let mut i: usize = 0;
        proof {
            assert(rv.take(0) =~= Seq::<SessionV>::empty());
        }
        while i < self.reader.len()
            invariant
                rv == self.reader_view(),
                tm == terms.deep_view(),
                rv.len() == self.reader@.len(),
                i <= self.reader@.len(),
                triples@ == session_triples(rv.take(i as int), tm),
            decreases self.reader@.len() - i,
        {
            let scored = score_messages(&self.reader[i].messages, &terms);
            proof {
                assert(self.reader@[i as int]@ == rv[i as int]);
                assert(self.reader@[i as int].messages.deep_view() == rv[i as int].messages);
                assert(rv.take(i + 1).drop_last() =~= rv.take(i as int));
                assert(rv.take(i + 1).last() == rv[i as int]);
                lemma_rank_sorted_elements(scored@);
            }
            if scored.len() > 0 {
                let best = sort_ranked(&scored);
                let ts = self.reader[i].timestamp;
                triples.push((best[0].0, ts as i128, i));
            }
            i = i + 1;
        }
        proof {
            assert(rv.take(rv.len() as int) =~= rv);
        }
        let ranked = sort_ranked(&triples);
        proof {
            lemma_session_triples_positions(rv, tm);
            lemma_rank_sorted_elements(triples@);
            assert forall|j: int| 0 <= j < ranked@.len() implies (#[trigger] ranked@[j]).2
                < self.reader@.len() by {
                assert(triples@.contains(ranked@[j]));
                let q = choose|q: int| 0 <= q < triples@.len() && triples@[q] == ranked@[j];
                assert(triples@[q].2 < rv.len());
            }
        }
        let n = if limit < ranked.len() {
            limit
        } else {
            ranked.len()
        };
        let mut out: Vec<SearchResult> = Vec::new();
        let mut j: usize = 0;
        while j < n
            invariant
                rv == self.reader_view(),
                tm == terms.deep_view(),
                rv.len() == self.reader@.len(),
                ranked@ == rank_sorted(session_triples(rv, tm)),
                forall|q: int| 0 <= q < ranked@.len() ==> (#[trigger] ranked@[q]).2
                    < self.reader@.len(),
                n <= ranked@.len(),
                limit as int <= ranked@.len() ==> n == limit,
                limit as int > ranked@.len() ==> n as int == ranked@.len(),
                j <= n,
                out.deep_view().len() == j,
                forall|q: int| 0 <= q < j ==> #[trigger] out.deep_view()[q] == spec_query(
                    rv,
                    tm,
                    limit as int,
                )[q],
            decreases n - j,
        {
            let t = ranked[j];
            let entry = &self.reader[t.2];
            let scored = score_messages(&entry.messages, &terms);
            let best = sort_ranked(&scored);
            proof {
                assert(self.reader@[t.2 as int]@ == rv[t.2 as int]);
                assert(self.reader@[t.2 as int].messages.deep_view() == rv[t.2 as int].messages);
                assert(rv.len() == self.reader.len());
                lemma_rank_sorted_elements(session_triples(rv, tm));
                assert(session_triples(rv, tm).contains(ranked@[j as int]));
                let q = choose|q: int|
                    0 <= q < session_triples(rv, tm).len() && #[trigger] session_triples(
                        rv,
                        tm,
                    )[q] == ranked@[j as int];
                lemma_triple_entry(rv, tm, q);
                assert(scored@ == scored_msgs(rv[t.2 as int].messages, tm));
                assert(scored@.len() > 0);
                lemma_rank_sorted_elements(scored@);
                assert(best@.len() > 0);
            }
            let ghost out0 = out.deep_view();
            let ghost outv0 = out@;
            let m = SearchResult {
                session: entry.duplicate(),
                matched_message_index: best[0].2,
                score: t.0,
            };
            out.push(m);
            proof {
                assert forall|q: int| 0 <= q < j + 1 implies #[trigger] out.deep_view()[q]
                    == spec_query(rv, tm, limit as int)[q] by {
                    if q < j {
                        assert(out@[q] == outv0[q]);
                        assert(out0[q] == spec_query(rv, tm, limit as int)[q]);
                    } else {
                        assert(out@[q] == m);
                        assert(m@ == result_of(rv, tm, ranked@[q]));
                    }
                }
            }
            j = j + 1;
        }
        proof {
            assert(out.deep_view() =~= spec_query(rv, tm, limit as int));
        }
        out
    }

    /// Returns up to `limit` visible sessions by timestamp descending,
    /// ignoring any query: the empty-query default view.
    pub fn recent(&self, limit: usize) -> (r: Vec<SearchResult>)
        ensures
            r.deep_view() == spec_recent(self.reader_view(), limit as int),
    {
        let ghost rv = self.reader_view();
        let mut triples: Vec<(u128, i128, usize)> = Vec::new();
        let mut i: usize = 0;
        while i < self.reader.len()
            invariant
                rv == self.reader_view(),
                rv.len() == self.reader@.len(),
                i <= self.reader@.len(),
                triples@.len() == i,
                forall|q: int| 0 <= q < i ==> #[trigger] triples@[q] == ts_triples(rv)[q],
            decreases self.reader@.len() - i,
        {
            let ts = self.reader[i].timestamp;
            triples.push((0u128, ts as i128, i));
            proof {
                assert(self.reader@[i as int]@ == rv[i as int]);
            }
            i = i + 1;
        }
        proof {
            assert(triples@ =~= ts_triples(rv));
        }
        let ranked = sort_ranked(&triples);
        proof {
            lemma_rank_sorted_elements(triples@);
            assert forall|j: int| 0 <= j < ranked@.len() implies (#[trigger] ranked@[j]).2
                < self.reader@.len() by {
                let q = choose|q: int| 0 <= q < triples@.len() && triples@[q] == ranked@[j];
                assert(ts_triples(rv)[q].2 < rv.len());
            }
        }
        let n = if limit < ranked.len() {
            limit
        } else {
            ranked.len()
        };
        let mut out: Vec<SearchResult> = Vec::new();
        let mut j: usize = 0;
        while j < n
            invariant
                rv == self.reader_view(),
                rv.len() == self.reader@.len(),
                ranked@ == rank_sorted(ts_triples(rv)),
                forall|q: int| 0 <= q < ranked@.len() ==> (#[trigger] ranked@[q]).2
                    < self.reader@.len(),
                n <= ranked@.len(),
                limit as int <= ranked@.len() ==> n == limit,
                limit as int > ranked@.len() ==> n as int == ranked@.len(),
                j <= n,
                out.deep_view().len() == j,
                forall|q: int| 0 <= q < j ==> #[trigger] out.deep_view()[q] == spec_recent(
                    rv,
                    limit as int,
                )[q],
            decreases n - j,
        {
            let t = ranked[j];
            let entry = &self.reader[t.2];
            let ghost out0 = out.deep_view();
            let ghost outv0 = out@;
            let m = SearchResult { session: entry.duplicate(), matched_message_index: 0, score: 0 };
            out.push(m);
            proof {
                assert(self.reader@[t.2 as int]@ == rv[t.2 as int]);
                assert forall|q: int| 0 <= q < j + 1 implies #[trigger] out.deep_view()[q]
                    == spec_recent(rv, limit as int)[q] by {
                    if q < j {
                        assert(out@[q] == outv0[q]);
                        assert(out0[q] == spec_recent(rv, limit as int)[q]);
                    } else {
                        assert(out@[q] == m);
                    }
                }
            }
            j = j + 1;
        }
        proof {
            assert(out.deep_view() =~= spec_recent(rv, limit as int));
        }
        out
    }

    /// Point lookup: the file path of the first visible session carrying
    /// `id`; ids are unique in practice, so never ambiguous.
    pub fn get_by_id(&self, id: &String) -> (r: Option<String>)
        ensures
            r is Some <==> find_by_id(self.reader_view(), id@) is Some,
            r is Some ==> r->0@ == find_by_id(self.reader_view(), id@)->0,
    {
        let ghost rv = self.reader_view();
        let mut i: usize = 0;
        while i < self.reader.len()
            invariant
                rv == self.reader_view(),
                rv.len() == self.reader@.len(),
                i <= self.reader@.len(),
                forall|j: int| 0 <= j < i ==> (#[trigger] rv[j]).id != id@,
            decreases self.reader@.len() - i,
        {
            if self.reader[i].id == *id {
                proof {
                    assert(self.reader@[i as int]@ == rv[i as int]);
                    lemma_find_by_id_found(rv, id@, i as int);
                }
                return Some(self.reader[i].file_path.clone());
            }
            proof {
                assert(self.reader@[i as int]@ == rv[i as int]);
            }
            i = i + 1;
        }
        proof {
            lemma_find_by_id_absent(rv, id@);
        }
        None
    }
}


/// The stored sessions whose file path is `p`, in store order.
pub open spec fn entries_for(s: Seq<SessionV>, p: Seq<char>) -> Seq<SessionV>
    decreases s.len(),
{
    if s.len() == 0 {
        Seq::empty()
    } else {
        let pre = entries_for(s.drop_last(), p);
        if s.last().file_path == p {
            pre.push(s.last())
        } else {
            pre
        }
    }
}

/// Removing a path removes exactly its entries and nothing else.
pub proof fn lemma_entries_for_remove(s: Seq<SessionV>, p: Seq<char>, q: Seq<char>)
    ensures
        entries_for(remove_path(s, p), p) == Seq::<SessionV>::empty(),
        p != q ==> entries_for(remove_path(s, q), p) == entries_for(s, p),
    decreases s.len(),
{
    if s.len() > 0 {
        lemma_entries_for_remove(s.drop_last(), p, q);
        if s.last().file_path != p {
            assert(remove_path(s, p) == remove_path(s.drop_last(), p).push(s.last()));
            assert(remove_path(s, p).drop_last() =~= remove_path(s.drop_last(), p));
        }
        if p != q {
            if s.last().file_path != q {
                assert(remove_path(s, q).drop_last() =~= remove_path(s.drop_last(), q));
            }
        }
    }
}

/// Adding a session extends exactly its own path's entries.
pub proof fn lemma_entries_for_push(s: Seq<SessionV>, e: SessionV, p: Seq<char>)
    ensures
        e.file_path == p ==> entries_for(s.push(e), p) == entries_for(s, p).push(e),
        e.file_path != p ==> entries_for(s.push(e), p) == entries_for(s, p),
{
    assert(s.push(e).drop_last() =~= s);
}

/// The recent view returns the most recent stored sessions: exactly
/// `min(limit, n)` of them, ordered by timestamp descending, each one a
/// stored session — and every stored session not shown is no more recent
/// than the last one shown.
#[verifier::rlimit(60)]
pub proof fn lemma_recent_top_by_timestamp(entries: Seq<SessionV>, limit: int)
    requires
        0 <= limit,
        entries.len() <= usize::MAX,
        forall|q: int| 0 <= q < entries.len() ==> -0x8000000000000000 <= (#[trigger] entries[q]).timestamp <= 0x7fffffffffffffff,
    ensures
        spec_recent(entries, limit).len() == (if limit < entries.len() {
            limit
        } else {
            entries.len() as int
        }),
        forall|i: int, j: int| 0 <= i <= j < spec_recent(entries, limit).len()
            ==> (#[trigger] spec_recent(entries, limit)[i]).session.timestamp
            >= (#[trigger] spec_recent(entries, limit)[j]).session.timestamp,
        forall|j: int| 0 <= j < spec_recent(entries, limit).len() ==> exists|q: int|
            0 <= q < entries.len() && entries[q] == (#[trigger] spec_recent(
                entries,
                limit,
            )[j]).session,
        forall|q: int| #![trigger entries[q]] 0 <= q < entries.len() && 0 < limit
            < entries.len() ==> ((exists|j: int|
            0 <= j < limit && (#[trigger] spec_recent(entries, limit)[j]).session == entries[q])
            || entries[q].timestamp <= spec_recent(entries, limit)[limit - 1].session.timestamp),
{
    broadcast use vstd::seq_lib::group_to_multiset_ensures;

    let ts = ts_triples(entries);
    let ranked = rank_sorted(ts);
    lemma_rank_total();
    ts.lemma_sort_by_ensures(rank_order());
    lemma_rank_sorted_elements(ts);
    let r = spec_recent(entries, limit);
    let n = r.len();
    assert(ranked.len() == entries.len());
    assert forall|j: int| 0 <= j < ranked.len() implies 0 <= (#[trigger] ranked[j]).2
        < entries.len() && ranked[j].1 == entries[ranked[j].2 as int].timestamp by {
        assert(ts.contains(ranked[j]));
        let q = choose|q: int| 0 <= q < ts.len() && ts[q] == ranked[j];
        assert(ts[q].2 == q as usize);
        assert(ts[q].1 == entries[q].timestamp as i128);
    }
    assert forall|i: int, j: int| 0 <= i <= j < n implies (#[trigger] r[i]).session.timestamp
        >= (#[trigger] r[j]).session.timestamp by {
        let ord = rank_order();
        assert(ord(ranked[i], ranked[j]));
        assert(rank_leq(ranked[i], ranked[j]));
        assert(ranked[i].0 == 0 && ranked[j].0 == 0) by {
            assert(ts.contains(ranked[i]));
            assert(ts.contains(ranked[j]));
            let qi = choose|q: int| 0 <= q < ts.len() && ts[q] == ranked[i];
            let qj = choose|q: int| 0 <= q < ts.len() && ts[q] == ranked[j];
        }
        assert(ranked[i].1 >= ranked[j].1);
    }
    assert forall|j: int| 0 <= j < n implies exists|q: int|
        0 <= q < entries.len() && entries[q] == (#[trigger] r[j]).session by {
        let q = ranked[j].2 as int;
        assert(0 <= q < entries.len() && entries[q] == r[j].session);
    }
    if 0 < limit < entries.len() {
        assert forall|q: int| #![trigger entries[q]] 0 <= q < entries.len() implies ((exists|
            j: int,
        |
            0 <= j < limit && (#[trigger] r[j]).session == entries[q]) || entries[q].timestamp
            <= r[limit - 1].session.timestamp) by {
            let t = ts[q];
            assert(ts.to_multiset().count(t) > 0);
            assert(ranked.to_multiset().count(t) > 0);
            assert(ranked.contains(t));
            let jj = choose|jj: int| 0 <= jj < ranked.len() && ranked[jj] == t;
            if jj < limit {
                assert(r[jj].session == entries[ranked[jj].2 as int]);
                assert(ranked[jj].2 == q as usize);
                assert(r[jj].session == entries[q]);
            } else {
                let ord = rank_order();
                assert(ord(ranked[limit - 1], ranked[jj]));
                assert(rank_leq(ranked[limit - 1], ranked[jj]));
                assert(ranked[limit - 1].0 == 0 && ranked[jj].0 == 0) by {
                    assert(ts.contains(ranked[limit - 1]));
                    let ql = choose|z: int| 0 <= z < ts.len() && ts[z] == ranked[limit - 1];
                }
                assert(ranked[limit - 1].1 >= ranked[jj].1);
                assert(ranked[jj].1 == entries[q].timestamp as i128);
                assert(r[limit - 1].session.timestamp == ranked[limit - 1].1);
            }
        }
    }
}

/// A triple of [`session_triples`] describes its session: the score is the
/// best message's, the tie key the session's timestamp.
proof fn lemma_triple_entry(entries: Seq<SessionV>, terms: Seq<Seq<u8>>, q: int)
    requires
        entries.len() <= usize::MAX,
        0 <= q < session_triples(entries, terms).len(),
    ensures
        (#[trigger] session_triples(entries, terms)[q]).2 < entries.len(),
        scored_msgs(entries[session_triples(entries, terms)[q].2 as int].messages, terms).len()
            > 0,
        session_triples(entries, terms)[q].0 == rank_sorted(
            scored_msgs(entries[session_triples(entries, terms)[q].2 as int].messages, terms),
        )[0].0,
        session_triples(entries, terms)[q].1 == entries[session_triples(
            entries,
            terms,
        )[q].2 as int].timestamp as i128,
    decreases entries.len(),
{
    let s = session_triples(entries, terms);
    let pre = session_triples(entries.drop_last(), terms);
    if q < pre.len() {
        lemma_triple_entry(entries.drop_last(), terms, q);
        assert(s[q] == pre[q]);
        assert(entries.drop_last()[pre[q].2 as int] == entries[pre[q].2 as int]);
    } else {
        let i = entries.len() - 1;
        let e = entries.last();
        assert(s == pre.push(
            (rank_sorted(scored_msgs(e.messages, terms))[0].0, e.timestamp as i128, i as usize),
        ));
        assert(s[q].2 == i as usize);
        assert(s[q].2 as int == i);
        assert(entries[i] == entries.last());
    }
}

/// Rebuilds the store without the sessions of `path`: exactly
/// [`remove_path`].
fn retain_other_paths(v: &Vec<Session>, path: &String) -> (r: Vec<Session>)
    ensures
        r.deep_view() == remove_path(v.deep_view(), path@),
{
    let ghost vv = v.deep_view();
    let mut out: Vec<Session> = Vec::new();
    let mut i: usize = 0;
    proof {
        assert(vv.take(0) =~= Seq::<SessionV>::empty());
        assert(out.deep_view() =~= remove_path(vv.take(0), path@));
    }
    while i < v.len()
        invariant
            vv == v.deep_view(),
            vv.len() == v@.len(),
            i <= v@.len(),
            out.deep_view() == remove_path(vv.take(i as int), path@),
        decreases v@.len() - i,
    {
        proof {
            assert(v@[i as int]@ == vv[i as int]);
            assert(vv.take(i + 1).drop_last() =~= vv.take(i as int));
            assert(vv.take(i + 1).last() == vv[i as int]);
        }
        if !(v[i].file_path == *path) {
            let ghost out0 = out.deep_view();
            let s = v[i].duplicate();
            out.push(s);
            proof {
                assert(out.deep_view() =~= out0.push(vv[i as int]));
            }
        }
        i = i + 1;
    }
    proof {
        assert(vv.take(vv.len() as int) =~= vv);
    }
    out
}

} // verus!
