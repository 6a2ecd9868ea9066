//! The incremental indexing pipeline: computes which discovered files need
//! reindexing and drives the index and the index state to convergence,
//! committing in batches and emitting coordination messages.

use vstd::prelude::*;
use crate::engine::{
    apply_ops, entries_for, lemma_apply_ops_concat, lemma_entries_for_push,
    lemma_entries_for_remove, remove_path, IndexWriter, SessionIndex, WriteOpV,
};
use crate::session::{Session, SessionV};
use crate::state::{IndexState, Signature};

verus! {

/// Commit every this many files, to bound writer memory and surface partial
/// progress sooner.
pub const COMMIT_BATCH: usize = 200;

/// One discovered session file: its path, its current on-disk signature, and
/// its parse outcome (`None`: malformed, skipped and retried next run).
pub struct FileEntry {
    pub path: String,
    pub sig: Signature,
    pub parsed: Option<Session>,
}

/// Mathematical view of a [`FileEntry`].
#[verifier::ext_equal]
pub ghost struct FileEntryV {
    pub path: Seq<char>,
    pub sig: Signature,
    pub parsed: Option<SessionV>,
}

impl View for FileEntry {
    type V = FileEntryV;

    open spec fn view(&self) -> FileEntryV {
        FileEntryV { path: self.path@, sig: self.sig, parsed: self.parsed.deep_view() }
    }
}

impl DeepView for FileEntry {
    type V = FileEntryV;

    open spec fn deep_view(&self) -> FileEntryV {
        self.view()
    }
}

/// Messages from the indexing thread to the interactive surface.
pub enum IndexMsg {
    /// Advisory status: `indexed` of `total` delta files are done.
    Progress { indexed: usize, total: usize },
    /// Indexing finished; `total_sessions` counts all discovered files, a
    /// completeness signal, not a work-done count.
    Done { total_sessions: usize },
    /// An intermediate batch was committed; reload the read view.
    NeedsReload,
    /// Indexing failed; terminal.
    Error(String),
}

/// Mathematical view of an [`IndexMsg`].
#[verifier::ext_equal]
pub ghost enum IndexMsgV {
    Progress { indexed: usize, total: usize },
    Done { total_sessions: usize },
    NeedsReload,
    Error(Seq<char>),
}

impl View for IndexMsg {
    type V = IndexMsgV;

    open spec fn view(&self) -> IndexMsgV {
        match self {
            IndexMsg::Progress { indexed, total } => IndexMsgV::Progress {
                indexed: *indexed,
                total: *total,
            },
            IndexMsg::Done { total_sessions } => IndexMsgV::Done { total_sessions: *total_sessions },
            IndexMsg::NeedsReload => IndexMsgV::NeedsReload,
            IndexMsg::Error(e) => IndexMsgV::Error(e@),
        }
    }
}

impl DeepView for IndexMsg {
    type V = IndexMsgV;

    open spec fn deep_view(&self) -> IndexMsgV {
        self.view()
    }
}

/// No two discovered files share a path.
pub open spec fn distinct_paths(fs: Seq<FileEntryV>) -> bool {
    forall|i: int, j: int| 0 <= i < j < fs.len() ==> (#[trigger] fs[i]).path != (#[trigger] fs[j]).path
}

/// Parse outcomes belong to their file: a parsed session carries the path it
/// was read from.
pub open spec fn parses_match(fs: Seq<FileEntryV>) -> bool {
    forall|i: int| 0 <= i < fs.len() ==> ((#[trigger] fs[i]).parsed matches Some(s) ==> s.file_path
        == fs[i].path)
}

/// Whether a file must be reindexed against a given state: absent, or its
/// signature changed.
pub open spec fn needs(st: IndexState, f: FileEntryV) -> bool {
    st.sig_of(f.path) != Some(f.sig)
}

/// The positions of the files that need reindexing, in order.
pub open spec fn delta_idxs(st: IndexState, fs: Seq<FileEntryV>) -> Seq<int>
    decreases fs.len(),
{
    if fs.len() == 0 {
        Seq::empty()
    } else {
        let pre = delta_idxs(st, fs.drop_last());
        if needs(st, fs.last()) {
            pre.push(fs.len() - 1)
        } else {
            pre
        }
    }
}

/// Delta positions point into the file list.
pub proof fn lemma_delta_idxs_bounds(st: IndexState, fs: Seq<FileEntryV>)
    ensures
        delta_idxs(st, fs).len() <= fs.len(),
        forall|k: int| 0 <= k < delta_idxs(st, fs).len() ==> 0 <= #[trigger] delta_idxs(
            st,
            fs,
        )[k] < fs.len(),
    decreases fs.len(),
{
    if fs.len() > 0 {
        lemma_delta_idxs_bounds(st, fs.drop_last());
        let pre = delta_idxs(st, fs.drop_last());
        let s = delta_idxs(st, fs);
        assert forall|k: int| 0 <= k < s.len() implies 0 <= #[trigger] s[k] < fs.len() by {
            if k < pre.len() {
                assert(s[k] == pre[k]);
            }
        }
    }
}

/// The writes one delta file contributes: remove its old documents, then add
/// the parsed session's documents if it parsed and is non-empty.
pub open spec fn ops_of_file(f: FileEntryV) -> Seq<WriteOpV> {
    match f.parsed {
        Some(s) => {
            if s.messages.len() > 0 {
                seq![WriteOpV::Delete(f.path), WriteOpV::Upsert(s)]
            } else {
                seq![WriteOpV::Delete(f.path)]
            }
        },
        None => seq![WriteOpV::Delete(f.path)],
    }
}

/// All writes of a pipeline run, in processing order, over the delta
/// positions `idxs`.
pub open spec fn ops_for(fs: Seq<FileEntryV>, idxs: Seq<int>) -> Seq<WriteOpV>
    decreases idxs.len(),
{
    if idxs.len() == 0 {
        Seq::empty()
    } else {
        ops_for(fs, idxs.drop_last()) + ops_of_file(fs[idxs.last()])
    }
}

/// The messages of a run that processed `i` of `d` delta files: a progress
/// report per file, a reload hint after every full commit batch.
pub open spec fn msgs_for(i: int, d: int) -> Seq<IndexMsg>
    decreases i,
{
    if i <= 0 {
        Seq::empty()
    } else {
        let pre = msgs_for(i - 1, d).push(
            IndexMsg::Progress { indexed: i as usize, total: d as usize },
        );
        if i % (COMMIT_BATCH as int) == 0 {
            pre.push(IndexMsg::NeedsReload)
        } else {
            pre
        }
    }
}

/// The full message stream of a run: per-file progress, batch reload hints,
/// and the final completeness signal.
pub open spec fn pipeline_msgs(d: int, total: int) -> Seq<IndexMsg> {
    msgs_for(d, d).push(IndexMsg::Done { total_sessions: total as usize })
}

/// The signature the state records for path `p` after processing the delta
/// positions `idxs`: the file's current signature where its parse succeeded,
/// the old record otherwise.
pub open spec fn sig_after(
    st0: IndexState,
    fs: Seq<FileEntryV>,
    idxs: Seq<int>,
    p: Seq<char>,
) -> Option<Signature>
    decreases idxs.len(),
{
    if idxs.len() == 0 {
        st0.sig_of(p)
    } else {
        let f = fs[idxs.last()];
        if f.path == p && f.parsed is Some {
            Some(f.sig)
        } else {
            sig_after(st0, fs, idxs.drop_last(), p)
        }
    }
}

/// Runs the pipeline over the discovered files: reindexes exactly the files
/// whose signature is absent or stale, in batches, and reports progress.
/// Per-file parse failures are skipped and left unmarked for retry; they
/// never abort the run.
pub fn run_pipeline(index: &mut SessionIndex, state: &mut IndexState, files: &Vec<FileEntry>) -> (msgs: Vec<IndexMsg>)
    requires
        !old(index).writer_is_live(),
        old(state).wf(),
        distinct_paths(files.deep_view()),
    ensures
        final(state).wf(),
        !final(index).writer_is_live(),
        final(index).reader_view() == old(index).reader_view(),
        final(index).committed_view() == (apply_ops(
            old(index).committed_view(),
            ops_for(files.deep_view(), delta_idxs(*old(state), files.deep_view())),
        )),
        forall|p: Seq<char>| #[trigger] final(state).sig_of(p) == (sig_after(
            *old(state),
            files.deep_view(),
            delta_idxs(*old(state), files.deep_view()),
            p,
        )),
        msgs@ == (pipeline_msgs(
            delta_idxs(*old(state), files.deep_view()).len() as int,
            files@.len() as int,
        )),
{
    let ghost st0 = *old(state);
    let ghost fv = files.deep_view();
    let ghost c0 = index.committed_view();
    let mut didx: Vec<usize> = Vec::new();
    let mut k: usize = 0;
    proof {
        assert(fv.take(0) =~= Seq::<FileEntryV>::empty());
    }
    while k < files.len()
        invariant
            fv == files.deep_view(),
            fv.len() == files@.len(),
            st0 == *state,
            st0 == *old(state),
            st0.wf(),
            k <= files@.len(),
            didx@.len() == delta_idxs(st0, fv.take(k as int)).len(),
            forall|q: int| 0 <= q < didx@.len() ==> #[trigger] didx@[q] as int == delta_idxs(
                st0,
                fv.take(k as int),
            )[q],
            forall|q: int| 0 <= q < didx@.len() ==> #[trigger] didx@[q] < k,
            index == old(index),
        decreases files@.len() - k,
    {
        proof {
            assert(files@[k as int]@ == fv[k as int]);
            assert(fv.take(k + 1).drop_last() =~= fv.take(k as int));
            assert(fv.take(k + 1).last() == fv[k as int]);
        }
        if state.needs_reindex(&files[k].path, files[k].sig) {
            didx.push(k);
        }
        k = k + 1;
    }
    proof {
        assert(fv.take(fv.len() as int) =~= fv);
    }
    let ghost dd = delta_idxs(st0, fv);
    proof {
        lemma_delta_idxs_bounds(st0, fv);
    }
    let dlen = didx.len();
    let total = files.len();
    let mut msgs: Vec<IndexMsg> = Vec::new();
    if dlen == 0 {
        msgs.push(IndexMsg::Done { total_sessions: total });
        proof {
            assert(ops_for(fv, dd).len() == 0);
            assert(apply_ops(c0, ops_for(fv, dd)) == c0);
            assert forall|p: Seq<char>| #[trigger] state.sig_of(p) == sig_after(
                st0,
                fv,
                dd,
                p,
            ) by {}
            assert(msgs@ =~= pipeline_msgs(dd.len() as int, files@.len() as int));
        }
        return msgs;
    }
    let w = index.writer();
    let mut w = match w {
        Ok(w) => w,
        Err(_) => {
            // unreachable: no writer is live on entry
            proof {
                assert(false);
            }
            msgs.push(IndexMsg::Error(String::new()));
            return msgs;
        },
    };
    let mut i: usize = 0;
    proof {
        assert(dd.take(0) =~= Seq::<int>::empty());
        assert(msgs_for(0, dlen as int) =~= Seq::<IndexMsg>::empty());
        assert(msgs@ =~= Seq::<IndexMsg>::empty());
    }
    while i < dlen
        invariant
            fv == files.deep_view(),
            fv.len() == files@.len(),
            st0.wf(),
            state.wf(),
            dd == delta_idxs(st0, fv),
            dlen == didx@.len(),
            dlen == dd.len(),
            dlen <= files@.len(),
            forall|q: int| 0 <= q < didx@.len() ==> #[trigger] didx@[q] as int == dd[q],
            forall|q: int| 0 <= q < didx@.len() ==> #[trigger] didx@[q] < files@.len(),
            i <= dlen,
            index.writer_is_live(),
            index.reader_view() == old(index).reader_view(),
            apply_ops(index.committed_view(), w.ops()) == (apply_ops(
                c0,
                ops_for(fv, dd.take(i as int)),
            )),
            forall|p: Seq<char>| #[trigger] state.sig_of(p) == (sig_after(
                st0,
                fv,
                dd.take(i as int),
                p,
            )),
            msgs@ == msgs_for(i as int, dlen as int),
        decreases dlen - i,
    {
        let d = didx[i];
        proof {
            assert(files@[d as int]@ == fv[d as int]);
            assert(dd.take(i + 1).drop_last() =~= dd.take(i as int));
            assert(dd.take(i + 1).last() == dd[i as int]);
        }
        let ghost ops_before = w.ops();
        index.delete_session(&mut w, &files[d].path);
        match &files[d].parsed {
            Some(sess) => {
                if sess.messages.len() > 0 {
                    index.index_session(&mut w, sess);
                    proof {
                        assert(w.ops() =~= ops_before + ops_of_file(fv[d as int]));
                    }
                } else {
                    proof {
                        assert(w.ops() =~= ops_before + ops_of_file(fv[d as int]));
                    }
                }
                state.mark_indexed(&files[d].path, files[d].sig);
            },
            None => {
                proof {
                    assert(w.ops() =~= ops_before + ops_of_file(fv[d as int]));
                }
            },
        }
        proof {
            crate::engine::lemma_apply_ops_concat(index.committed_view(), ops_before, ops_of_file(fv[d as int]));
            crate::engine::lemma_apply_ops_concat(c0, ops_for(fv, dd.take(i as int)), ops_of_file(fv[d as int]));
            lemma_apply_ops_split(index.committed_view(), ops_before, ops_of_file(fv[d as int]));
            assert(ops_for(fv, dd.take(i + 1)) =~= ops_for(fv, dd.take(i as int)) + ops_of_file(
                fv[d as int],
            ));
        }
        msgs.push(IndexMsg::Progress { indexed: i + 1, total: dlen });
        if (i + 1) % COMMIT_BATCH == 0 {
            index.commit(&mut w);
            msgs.push(IndexMsg::NeedsReload);
        }
        i = i + 1;
    }
    proof {
        assert(dd.take(dd.len() as int) =~= dd);
    }
    index.commit(&mut w);
    index.close_writer(w);
    msgs.push(IndexMsg::Done { total_sessions: total });
    proof {
        assert(msgs@ =~= pipeline_msgs(dd.len() as int, files@.len() as int));
    }
    msgs
}

/// Brings the index fully up to date for an inline query: runs the pipeline
/// over the discovered files and refreshes the read view, so queries see the
/// new state immediately.
pub fn sync_index(index: &mut SessionIndex, state: &mut IndexState, files: &Vec<FileEntry>) -> (msgs: Vec<IndexMsg>)
    requires
        !old(index).writer_is_live(),
        old(state).wf(),
        distinct_paths(files.deep_view()),
    ensures
        final(state).wf(),
        !final(index).writer_is_live(),
        final(index).committed_view() == (apply_ops(
            old(index).committed_view(),
            ops_for(files.deep_view(), delta_idxs(*old(state), files.deep_view())),
        )),
        final(index).reader_view() == final(index).committed_view(),
        forall|p: Seq<char>| #[trigger] final(state).sig_of(p) == (sig_after(
            *old(state),
            files.deep_view(),
            delta_idxs(*old(state), files.deep_view()),
            p,
        )),
        msgs@ == (pipeline_msgs(
            delta_idxs(*old(state), files.deep_view()).len() as int,
            files@.len() as int,
        )),
{
    let msgs = run_pipeline(index, state, files);
    index.reload();
    msgs
}


/// Delta positions are strictly increasing, hence pairwise distinct.
pub proof fn lemma_delta_idxs_increasing(st: IndexState, fs: Seq<FileEntryV>)
    ensures
        forall|a: int, b: int| 0 <= a < b < delta_idxs(st, fs).len() ==> #[trigger] delta_idxs(
            st,
            fs,
        )[a] < #[trigger] delta_idxs(st, fs)[b],
    decreases fs.len(),
{
    if fs.len() > 0 {
        lemma_delta_idxs_increasing(st, fs.drop_last());
        lemma_delta_idxs_bounds(st, fs.drop_last());
        let pre = delta_idxs(st, fs.drop_last());
        let s = delta_idxs(st, fs);
        assert forall|a: int, b: int| 0 <= a < b < s.len() implies #[trigger] s[a] < #[trigger] s[b] by {
            if b < pre.len() {
                assert(s[a] == pre[a] && s[b] == pre[b]);
            } else {
                assert(s[a] == pre[a]);
                assert(pre[a] < fs.drop_last().len());
            }
        }
    }
}

/// A file that needs reindexing stands in the delta.
proof fn lemma_delta_mem(st: IndexState, fs: Seq<FileEntryV>, k: int)
    requires
        0 <= k < fs.len(),
        needs(st, fs[k]),
    ensures
        exists|a: int| 0 <= a < delta_idxs(st, fs).len() && #[trigger] delta_idxs(st, fs)[a] == k,
    decreases fs.len(),
{
    let pre = delta_idxs(st, fs.drop_last());
    let s = delta_idxs(st, fs);
    if k == fs.len() - 1 {
        assert(s[s.len() - 1] == k);
    } else {
        assert(fs.drop_last()[k] == fs[k]);
        lemma_delta_mem(st, fs.drop_last(), k);
        let a = choose|a: int| 0 <= a < pre.len() && #[trigger] pre[a] == k;
        assert(s[a] == k);
    }
}

/// When no file needs reindexing, the delta is empty.
proof fn lemma_delta_empty(st: IndexState, fs: Seq<FileEntryV>)
    requires
        forall|k: int| 0 <= k < fs.len() ==> !needs(st, #[trigger] fs[k]),
    ensures
        delta_idxs(st, fs) == Seq::<int>::empty(),
    decreases fs.len(),
{
    if fs.len() > 0 {
        assert(forall|k: int| 0 <= k < fs.drop_last().len() ==> fs.drop_last()[k] == fs[k]);
        lemma_delta_empty(st, fs.drop_last());
    }
}

/// Paths untouched by a run keep their recorded signature.
proof fn lemma_sig_after_untouched(
    st0: IndexState,
    fs: Seq<FileEntryV>,
    idxs: Seq<int>,
    p: Seq<char>,
)
    requires
        forall|a: int| 0 <= a < idxs.len() ==> 0 <= #[trigger] idxs[a] < fs.len() && fs[idxs[a]].path
            != p,
    ensures
        sig_after(st0, fs, idxs, p) == st0.sig_of(p),
    decreases idxs.len(),
{
    if idxs.len() > 0 {
        lemma_sig_after_untouched(st0, fs, idxs.drop_last(), p);
    }
}

/// Two file lists that agree on the referenced positions yield the same
/// recorded signatures.
proof fn lemma_sig_after_same(
    st0: IndexState,
    fs1: Seq<FileEntryV>,
    fs2: Seq<FileEntryV>,
    idxs: Seq<int>,
    p: Seq<char>,
)
    requires
        forall|a: int| 0 <= a < idxs.len() ==> 0 <= #[trigger] idxs[a] < fs1.len() && idxs[a]
            < fs2.len() && fs1[idxs[a]] == fs2[idxs[a]],
    ensures
        sig_after(st0, fs1, idxs, p) == sig_after(st0, fs2, idxs, p),
    decreases idxs.len(),
{
    if idxs.len() > 0 {
        lemma_sig_after_same(st0, fs1, fs2, idxs.drop_last(), p);
    }
}

/// What a run records for each file: its current signature where the file
/// was stale and parsed, its old record otherwise.
pub proof fn lemma_state_after_run(st0: IndexState, fs: Seq<FileEntryV>, k: int)
    requires
        distinct_paths(fs),
        0 <= k < fs.len(),
    ensures
        sig_after(st0, fs, delta_idxs(st0, fs), fs[k].path) == (if needs(st0, fs[k]) && fs[k].parsed
            is Some {
            Some(fs[k].sig)
        } else {
            st0.sig_of(fs[k].path)
        }),
    decreases fs.len(),
{
    let pre = delta_idxs(st0, fs.drop_last());
    let dd = delta_idxs(st0, fs);
    let p = fs[k].path;
    lemma_delta_idxs_bounds(st0, fs.drop_last());
    if k == fs.len() - 1 {
        assert forall|a: int| 0 <= a < pre.len() implies 0 <= #[trigger] pre[a] < fs.len()
            && fs[pre[a]].path != p by {
            assert(pre[a] < fs.drop_last().len());
            assert(fs[pre[a]].path != fs[k].path);
        }
        if needs(st0, fs[k]) {
            assert(dd == pre.push(fs.len() - 1));
            assert(dd.drop_last() =~= pre);
            if fs[k].parsed is Some {
            } else {
                lemma_sig_after_untouched(st0, fs, pre, p);
            }
        } else {
            assert(dd == pre);
            lemma_sig_after_untouched(st0, fs, pre, p);
        }
    } else {
        assert(distinct_paths(fs.drop_last())) by {
            assert(forall|a: int| 0 <= a < fs.drop_last().len() ==> fs.drop_last()[a] == fs[a]);
        }
        assert(fs.drop_last()[k] == fs[k]);
        lemma_state_after_run(st0, fs.drop_last(), k);
        assert forall|a: int| 0 <= a < pre.len() implies 0 <= #[trigger] pre[a] < fs.len() && pre[a]
            < fs.drop_last().len() && fs[pre[a]] == fs.drop_last()[pre[a]] by {
            assert(pre[a] < fs.drop_last().len());
        }
        lemma_sig_after_same(st0, fs, fs.drop_last(), pre, p);
        if needs(st0, fs.last()) {
            assert(dd == pre.push(fs.len() - 1));
            assert(dd.drop_last() =~= pre);
            assert(fs[fs.len() - 1].path != p);
        } else {
            assert(dd == pre);
        }
    }
}

/// Idempotence: after a run whose parses all succeeded, a second run over
/// the same, unchanged files finds an empty delta — it reindexes nothing.
pub proof fn lemma_pipeline_idempotent(st0: IndexState, st1: IndexState, fs: Seq<FileEntryV>)
    requires
        distinct_paths(fs),
        forall|k: int| 0 <= k < fs.len() ==> (#[trigger] fs[k]).parsed is Some,
        forall|p: Seq<char>| #[trigger] st1.sig_of(p) == sig_after(
            st0,
            fs,
            delta_idxs(st0, fs),
            p,
        ),
    ensures
        delta_idxs(st1, fs) == Seq::<int>::empty(),
{
    assert forall|k: int| 0 <= k < fs.len() implies !needs(st1, #[trigger] fs[k]) by {
        lemma_state_after_run(st0, fs, k);
        assert(st1.sig_of(fs[k].path) == sig_after(st0, fs, delta_idxs(st0, fs), fs[k].path));
    }
    lemma_delta_empty(st1, fs);
}

/// The documents one reindexed file leaves behind: its parsed session alone
/// when it parsed with messages, nothing otherwise.
pub open spec fn docs_after_file(f: FileEntryV) -> Seq<SessionV> {
    match f.parsed {
        Some(s) => if s.messages.len() > 0 {
            seq![s]
        } else {
            Seq::empty()
        },
        None => Seq::empty(),
    }
}

/// Paths no delta file carries are untouched by the run's writes.
proof fn lemma_ops_untouched(c: Seq<SessionV>, fs: Seq<FileEntryV>, idxs: Seq<int>, p: Seq<char>)
    requires
        parses_match(fs),
        forall|a: int| 0 <= a < idxs.len() ==> 0 <= #[trigger] idxs[a] < fs.len() && fs[idxs[a]].path
            != p,
    ensures
        entries_for(apply_ops(c, ops_for(fs, idxs)), p) == entries_for(c, p),
    decreases idxs.len(),
{
    if idxs.len() > 0 {
        lemma_ops_untouched(c, fs, idxs.drop_last(), p);
        let mid = apply_ops(c, ops_for(fs, idxs.drop_last()));
        let f = fs[idxs.last()];
        lemma_apply_ops_concat(c, ops_for(fs, idxs.drop_last()), ops_of_file(f));
        lemma_apply_ops_of_file(mid, f, p);
    }
}

/// One file's writes, applied: its old documents go, its parsed session
/// comes (when non-empty), and every other path is untouched.
proof fn lemma_apply_ops_of_file(mid: Seq<SessionV>, f: FileEntryV, p: Seq<char>)
    requires
        f.parsed matches Some(s) ==> s.file_path == f.path,
    ensures
        f.path == p ==> entries_for(apply_ops(mid, ops_of_file(f)), p) == docs_after_file(f),
        f.path != p ==> entries_for(apply_ops(mid, ops_of_file(f)), p) == entries_for(mid, p),
{
    let ops = ops_of_file(f);
    match f.parsed {
        Some(s) => {
            if s.messages.len() > 0 {
                assert(ops == seq![WriteOpV::Delete(f.path), WriteOpV::Upsert(s)]);
                let d1 = ops.drop_last();
                assert(d1.drop_last() =~= Seq::<WriteOpV>::empty());
                assert(d1.last() == WriteOpV::Delete(f.path));
                assert(ops.last() == WriteOpV::Upsert(s));
                let afterdel = remove_path(mid, f.path);
                assert(apply_ops(mid, d1.drop_last()) == mid);
                assert(apply_ops(mid, d1) == afterdel);
                assert(apply_ops(mid, ops) == afterdel.push(s));
                lemma_entries_for_remove(mid, p, f.path);
                lemma_entries_for_push(afterdel, s, p);
                if f.path == p {
                    assert(entries_for(afterdel, p) == Seq::<SessionV>::empty());
                    assert(entries_for(afterdel.push(s), p) =~= seq![s]);
                }
            } else {
                assert(ops == seq![WriteOpV::Delete(f.path)]);
                assert(ops.drop_last() =~= Seq::<WriteOpV>::empty());
                assert(ops.last() == WriteOpV::Delete(f.path));
                assert(apply_ops(mid, ops.drop_last()) == mid);
                assert(apply_ops(mid, ops) == remove_path(mid, f.path));
                lemma_entries_for_remove(mid, p, f.path);
            }
        },
        None => {
            assert(ops == seq![WriteOpV::Delete(f.path)]);
            assert(ops.drop_last() =~= Seq::<WriteOpV>::empty());
            assert(ops.last() == WriteOpV::Delete(f.path));
            assert(apply_ops(mid, ops.drop_last()) == mid);
            assert(apply_ops(mid, ops) == remove_path(mid, f.path));
            lemma_entries_for_remove(mid, p, f.path);
        },
    }
}

/// After a run, a reindexed file's documents are exactly its parsed
/// session's, whatever store the run began from.
proof fn lemma_run_entries(c: Seq<SessionV>, fs: Seq<FileEntryV>, idxs: Seq<int>, a: int)
    requires
        distinct_paths(fs),
        parses_match(fs),
        forall|x: int| 0 <= x < idxs.len() ==> 0 <= #[trigger] idxs[x] < fs.len(),
        forall|x: int, y: int| 0 <= x < y < idxs.len() ==> #[trigger] idxs[x] < #[trigger] idxs[y],
        0 <= a < idxs.len(),
    ensures
        entries_for(apply_ops(c, ops_for(fs, idxs)), fs[idxs[a]].path) == docs_after_file(
            fs[idxs[a]],
        ),
    decreases idxs.len(),
{
    let mid = apply_ops(c, ops_for(fs, idxs.drop_last()));
    let f = fs[idxs.last()];
    let p = fs[idxs[a]].path;
    lemma_apply_ops_concat(c, ops_for(fs, idxs.drop_last()), ops_of_file(f));
    lemma_apply_ops_of_file(mid, f, p);
    if a == idxs.len() - 1 {
    } else {
        assert(idxs[a] < idxs.last());
        assert(f.path != p);
        lemma_run_entries(c, fs, idxs.drop_last(), a);
    }
}

/// No-duplication: after a run, a stale file's documents in the store are
/// exactly its freshly parsed session (or none, when it is empty or
/// malformed) — reindexing a modified file never leaves more documents than
/// its current message count.
pub proof fn lemma_no_duplication(c: Seq<SessionV>, st: IndexState, fs: Seq<FileEntryV>, k: int)
    requires
        distinct_paths(fs),
        parses_match(fs),
        0 <= k < fs.len(),
        needs(st, fs[k]),
    ensures
        entries_for(apply_ops(c, ops_for(fs, delta_idxs(st, fs))), fs[k].path) == docs_after_file(
            fs[k],
        ),
        entries_for(apply_ops(c, ops_for(fs, delta_idxs(st, fs))), fs[k].path).len() <= (
        match fs[k].parsed {
            Some(s) => s.messages.len() as int,
            None => 0int,
        }),
{
    lemma_delta_idxs_bounds(st, fs);
    lemma_delta_idxs_increasing(st, fs);
    lemma_delta_mem(st, fs, k);
    let a = choose|a: int| 0 <= a < delta_idxs(st, fs).len() && #[trigger] delta_idxs(st, fs)[a]
        == k;
    lemma_run_entries(c, fs, delta_idxs(st, fs), a);
}

/// Crash-safety: when the state save is skipped after a run, the next run
/// replays the same delta over the already-updated store, and every path
/// ends with exactly the documents it had after the first run.
pub proof fn lemma_crash_convergence(c: Seq<SessionV>, st: IndexState, fs: Seq<FileEntryV>)
    requires
        distinct_paths(fs),
        parses_match(fs),
    ensures
        forall|p: Seq<char>| #[trigger] entries_for(
            apply_ops(
                apply_ops(c, ops_for(fs, delta_idxs(st, fs))),
                ops_for(fs, delta_idxs(st, fs)),
            ),
            p,
        ) == entries_for(apply_ops(c, ops_for(fs, delta_idxs(st, fs))), p),
{
    let dd = delta_idxs(st, fs);
    let once = apply_ops(c, ops_for(fs, dd));
    let twice = apply_ops(once, ops_for(fs, dd));
    lemma_delta_idxs_bounds(st, fs);
    lemma_delta_idxs_increasing(st, fs);
    assert forall|p: Seq<char>| #[trigger] entries_for(twice, p) == entries_for(once, p) by {
        if exists|a: int| 0 <= a < dd.len() && fs[#[trigger] dd[a]].path == p {
            let a = choose|a: int| 0 <= a < dd.len() && fs[#[trigger] dd[a]].path == p;
            lemma_run_entries(c, fs, dd, a);
            lemma_run_entries(once, fs, dd, a);
        } else {
            assert forall|x: int| 0 <= x < dd.len() implies 0 <= #[trigger] dd[x] < fs.len()
                && fs[dd[x]].path != p by {}
            lemma_ops_untouched(once, fs, dd, p);
        }
    }
}

/// Applying a batch after pending ops equals extending the pending ops.
proof fn lemma_apply_ops_split(s: Seq<SessionV>, a: Seq<WriteOpV>, b: Seq<WriteOpV>)
    ensures
        apply_ops(s, a + b) == apply_ops(apply_ops(s, a), b),
{
    crate::engine::lemma_apply_ops_concat(s, a, b);
}

} // verus!
