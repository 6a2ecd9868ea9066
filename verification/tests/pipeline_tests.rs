//! Pipeline scenarios: incremental delta, idempotence, no-duplication,
//! crash-safe convergence, coordinator messages, and the time filters.

use recall::engine::SessionIndex;
use recall::pipeline::{run_pipeline, sync_index, FileEntry, IndexMsg};
use recall::session::{Message, Role, Session, SessionSource};
use recall::state::{IndexState, Signature};
use recall::timeparse::{parse_time, TimeParseError};

fn msg(text: &str) -> Message {
    Message { role: Role::Assistant, content: text.chars().collect() }
}

fn entry(path: &str, mtime: i64, texts: &[&str]) -> FileEntry {
    FileEntry {
        path: path.to_string(),
        sig: Signature { mtime, size: texts.len() as u64 },
        parsed: Some(Session {
            id: format!("id-{}", path),
            source: SessionSource::Codex,
            cwd: "/w".to_string(),
            timestamp: mtime,
            file_path: path.to_string(),
            messages: texts.iter().map(|t| msg(t)).collect(),
        }),
    }
}

fn progress_count(msgs: &[IndexMsg]) -> usize {
    msgs.iter().filter(|m| matches!(m, IndexMsg::Progress { .. })).count()
}

#[test]
fn pipeline_indexes_the_delta_and_reports_done() {
    let mut index = SessionIndex::new();
    let mut state = IndexState::new();
    let files = vec![entry("/a", 1, &["one"]), entry("/b", 2, &["two"])];
    let msgs = run_pipeline(&mut index, &mut state, &files);
    assert_eq!(progress_count(&msgs), 2);
    assert!(matches!(msgs.last(), Some(IndexMsg::Done { total_sessions: 2 })));
    index.reload();
    assert_eq!(index.recent(10).len(), 2);
}

#[test]
fn second_run_with_no_change_indexes_zero() {
    let mut index = SessionIndex::new();
    let mut state = IndexState::new();
    let files = vec![entry("/a", 1, &["one"]), entry("/b", 2, &["two"])];
    let _ = run_pipeline(&mut index, &mut state, &files);
    let msgs = run_pipeline(&mut index, &mut state, &files);
    assert_eq!(progress_count(&msgs), 0);
    assert_eq!(msgs.len(), 1);
    assert!(matches!(msgs[0], IndexMsg::Done { total_sessions: 2 }));
}

#[test]
fn reindexing_a_modified_file_leaves_no_duplicates() {
    let mut index = SessionIndex::new();
    let mut state = IndexState::new();
    let _ = sync_index(&mut index, &mut state, &vec![entry("/a", 1, &["old text"])]);
    assert_eq!(index.recent(10).len(), 1);
    // the file changes on disk: new signature, new content
    let _ = sync_index(&mut index, &mut state, &vec![entry("/a", 9, &["new text"])]);
    let hits = index.recent(10);
    assert_eq!(hits.len(), 1);
    assert_eq!(hits[0].session.messages.len(), 1);
    let q: Vec<char> = "new".chars().collect();
    assert_eq!(index.search(&q, 10).len(), 1);
    let old_q: Vec<char> = "old".chars().collect();
    assert_eq!(index.search(&old_q, 10).len(), 0);
}

#[test]
fn skipping_the_state_save_converges_on_the_next_run() {
    let files = vec![entry("/a", 1, &["alpha"]), entry("/b", 2, &["beta"])];
    // first run; the state is "lost" (never saved), so the next run starts
    // from an empty state over the already-updated store
    let mut index = SessionIndex::new();
    let mut state = IndexState::new();
    let _ = sync_index(&mut index, &mut state, &files);
    let mut forgotten = IndexState::new();
    let _ = sync_index(&mut index, &mut forgotten, &files);
    let hits = index.recent(10);
    assert_eq!(hits.len(), 2);
    let q: Vec<char> = "alpha".chars().collect();
    assert_eq!(index.search(&q, 10).len(), 1);
}

#[test]
fn parse_failures_are_skipped_and_retried() {
    let mut index = SessionIndex::new();
    let mut state = IndexState::new();
    let broken = FileEntry {
        path: "/bad".to_string(),
        sig: Signature { mtime: 1, size: 3 },
        parsed: None,
    };
    let msgs = run_pipeline(&mut index, &mut state, &vec![broken]);
    assert_eq!(progress_count(&msgs), 1);
    index.reload();
    assert_eq!(index.recent(10).len(), 0);
    // unchanged on disk, still unparsed: it stays in the delta next run
    let broken_again = FileEntry {
        path: "/bad".to_string(),
        sig: Signature { mtime: 1, size: 3 },
        parsed: None,
    };
    let msgs2 = run_pipeline(&mut index, &mut state, &vec![broken_again]);
    assert_eq!(progress_count(&msgs2), 1);
}

#[test]
fn empty_sessions_are_marked_but_not_indexed() {
    let mut index = SessionIndex::new();
    let mut state = IndexState::new();
    let empty = entry("/empty", 1, &[]);
    let _ = sync_index(&mut index, &mut state, &vec![empty]);
    assert_eq!(index.recent(10).len(), 0);
    // marked as indexed: the second run has nothing to do
    let empty_again = entry("/empty", 1, &[]);
    let msgs = run_pipeline(&mut index, &mut state, &vec![empty_again]);
    assert_eq!(progress_count(&msgs), 0);
}

#[test]
fn index_state_round_trips_through_entries() {
    let mut state = IndexState::new();
    let p = "/a".to_string();
    let sig = Signature { mtime: 7, size: 9 };
    assert!(state.needs_reindex(&p, sig));
    state.mark_indexed(&p, sig);
    assert!(!state.needs_reindex(&p, sig));
    assert!(state.needs_reindex(&p, Signature { mtime: 8, size: 9 }));
    let restored = IndexState::from_entries(&state.to_entries());
    assert!(!restored.needs_reindex(&p, sig));
    assert!(restored.needs_reindex(&"/other".to_string(), sig));
}

#[test]
fn parse_time_accepts_the_documented_forms() {
    let now: i64 = 1_700_000_000;
    let chars = |s: &str| -> Vec<char> { s.chars().collect() };
    assert_eq!(parse_time(&chars("yesterday"), now), Ok(now - 86400));
    assert_eq!(parse_time(&chars("today"), now), Ok(now));
    assert_eq!(parse_time(&chars("2 days ago"), now), Ok(now - 2 * 86400));
    assert_eq!(parse_time(&chars(" 3 Weeks ago "), now), Ok(now - 3 * 604800));
    assert_eq!(parse_time(&chars("10 minutes ago"), now), Ok(now - 600));
    assert_eq!(parse_time(&chars("1 month ago"), now), Ok(now - 2592000));
    assert_eq!(parse_time(&chars("2025-01-02T03:04:05Z"), now), Ok(1735787045));
    assert_eq!(parse_time(&chars("2025-01-02"), now), Ok(1735776000));
}

#[test]
fn parse_time_rejects_bad_input() {
    let now: i64 = 1_700_000_000;
    let chars = |s: &str| -> Vec<char> { s.chars().collect() };
    assert_eq!(parse_time(&chars("gibberish"), now), Err(TimeParseError::InvalidFormat));
    assert_eq!(parse_time(&chars("five days ago"), now), Err(TimeParseError::InvalidFormat));
    assert_eq!(parse_time(&chars("5 fortnights ago"), now), Err(TimeParseError::UnknownUnit));
    assert_eq!(parse_time(&chars(""), now), Err(TimeParseError::InvalidFormat));
}

#[test]
fn poll_consumes_coordinator_messages_in_order() {
    let mut app = recall::app::App::new(Vec::new(), "/w".to_string(), SessionIndex::new(), 0);
    assert!(app.listening);
    let batch = vec![
        IndexMsg::Progress { indexed: 1, total: 2 },
        IndexMsg::NeedsReload,
        IndexMsg::Done { total_sessions: 2 },
    ];
    app.poll_index_updates(&batch, false);
    assert!(!app.indexing);
    assert!(!app.listening);
    assert_eq!(app.total_sessions, 2);
    assert!(app.status.is_none());
    assert!(app.index_error.is_none());
}

#[test]
fn channel_loss_before_done_is_an_error() {
    let mut app = recall::app::App::new(Vec::new(), "/w".to_string(), SessionIndex::new(), 0);
    app.poll_index_updates(&vec![IndexMsg::Progress { indexed: 1, total: 9 }], true);
    assert!(!app.indexing);
    assert!(!app.listening);
    assert!(app.index_error.is_some());
}

#[test]
fn coordinator_error_is_terminal() {
    let mut app = recall::app::App::new(Vec::new(), "/w".to_string(), SessionIndex::new(), 0);
    app.poll_index_updates(&vec![IndexMsg::Error("disk gone".to_string())], false);
    assert!(!app.indexing);
    assert!(!app.listening);
    assert_eq!(app.index_error, Some("disk gone".to_string()));
}
