//! Engine queries, ranking, context extraction, scope and CLI filters.

use recall::app::{App, SearchScope};
use recall::engine::{IndexError, SessionIndex};
use recall::filters::filter_results;
use recall::rank::{collect_with_context, relevant_messages, sort_ranked};
use recall::session::{Message, Role, Session, SessionSource};
use recall::text::{count_occurrences, tokenize};

fn msg(text: &str) -> Message {
    Message { role: Role::User, content: text.chars().collect() }
}

fn session(id: &str, cwd: &str, ts: i64, texts: &[&str]) -> Session {
    Session {
        id: id.to_string(),
        source: SessionSource::Chat,
        cwd: cwd.to_string(),
        timestamp: ts,
        file_path: format!("/logs/{}.jsonl", id),
        messages: texts.iter().map(|t| msg(t)).collect(),
    }
}

fn filled_index(sessions: Vec<Session>) -> SessionIndex {
    let mut index = SessionIndex::new();
    let mut w = index.writer().unwrap();
    for s in &sessions {
        index.delete_session(&mut w, &s.file_path);
        index.index_session(&mut w, s);
    }
    index.commit(&mut w);
    index.close_writer(w);
    index.reload();
    index
}

#[test]
fn count_occurrences_is_non_overlapping() {
    let h: Vec<u8> = b"aaaa".to_vec();
    let n: Vec<u8> = b"aa".to_vec();
    assert_eq!(count_occurrences(&h, &n), 2);
    let h2: Vec<u8> = b"banana".to_vec();
    let n2: Vec<u8> = b"ana".to_vec();
    assert_eq!(count_occurrences(&h2, &n2), 1);
    let empty: Vec<u8> = Vec::new();
    assert_eq!(count_occurrences(&h2, &empty), 0);
}

#[test]
fn tokenize_splits_on_whitespace() {
    let s: Vec<u8> = b"  hello   world\tfoo\n".to_vec();
    let toks = tokenize(&s);
    assert_eq!(toks.len(), 3);
    assert_eq!(toks[0], b"hello".to_vec());
    assert_eq!(toks[1], b"world".to_vec());
    assert_eq!(toks[2], b"foo".to_vec());
}

#[test]
fn search_is_case_folded() {
    // if the fold wrapper handed its input back unchanged, the upper-case
    // content would never match the lower-case query
    let index = filled_index(vec![session("s1", "/w", 10, &["HELLO World"])]);
    let query: Vec<char> = "hello".chars().collect();
    let hits = index.search(&query, 10);
    assert_eq!(hits.len(), 1);
    assert_eq!(hits[0].session.id, "s1");
    let other: Vec<char> = "absent".chars().collect();
    assert_eq!(index.search(&other, 10).len(), 0);
}

#[test]
fn ranking_tie_break_prefers_recent_messages() {
    // equal scores order by descending tie key (message index)
    let v: Vec<(u128, i128, usize)> = vec![(5, 2, 2), (3, 1, 1), (5, 7, 7)];
    let sorted = sort_ranked(&v);
    assert_eq!(sorted, vec![(5, 7, 7), (5, 2, 2), (3, 1, 1)]);
}

#[test]
fn context_extraction_windows_and_dedups() {
    // matches at 2 and 7 of a 10-message session, context 1, yield exactly
    // messages 1,2,3,6,7,8 in ascending order
    let texts: Vec<String> = (0..10).map(|i| format!("m{}", i)).collect();
    let refs: Vec<&str> = texts.iter().map(|s| s.as_str()).collect();
    let s = session("s", "/w", 1, &refs);
    let ranked: Vec<(u128, i128, usize)> = vec![(1, 7, 7), (1, 2, 2)];
    let picked = collect_with_context(&s.messages, &ranked, 1);
    let got: Vec<String> = picked.iter().map(|m| m.content.iter().collect()).collect();
    assert_eq!(got, vec!["m1", "m2", "m3", "m6", "m7", "m8"]);
}

#[test]
fn relevant_messages_without_context_takes_top_matches() {
    let s = session("s", "/w", 1, &["apple pie", "no fruit", "apple apple"]);
    let query: Vec<char> = "apple".chars().collect();
    let picked = relevant_messages(&s.messages, &query, 0, 5);
    let got: Vec<String> = picked.iter().map(|m| m.content.iter().collect()).collect();
    // two occurrences beat one; ties would favor the later message
    assert_eq!(got, vec!["apple apple", "apple pie"]);
}

#[test]
fn recent_returns_the_most_recent_by_timestamp() {
    // empty query over 60 sessions returns the 50 most recent, descending
    let sessions: Vec<Session> = (0..60)
        .map(|i| session(&format!("s{}", i), "/w", i as i64, &["hi"]))
        .collect();
    let index = filled_index(sessions);
    let hits = index.recent(50);
    assert_eq!(hits.len(), 50);
    for (k, h) in hits.iter().enumerate() {
        assert_eq!(h.session.timestamp, 59 - k as i64);
    }
}

#[test]
fn scope_filter_keeps_only_the_folder() {
    let sessions = vec![
        session("f1", "/f", 10, &["target word"]),
        session("g1", "/g", 20, &["target word"]),
        session("f2", "/f", 30, &["target word"]),
    ];
    let index = filled_index(sessions);
    let mut app = App::new("target".chars().collect(), "/f".to_string(), index, 0);
    app.search_scope = SearchScope::Everything;
    app.search().unwrap();
    let unscoped = app.results.len();
    assert_eq!(unscoped, 3);

    app.toggle_scope();
    assert_eq!(app.search_scope, SearchScope::Folder("/f".to_string()));
    assert!(app.results.len() <= unscoped);
    assert_eq!(app.results.len(), 2);
    for r in &app.results {
        assert_eq!(r.session.cwd, "/f");
    }
}

#[test]
fn selection_follows_the_session_across_refresh() {
    let sessions = vec![
        session("a", "/w", 30, &["hi"]),
        session("b", "/w", 20, &["hi"]),
        session("c", "/w", 10, &["hi"]),
    ];
    let mut app = App::new(Vec::new(), "/w".to_string(), filled_index(sessions), 0);
    app.search().unwrap();
    assert_eq!(app.results.len(), 3);
    // select "b", then make a newer session appear: "b" moves down one
    app.selected = 1;
    assert_eq!(app.results[1].session.id, "b");
    let newer = session("d", "/w", 40, &["hi"]);
    let mut w = app.index.writer().unwrap();
    app.index.index_session(&mut w, &newer);
    app.index.commit(&mut w);
    app.index.close_writer(w);
    app.index.reload();
    app.search().unwrap();
    assert_eq!(app.results.len(), 4);
    assert_eq!(app.results[app.selected].session.id, "b");
    assert_eq!(app.selected, 2);
}

#[test]
fn selection_resets_when_the_session_disappears() {
    let sessions = vec![session("a", "/w", 30, &["hi"]), session("b", "/w", 20, &["hi"])];
    let mut app = App::new(Vec::new(), "/w".to_string(), filled_index(sessions), 0);
    app.search().unwrap();
    app.selected = 1;
    let mut w = app.index.writer().unwrap();
    app.index.delete_session(&mut w, &"/logs/b.jsonl".to_string());
    app.index.commit(&mut w);
    app.index.close_writer(w);
    app.index.reload();
    app.search().unwrap();
    assert_eq!(app.selected, 0);
    assert_eq!(app.list_scroll, 0);
}

#[test]
fn debounce_fires_once_after_the_window() {
    let index = filled_index(vec![session("s", "/w", 1, &["alpha"])]);
    let mut app = App::new(Vec::new(), "/w".to_string(), index, 0);
    app.search_scope = SearchScope::Everything;
    // three edits inside the window: no search yet
    app.on_char('a', 100);
    app.on_char('l', 120);
    app.on_char('p', 140);
    app.maybe_search(150);
    assert!(app.search_pending);
    assert_eq!(app.results.len(), 0);
    // the window elapses from the last edit: exactly one search fires
    app.maybe_search(190);
    assert!(!app.search_pending);
    assert_eq!(app.results.len(), 1);
    // a later tick does not search again
    app.maybe_search(500);
    assert!(!app.search_pending);
}

#[test]
fn single_writer_is_enforced() {
    let mut index = SessionIndex::new();
    let w1 = index.writer().unwrap();
    let w2 = index.writer();
    assert!(matches!(w2, Err(IndexError::WriterActive)));
    index.close_writer(w1);
    assert!(index.writer().is_ok());
}

#[test]
fn get_by_id_finds_the_file_path() {
    let index = filled_index(vec![session("abc", "/w", 5, &["hi"])]);
    assert_eq!(index.get_by_id(&"abc".to_string()), Some("/logs/abc.jsonl".to_string()));
    assert_eq!(index.get_by_id(&"zzz".to_string()), None);
}

#[test]
fn filter_results_applies_source_and_time_window() {
    let index = filled_index(vec![
        session("a", "/w", 10, &["hi"]),
        session("b", "/w", 20, &["hi"]),
        session("c", "/w", 30, &["hi"]),
    ]);
    let all = index.recent(10);
    let within = filter_results(&all, None, Some(15), Some(25), 10);
    assert_eq!(within.len(), 1);
    assert_eq!(within[0].session.id, "b");
    let codex_only = filter_results(&all, Some(SessionSource::Codex), None, None, 10);
    assert_eq!(codex_only.len(), 0);
    let limited = filter_results(&all, None, None, None, 2);
    assert_eq!(limited.len(), 2);
}

#[test]
fn resume_command_names_the_tool() {
    let s = session("abc", "/w", 5, &["hi"]);
    let (cmd, args) = s.resume_command();
    assert_eq!(cmd, "chat");
    assert_eq!(args, vec!["--resume".to_string(), "abc".to_string()]);
}

#[test]
fn scope_display_path_shortens_long_paths() {
    let index = SessionIndex::new();
    let long = "/home/someone/projects/deeply/nested/workdir";
    let mut app = App::new(Vec::new(), long.to_string(), index, 0);
    let home: Vec<char> = "/home/someone".chars().collect();
    let shown: String = app.scope_display_path(&home).unwrap().iter().collect();
    assert_eq!(shown, "~/.../workdir");
    let name: String = app.scope_folder_name().unwrap().iter().collect();
    assert_eq!(name, "workdir");
    app.search_scope = SearchScope::Everything;
    assert!(app.scope_display_path(&home).is_none());
    assert!(app.scope_folder_name().is_none());
}

#[test]
fn scope_display_path_keeps_short_paths() {
    let index = SessionIndex::new();
    let mut app = App::new(Vec::new(), "/home/someone/work".to_string(), index, 0);
    let home: Vec<char> = "/home/someone".chars().collect();
    let shown: String = app.scope_display_path(&home).unwrap().iter().collect();
    assert_eq!(shown, "~/work");
    app.search_scope = SearchScope::Folder("/opt/data".to_string());
    let plain: String = app.scope_display_path(&home).unwrap().iter().collect();
    assert_eq!(plain, "/opt/data");
}

#[test]
fn on_enter_requests_the_selected_file() {
    let mut app = App::new(Vec::new(), "/w".to_string(), filled_index(vec![session(
        "a", "/w", 5, &["hi"],
    )]), 0);
    app.search_scope = SearchScope::Everything;
    app.search().unwrap();
    app.on_enter();
    assert_eq!(app.should_resume, Some("/logs/a.jsonl".to_string()));
    app.on_tab();
    assert_eq!(app.should_copy, Some("a".to_string()));
}
