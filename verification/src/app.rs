//! The interactive search/selection state machine: debounced query editing,
//! scope filtering, selection-preserving refresh, message focus and
//! expansion, and consumption of the indexing coordinator's messages.
//!
//! Time and the coordinator channel live outside this library: callers hand
//! each method the current monotonic time in milliseconds and the drained
//! message batch.

use std::collections::HashSet;
use vstd::prelude::*;
use crate::engine::{spec_query, spec_recent, IndexError, SessionIndex};
use crate::pipeline::{IndexMsg, IndexMsgV};
use crate::session::{SearchResult, SearchResultV, SessionV};
use crate::text::{chars_of, lower_of, tokens_of};

verus! {

/// Debounce window for search: a search fires once input has paused this
/// long.
pub const SEARCH_DEBOUNCE_MS: u64 = 50;

/// How many results a query or the recent view returns.
pub const RESULT_LIMIT: usize = 50;

/// Search scope: all conversations, or only those launched from one folder.
#[derive(Debug, Clone, PartialEq, Eq)]
pub enum SearchScope {
    Everything,
    Folder(String),
}

/// Mathematical view of a [`SearchScope`].
#[verifier::ext_equal]
pub ghost enum SearchScopeV {
    Everything,
    Folder(Seq<char>),
}

impl View for SearchScope {
    type V = SearchScopeV;

    open spec fn view(&self) -> SearchScopeV {
        match self {
            SearchScope::Everything => SearchScopeV::Everything,
            SearchScope::Folder(p) => SearchScopeV::Folder(p@),
        }
    }
}

/// Whether a result survives the scope filter.
pub open spec fn scope_keeps(scope: SearchScopeV, r: SearchResultV) -> bool {
    match scope {
        SearchScopeV::Everything => true,
        SearchScopeV::Folder(f) => r.session.cwd == f,
    }
}

/// The results that survive the scope filter, in engine order — never
/// re-sorted.
pub open spec fn filter_scope(rs: Seq<SearchResultV>, scope: SearchScopeV) -> Seq<SearchResultV>
    decreases rs.len(),
{
    if rs.len() == 0 {
        Seq::empty()
    } else {
        let pre = filter_scope(rs.drop_last(), scope);
        if scope_keeps(scope, rs.last()) {
            pre.push(rs.last())
        } else {
            pre
        }
    }
}

/// The position of the first result whose session carries `id`.
pub open spec fn find_pos(rs: Seq<SearchResultV>, id: Seq<char>) -> Option<int>
    decreases rs.len(),
{
    if rs.len() == 0 {
        None
    } else if rs[0].session.id == id {
        Some(0int)
    } else {
        match find_pos(rs.drop_first(), id) {
            Some(p) => Some(p + 1),
            None => None,
        }
    }
}

/// Advisory status shown while indexing runs; the caller renders it.
#[derive(Clone, Copy, Debug, PartialEq, Eq, Structural, Hash)]
pub enum StatusLine {
    /// `indexed` of `total` delta files done.
    Indexing { indexed: usize, total: usize },
    /// Indexing failed; details are in the error field.
    IndexFailed,
}

/// The interactive application state.
pub struct App {
    /// Current search query, by characters; `cursor` is a char index.
    pub query: Vec<char>,
    /// Cursor position in the query.
    pub cursor: usize,
    /// Current results, in engine relevance order, scope-filtered.
    pub results: Vec<SearchResult>,
    /// Selected result index.
    pub selected: usize,
    /// Results list scroll offset.
    pub list_scroll: usize,
    /// Preview scroll offset.
    pub preview_scroll: usize,
    /// Focused message index in the preview; `None` = the matched message.
    pub focused_message: Option<usize>,
    /// Message indices currently expanded in the preview.
    pub expanded_messages: HashSet<usize>,
    /// Message count of the previewed session, for navigation bounds.
    pub preview_message_count: usize,
    /// Whether the focused message can expand (set by the renderer).
    pub focused_message_expandable: bool,
    /// Per-message preview line ranges, half-open, for click mapping.
    pub message_line_ranges: Vec<(usize, usize)>,
    /// Preview viewport (x, y, width, height) for click hit-testing.
    pub preview_area: (u16, u16, u16, u16),
    /// Whether the preview should auto-scroll to the focused message.
    pub pending_auto_scroll: bool,
    /// Whether the preview has more content than fits (set by the renderer).
    pub preview_scrollable: bool,
    /// Set when the user asked to quit.
    pub should_quit: bool,
    /// File path of the session the user asked to resume; the caller parses
    /// and launches it.
    pub should_resume: Option<String>,
    /// Session id the user asked to copy.
    pub should_copy: Option<String>,
    /// The index queried for results.
    pub index: SessionIndex,
    /// Advisory indexing status.
    pub status: Option<StatusLine>,
    /// Total sessions known to be indexed.
    pub total_sessions: usize,
    /// Whether background indexing is still running.
    pub indexing: bool,
    /// Whether coordinator messages are still expected; once false the
    /// caller drops the channel.
    pub listening: bool,
    /// Current search scope.
    pub search_scope: SearchScope,
    /// Directory the application was launched from.
    pub launch_cwd: String,
    /// Whether an edit is awaiting its debounced search.
    pub search_pending: bool,
    /// When the last edit happened (caller-supplied milliseconds).
    pub last_input: u64,
    /// Terminal indexing error, surfaced on exit.
    pub index_error: Option<String>,
}

impl App {
    /// The sessions visible to queries.
    pub open spec fn reader(&self) -> Seq<SessionV> {
        self.index.reader_view()
    }

    /// The committed sessions.
    pub open spec fn committed(&self) -> Seq<SessionV> {
        self.index.committed_view()
    }

    /// Whether an edit awaits its debounced search.
    pub open spec fn pending(&self) -> bool {
        self.search_pending
    }

    /// When the last edit happened.
    pub open spec fn last_input_time(&self) -> int {
        self.last_input as int
    }

    /// Basic well-formedness: the cursor sits inside the query.
    pub open spec fn wf(&self) -> bool {
        self.cursor <= self.query@.len()
    }

    /// The raw results a search draws before scope filtering: the recent
    /// view on an empty query, a relevance query otherwise.
    pub open spec fn spec_raw(reader: Seq<SessionV>, query: Seq<char>) -> Seq<SearchResultV> {
        if query.len() == 0 {
            spec_recent(reader, RESULT_LIMIT as int)
        } else {
            spec_query(reader, tokens_of(lower_of(query)), RESULT_LIMIT as int)
        }
    }

    /// The id of the currently selected session, if any.
    pub open spec fn selected_id(&self) -> Option<Seq<char>> {
        if self.selected < self.results.deep_view().len() {
            Some(self.results.deep_view()[self.selected as int].session.id)
        } else {
            None
        }
    }

    /// Fields a search never touches.
    pub open spec fn unchanged_frame(pre: App, post: App) -> bool {
        &&& post.launch_cwd == pre.launch_cwd
        &&& post.should_resume == pre.should_resume
        &&& post.should_copy == pre.should_copy
        &&& post.index_error == pre.index_error
        &&& post.status == pre.status
        &&& post.total_sessions == pre.total_sessions
        &&& post.preview_message_count == pre.preview_message_count
        &&& post.message_line_ranges@ == pre.message_line_ranges@
        &&& post.preview_area == pre.preview_area
        &&& post.focused_message_expandable == pre.focused_message_expandable
        &&& post.preview_scrollable == pre.preview_scrollable
    }

    /// What executing a search leaves behind: the scope-filtered results,
    /// selection following the previously selected session where it is still
    /// present (else reset to the top), and the preview state cleared.
    pub open spec fn search_post(
        reader: Seq<SessionV>,
        query: Seq<char>,
        scope: SearchScopeV,
        prev_id: Option<Seq<char>>,
        post: App,
    ) -> bool {
        let filtered = filter_scope(App::spec_raw(reader, query), scope);
        &&& post.results.deep_view() == filtered
        &&& (match prev_id {
            Some(id) => (match find_pos(filtered, id) {
                Some(p) => post.selected == p && post.list_scroll == p,
                None => post.selected == 0 && post.list_scroll == 0,
            }),
            None => post.selected == 0 && post.list_scroll == 0,
        })
        &&& post.pending_auto_scroll
        &&& post.preview_scroll == 0
        &&& post.focused_message is None
        &&& post.expanded_messages@ == Set::<usize>::empty()
    }

    /// A fresh application over an open index: scope defaults to the launch
    /// folder, and a non-empty initial query searches immediately.
    pub fn new(initial_query: Vec<char>, launch_cwd: String, index: SessionIndex, now_ms: u64) -> (r: App)
        ensures
            r.wf(),
            r.query@ == initial_query@,
            r.cursor == initial_query@.len(),
            r.search_scope@ == SearchScopeV::Folder(launch_cwd@),
            r.launch_cwd@ == launch_cwd@,
            r.indexing,
            r.listening,
            !r.pending(),
            r.reader() == index.reader_view(),
            r.committed() == index.committed_view(),
            initial_query@.len() > 0 ==> App::search_post(
                index.reader_view(),
                initial_query@,
                SearchScopeV::Folder(launch_cwd@),
                None,
                r,
            ),
            initial_query@.len() == 0 ==> r.results@.len() == 0 && r.selected == 0,
            r.should_quit == false && r.should_resume is None && r.should_copy is None,
            r.index_error is None,
    {
        let cursor = initial_query.len();
        let scope_cwd = launch_cwd.clone();
        let mut app = App {
            query: initial_query,
            cursor,
            results: Vec::new(),
            selected: 0,
            list_scroll: 0,
            preview_scroll: 0,
            focused_message: None,
            expanded_messages: HashSet::new(),
            preview_message_count: 0,
            focused_message_expandable: false,
            message_line_ranges: Vec::new(),
            preview_area: (0, 0, 0, 0),
            pending_auto_scroll: false,
            preview_scrollable: false,
            should_quit: false,
            should_resume: None,
            should_copy: None,
            index,
            status: None,
            total_sessions: 0,
            indexing: true,
            listening: true,
            search_scope: SearchScope::Folder(scope_cwd),
            launch_cwd,
            search_pending: false,
            last_input: now_ms,
            index_error: None,
        };
        if app.query.len() > 0 {
            let _ = app.search();
        }
        app
    }

    /// Runs the search now: the recent view on an empty query, a relevance
    /// query otherwise, scope-filtered, preserving the selection by session
    /// id. Never re-sorts the engine's relevance order.
    pub fn search(&mut self) -> (r: Result<(), IndexError>)
        ensures
            r is Ok,
            App::search_post(
                old(self).reader(),
                old(self).query@,
                old(self).search_scope@,
                old(self).selected_id(),
                *final(self),
            ),
            final(self).query@ == old(self).query@,
            final(self).cursor == old(self).cursor,
            final(self).search_scope@ == old(self).search_scope@,
            final(self).reader() == old(self).reader(),
            final(self).committed() == old(self).committed(),
            final(self).pending() == old(self).pending(),
            final(self).last_input_time() == old(self).last_input_time(),
            final(self).should_quit == old(self).should_quit,
            final(self).indexing == old(self).indexing,
            final(self).listening == old(self).listening,
            App::unchanged_frame(*old(self), *final(self)),
    {
        let prev_id: Option<String> = if self.selected < self.results.len() {
            Some(self.results[self.selected].session.id.clone())
        } else {
            None
        };
        let raw = if self.query.len() == 0 {
            self.index.recent(RESULT_LIMIT)
        } else {
            self.index.search(&self.query, RESULT_LIMIT)
        };
        let ghost rawv = raw.deep_view();
        let mut filtered: Vec<SearchResult> = Vec::new();
        match &self.search_scope {
            SearchScope::Everything => {
                filtered = raw;
                proof {
                    lemma_filter_everything(filtered.deep_view());
                }
            },
            SearchScope::Folder(cwd) => {
                let mut i: usize = 0;
                proof {
                    assert(rawv.take(0) =~= Seq::<SearchResultV>::empty());
                    assert(filtered.deep_view() =~= filter_scope(
                        rawv.take(0),
                        self.search_scope@,
                    ));
                }
                while i < raw.len()
                    invariant
                        rawv == raw.deep_view(),
                        rawv.len() == raw@.len(),
                        i <= raw@.len(),
                        self.search_scope@ matches SearchScopeV::Folder(f) && f == cwd@,
                        filtered.deep_view() == filter_scope(
                            rawv.take(i as int),
                            self.search_scope@,
                        ),
                    decreases raw@.len() - i,
                {
                    proof {
                        assert(raw@[i as int]@ == rawv[i as int]);
                        assert(rawv.take(i + 1).drop_last() =~= rawv.take(i as int));
                        assert(rawv.take(i + 1).last() == rawv[i as int]);
                    }
                    if raw[i].session.cwd == *cwd {
                        let ghost f0 = filtered.deep_view();
                        let item = raw[i].duplicate();
                        filtered.push(item);
                        proof {
                            assert(filtered.deep_view() =~= f0.push(rawv[i as int]));
                        }
                    }
                    i = i + 1;
                }
                proof {
                    assert(rawv.take(rawv.len() as int) =~= rawv);
                }
            },
        }
        self.results = filtered;
        match prev_id {
            Some(id) => {
                let ghost rs = self.results.deep_view();
                let mut pos: usize = 0;
                let mut found: bool = false;
                while pos < self.results.len() && !found
                    invariant
                        rs == self.results.deep_view(),
                        rs.len() == self.results@.len(),
                        pos <= rs.len(),
                        !found ==> forall|q: int| 0 <= q < pos ==> (#[trigger] rs[q]).session.id
                            != id@,
                        found ==> pos < rs.len() && rs[pos as int].session.id == id@ && (
                        forall|q: int| 0 <= q < pos ==> (#[trigger] rs[q]).session.id != id@),
                    decreases rs.len() - pos, (if found { 0int } else { 1int }),
                {
                    if self.results[pos].session.id == id {
                        found = true;
                        proof {
                            assert(self.results@[pos as int]@ == rs[pos as int]);
                        }
                    } else {
                        proof {
                            assert(self.results@[pos as int]@ == rs[pos as int]);
                        }
                        pos = pos + 1;
                    }
                }
                if found {
                    proof {
                        lemma_find_pos_found(rs, id@, pos as int);
                    }
                    self.selected = pos;
                    self.list_scroll = pos;
                } else {
                    proof {
                        lemma_find_pos_absent(rs, id@);
                    }
                    self.selected = 0;
                    self.list_scroll = 0;
                }
            },
            None => {
                self.selected = 0;
                self.list_scroll = 0;
            },
        }
        self.update_preview_scroll();
        Ok(())
    }

    /// Flips the scope between everything and the launch folder, and re-runs
    /// the search synchronously, bypassing the debounce.
    pub fn toggle_scope(&mut self)
        ensures
            old(self).search_scope@ == SearchScopeV::Everything ==> final(self).search_scope@
                == SearchScopeV::Folder(old(self).launch_cwd@),
            (old(self).search_scope@ matches SearchScopeV::Folder(_)) ==> final(self).search_scope@
                == SearchScopeV::Everything,
            App::search_post(
                old(self).reader(),
                old(self).query@,
                final(self).search_scope@,
                old(self).selected_id(),
                *final(self),
            ),
            final(self).query@ == old(self).query@,
            final(self).reader() == old(self).reader(),
            final(self).committed() == old(self).committed(),
    {
        let next = match &self.search_scope {
            SearchScope::Everything => SearchScope::Folder(self.launch_cwd.clone()),
            SearchScope::Folder(_) => SearchScope::Everything,
        };
        self.search_scope = next;
        let _ = self.search();
    }

    /// Inserts a character at the cursor and schedules the debounced search.
    pub fn on_char(&mut self, c: char, now_ms: u64)
        requires
            old(self).wf(),
            old(self).query@.len() < usize::MAX,
        ensures
            final(self).wf(),
            final(self).query@ == old(self).query@.insert(old(self).cursor as int, c),
            final(self).cursor == old(self).cursor + 1,
            final(self).pending(),
            final(self).last_input_time() == now_ms as int,
            final(self).results@ == old(self).results@,
    {
        self.query.insert(self.cursor, c);
        self.cursor = self.cursor + 1;
        self.mark_search_pending(now_ms);
    }

    /// Deletes the character before the cursor, if any, and schedules the
    /// debounced search.
    pub fn on_backspace(&mut self, now_ms: u64)
        requires
            old(self).wf(),
        ensures
            final(self).wf(),
            old(self).cursor > 0 ==> ({
                &&& final(self).query@ == old(self).query@.remove(old(self).cursor - 1)
                &&& final(self).cursor == old(self).cursor - 1
                &&& final(self).pending()
                &&& final(self).last_input_time() == now_ms as int
            }),
            old(self).cursor == 0 ==> *final(self) == *old(self),
    {
        if self.cursor > 0 {
            self.cursor = self.cursor - 1;
            self.query.remove(self.cursor);
            self.mark_search_pending(now_ms);
        }
    }

    /// Deletes the character under the cursor, if any, and schedules the
    /// debounced search.
    pub fn on_delete(&mut self, now_ms: u64)
        requires
            old(self).wf(),
        ensures
            final(self).wf(),
            old(self).cursor < old(self).query@.len() ==> ({
                &&& final(self).query@ == old(self).query@.remove(old(self).cursor as int)
                &&& final(self).cursor == old(self).cursor
                &&& final(self).pending()
                &&& final(self).last_input_time() == now_ms as int
            }),
            old(self).cursor >= old(self).query@.len() ==> *final(self) == *old(self),
    {
        if self.cursor < self.query.len() {
            self.query.remove(self.cursor);
            self.mark_search_pending(now_ms);
        }
    }

    /// Clears the query, or asks to quit when it is already empty.
    pub fn on_escape(&mut self, now_ms: u64)
        requires
            old(self).wf(),
        ensures
            final(self).wf(),
            old(self).query@.len() == 0 ==> ({
                &&& final(self).should_quit
                &&& final(self).query@ == old(self).query@
            }),
            old(self).query@.len() > 0 ==> ({
                &&& final(self).query@.len() == 0
                &&& final(self).cursor == 0
                &&& final(self).pending()
                &&& final(self).last_input_time() == now_ms as int
            }),
    {
        if self.query.len() == 0 {
            self.should_quit = true;
        } else {
            self.query.truncate(0);
            self.cursor = 0;
            self.mark_search_pending(now_ms);
        }
    }

    /// Moves the cursor one character left, stopping at the start.
    pub fn on_left(&mut self)
        ensures
            final(self).cursor == (if old(self).cursor > 0 {
                old(self).cursor - 1
            } else {
                0int
            }),
            final(self).query@ == old(self).query@,
    {
        if self.cursor > 0 {
            self.cursor = self.cursor - 1;
        }
    }

    /// Moves the cursor one character right, stopping at the end.
    pub fn on_right(&mut self)
        requires
            old(self).wf(),
        ensures
            final(self).wf(),
            final(self).cursor == (if old(self).cursor < old(self).query@.len() {
                old(self).cursor + 1
            } else {
                old(self).cursor as int
            }),
            final(self).query@ == old(self).query@,
    {
        if self.cursor < self.query.len() {
            self.cursor = self.cursor + 1;
        }
    }

    /// Moves the cursor to the start of the query.
    pub fn on_home(&mut self)
        ensures
            final(self).cursor == 0,
            final(self).query@ == old(self).query@,
    {
        self.cursor = 0;
    }

    /// Moves the cursor to the end of the query.
    pub fn on_end(&mut self)
        ensures
            final(self).wf(),
            final(self).cursor == old(self).query@.len(),
            final(self).query@ == old(self).query@,
    {
        self.cursor = self.query.len();
    }

    /// Notes an edit: a search is pending and the debounce window restarts
    /// now.
    fn mark_search_pending(&mut self, now_ms: u64)
        ensures
            final(self).pending(),
            final(self).last_input_time() == now_ms as int,
            final(self).query@ == old(self).query@,
            final(self).cursor == old(self).cursor,
            final(self).results@ == old(self).results@,
            final(self).should_quit == old(self).should_quit,
            final(self).reader() == old(self).reader(),
    {
        self.search_pending = true;
        self.last_input = now_ms;
    }

    /// Fires the pending search once the debounce window has elapsed since
    /// the last edit; otherwise does nothing. Edits within the window only
    /// restart it, so a burst of edits yields exactly one search.
    pub fn maybe_search(&mut self, now_ms: u64)
        ensures
            (old(self).pending() && now_ms >= old(self).last_input_time()
                + SEARCH_DEBOUNCE_MS as int) ==> !final(self).pending() && App::search_post(
                old(self).reader(),
                old(self).query@,
                old(self).search_scope@,
                old(self).selected_id(),
                *final(self),
            ),
            !(old(self).pending() && now_ms >= old(self).last_input_time()
                + SEARCH_DEBOUNCE_MS as int) ==> *final(self) == *old(self),
    {
        if self.search_pending && now_ms >= self.last_input && now_ms - self.last_input
            >= SEARCH_DEBOUNCE_MS {
            self.search_pending = false;
            let _ = self.search();
        }
    }

    /// Runs any pending search immediately, ignoring the debounce window.
    pub fn flush_pending_search(&mut self)
        ensures
            old(self).pending() ==> !final(self).pending() && App::search_post(
                old(self).reader(),
                old(self).query@,
                old(self).search_scope@,
                old(self).selected_id(),
                *final(self),
            ),
            !old(self).pending() ==> *final(self) == *old(self),
    {
        if self.search_pending {
            self.search_pending = false;
            let _ = self.search();
        }
    }

    /// Moves the selection up one result, stopping at the top.
    pub fn on_up(&mut self)
        ensures
            old(self).results@.len() == 0 ==> *final(self) == *old(self),
            old(self).results@.len() > 0 ==> final(self).selected == (if old(self).selected > 0 {
                old(self).selected - 1
            } else {
                0int
            }) && final(self).focused_message is None && final(self).expanded_messages@
                == Set::<usize>::empty(),
    {
        if self.results.len() > 0 {
            if self.selected > 0 {
                self.selected = self.selected - 1;
            }
            self.update_preview_scroll();
        }
    }

    /// Moves the selection down one result, stopping at the bottom.
    pub fn on_down(&mut self)
        ensures
            old(self).results@.len() == 0 ==> *final(self) == *old(self),
            old(self).results@.len() > 0 ==> final(self).selected == (if old(self).selected + 1
                < old(self).results@.len() {
                old(self).selected + 1
            } else {
                old(self).results@.len() - 1
            }) && final(self).focused_message is None && final(self).expanded_messages@
                == Set::<usize>::empty(),
    {
        if self.results.len() > 0 {
            let last = self.results.len() - 1;
            if self.selected < last {
                self.selected = self.selected + 1;
            } else {
                self.selected = last;
            }
            self.update_preview_scroll();
        }
    }

    /// Asks to copy the selected session's id.
    pub fn on_tab(&mut self)
        ensures
            old(self).selected < old(self).results@.len() ==> ({
                &&& final(self).should_copy matches Some(id)
                &&& final(self).should_copy->0@ == old(self).results.deep_view()[old(self).selected as int].session.id
            }),
            old(self).selected >= old(self).results@.len() ==> final(self).should_copy == old(self).should_copy,
            final(self).results@ == old(self).results@,
            final(self).selected == old(self).selected,
    {
        if self.selected < self.results.len() {
            proof {
                assert(self.results@[self.selected as int]@ == self.results.deep_view()[self.selected as int]);
            }
            self.should_copy = Some(self.results[self.selected].session.id.clone());
        }
    }

    /// Asks to resume the selected session: hands its file path out for the
    /// caller to parse and launch.
    pub fn on_enter(&mut self)
        ensures
            old(self).selected < old(self).results@.len() ==> ({
                &&& final(self).should_resume matches Some(p)
                &&& final(self).should_resume->0@ == old(self).results.deep_view()[old(self).selected as int].session.file_path
            }),
            old(self).selected >= old(self).results@.len() ==> final(self).should_resume == old(self).should_resume,
    {
        if self.selected < self.results.len() {
            proof {
                assert(self.results@[self.selected as int]@ == self.results.deep_view()[self.selected as int]);
            }
            self.should_resume = Some(self.results[self.selected].file_path_of_session());
        }
    }


    /// The advisory/aggregate state the poll fold starts from.
    pub open spec fn poll_state(&self) -> PollV {
        PollV {
            status: self.status,
            total_sessions: self.total_sessions,
            indexing: self.indexing,
            listening: self.listening,
            error: opt_str_view(self.index_error),
            refresh: false,
        }
    }

    /// Consumes one drained batch of coordinator messages, in arrival order:
    /// progress updates the status, a reload hint or completion reloads the
    /// read view and re-runs the active query, an error (or the channel
    /// closing before completion) ends listening and surfaces the failure.
    pub fn poll_index_updates(&mut self, messages: &Vec<IndexMsg>, disconnected: bool)
        ensures
            !old(self).listening ==> *final(self) == *old(self),
            old(self).listening ==> ({
                let o = poll_outcome(old(self).poll_state(), messages.deep_view(), disconnected);
                &&& final(self).status == o.status
                &&& final(self).total_sessions == o.total_sessions
                &&& final(self).indexing == o.indexing
                &&& final(self).listening == o.listening
                &&& opt_str_view(final(self).index_error) == o.error
                &&& final(self).committed() == old(self).committed()
                &&& final(self).query@ == old(self).query@
                &&& final(self).search_scope@ == old(self).search_scope@
                &&& o.refresh ==> final(self).reader() == old(self).committed()
                    && App::search_post(
                    old(self).committed(),
                    old(self).query@,
                    old(self).search_scope@,
                    old(self).selected_id(),
                    *final(self),
                )
                &&& !o.refresh ==> final(self).reader() == old(self).reader()
                    && final(self).results@ == old(self).results@
                    && final(self).selected == old(self).selected
            }),
    {
        if !self.listening {
            return ;
        }
        let ghost st0 = old(self).poll_state();
        let ghost msv = messages.deep_view();
        let mut refresh: bool = false;
        let mut i: usize = 0;
        proof {
            assert(msv.take(0) =~= Seq::<IndexMsgV>::empty());
        }
        while i < messages.len()
            invariant
                msv == messages.deep_view(),
                msv.len() == messages@.len(),
                i <= messages@.len(),
                poll_fold(st0, msv.take(i as int)) == (PollV {
                    status: self.status,
                    total_sessions: self.total_sessions,
                    indexing: self.indexing,
                    listening: self.listening,
                    error: opt_str_view(self.index_error),
                    refresh,
                }),
                self.index == old(self).index,
                self.query@ == old(self).query@,
                self.cursor == old(self).cursor,
                self.results@ == old(self).results@,
                self.selected == old(self).selected,
                self.list_scroll == old(self).list_scroll,
                self.preview_scroll == old(self).preview_scroll,
                self.focused_message == old(self).focused_message,
                self.expanded_messages@ == old(self).expanded_messages@,
                self.search_pending == old(self).search_pending,
                self.last_input == old(self).last_input,
                self.search_scope@ == old(self).search_scope@,
                self.launch_cwd == old(self).launch_cwd,
                self.should_quit == old(self).should_quit,
                self.should_resume == old(self).should_resume,
                self.should_copy == old(self).should_copy,
                self.pending_auto_scroll == old(self).pending_auto_scroll,
                self.preview_message_count == old(self).preview_message_count,
                self.message_line_ranges@ == old(self).message_line_ranges@,
                self.preview_area == old(self).preview_area,
                self.focused_message_expandable == old(self).focused_message_expandable,
                self.preview_scrollable == old(self).preview_scrollable,
            decreases messages@.len() - i,
        {
            proof {
                assert(messages@[i as int]@ == msv[i as int]);
                assert(msv.take(i + 1).drop_last() =~= msv.take(i as int));
                assert(msv.take(i + 1).last() == msv[i as int]);
            }
            match &messages[i] {
                IndexMsg::Progress { indexed, total } => {
                    self.status = Some(StatusLine::Indexing { indexed: *indexed, total: *total });
                    self.total_sessions = *indexed;
                },
                IndexMsg::NeedsReload => {
                    refresh = true;
                },
                IndexMsg::Done { total_sessions } => {
                    self.total_sessions = *total_sessions;
                    self.status = None;
                    self.indexing = false;
                    self.listening = false;
                    refresh = true;
                },
                IndexMsg::Error(e) => {
                    self.index_error = Some(e.clone());
                    self.status = Some(StatusLine::IndexFailed);
                    self.indexing = false;
                    self.listening = false;
                },
            }
            i = i + 1;
        }
        proof {
            assert(msv.take(msv.len() as int) =~= msv);
        }
        if disconnected && self.indexing {
            let dc: &str = "Indexer stopped unexpectedly (possible crash)";
            self.index_error = Some(dc.to_owned());
            self.status = Some(StatusLine::IndexFailed);
            self.indexing = false;
            self.listening = false;
        }
        if refresh {
            self.index.reload();
            let _ = self.search();
        }
    }

    /// Resets the preview to follow the newly selected result: scroll to the
    /// match, clear focus and expansions — expansion state never survives a
    /// change of the displayed session.
    fn update_preview_scroll(&mut self)
        ensures
            final(self).pending_auto_scroll,
            final(self).preview_scroll == 0,
            final(self).focused_message is None,
            final(self).expanded_messages@ == Set::<usize>::empty(),
            final(self).results@ == old(self).results@,
            final(self).selected == old(self).selected,
            final(self).list_scroll == old(self).list_scroll,
            final(self).query@ == old(self).query@,
            final(self).cursor == old(self).cursor,
            final(self).search_scope@ == old(self).search_scope@,
            final(self).reader() == old(self).reader(),
            final(self).committed() == old(self).committed(),
            final(self).pending() == old(self).pending(),
            final(self).last_input_time() == old(self).last_input_time(),
            final(self).should_quit == old(self).should_quit,
            final(self).indexing == old(self).indexing,
            final(self).listening == old(self).listening,
            App::unchanged_frame(*old(self), *final(self)),
    {
        self.pending_auto_scroll = true;
        self.preview_scroll = 0;
        self.focused_message = None;
        self.expanded_messages = HashSet::new();
    }

    /// Scrolls the preview up by `lines`, stopping at the top.
    pub fn scroll_preview_up(&mut self, lines: usize)
        ensures
            final(self).preview_scroll == (if old(self).preview_scroll >= lines {
                old(self).preview_scroll - lines
            } else {
                0int
            }),
    {
        if self.preview_scroll >= lines {
            self.preview_scroll = self.preview_scroll - lines;
        } else {
            self.preview_scroll = 0;
        }
    }

    /// Scrolls the preview down by `lines`, saturating at the maximum.
    pub fn scroll_preview_down(&mut self, lines: usize)
        ensures
            final(self).preview_scroll == (if old(self).preview_scroll + lines <= usize::MAX {
                old(self).preview_scroll + lines
            } else {
                usize::MAX as int
            }),
    {
        if self.preview_scroll <= usize::MAX - lines {
            self.preview_scroll = self.preview_scroll + lines;
        } else {
            self.preview_scroll = usize::MAX;
        }
    }

    /// The matched message of the selected result, or the first message.
    pub open spec fn matched_index(&self) -> int {
        if self.selected < self.results.deep_view().len() {
            self.results.deep_view()[self.selected as int].matched_message_index
        } else {
            0
        }
    }

    /// The message navigation currently starts from: the explicit focus, or
    /// the matched message.
    pub open spec fn focus_base(&self) -> int {
        match self.focused_message {
            Some(m) => m as int,
            None => self.matched_index(),
        }
    }

    fn current_focus(&self) -> (r: usize)
        requires
            self.focus_base() <= usize::MAX,
        ensures
            r as int == self.focus_base(),
    {
        match self.focused_message {
            Some(m) => m,
            None => {
                if self.selected < self.results.len() {
                    proof {
                        assert(self.results@[self.selected as int]@ == self.results.deep_view()[self.selected as int]);
                    }
                    self.results[self.selected].matched_message_index
                } else {
                    0
                }
            },
        }
    }

    /// Focuses the previous message, stopping at the first; a no-op without
    /// messages.
    pub fn focus_prev_message(&mut self)
        ensures
            old(self).preview_message_count == 0 ==> *final(self) == *old(self),
            old(self).preview_message_count > 0 && old(self).focus_base() > 0 ==> (final(self).focused_message matches Some(m) && m as int == old(self).focus_base() - 1) && final(self).pending_auto_scroll,
            old(self).preview_message_count > 0 && old(self).focus_base() <= 0 ==> *final(self)
                == *old(self),
    {
        if self.preview_message_count == 0 {
            return ;
        }
        let current = self.current_focus();
        if current > 0 {
            self.focused_message = Some(current - 1);
            self.pending_auto_scroll = true;
        }
    }

    /// Focuses the next message, stopping at the last; a no-op without
    /// messages.
    pub fn focus_next_message(&mut self)
        ensures
            old(self).preview_message_count == 0 ==> *final(self) == *old(self),
            old(self).preview_message_count > 0 && old(self).focus_base() + 1 < old(self).preview_message_count ==> (final(self).focused_message matches Some(m) && m as int
                == old(self).focus_base() + 1) && final(self).pending_auto_scroll,
            old(self).preview_message_count > 0 && old(self).focus_base() + 1 >= old(self).preview_message_count ==> *final(self) == *old(self),
    {
        if self.preview_message_count == 0 {
            return ;
        }
        let current = self.current_focus();
        if current < self.preview_message_count - 1 {
            self.focused_message = Some(current + 1);
            self.pending_auto_scroll = true;
        }
    }

    /// Toggles expansion of the focused message; a no-op without messages.
    pub fn toggle_focused_expansion(&mut self)
        ensures
            old(self).preview_message_count == 0 ==> *final(self) == *old(self),
            old(self).preview_message_count > 0 ==> {
                let f = old(self).focus_base();
                if old(self).expanded_messages@.contains(f as usize) {
                    final(self).expanded_messages@ == old(self).expanded_messages@.remove(
                        f as usize,
                    )
                } else {
                    final(self).expanded_messages@ == old(self).expanded_messages@.insert(
                        f as usize,
                    )
                }
            },
    {
        if self.preview_message_count == 0 {
            return ;
        }
        let focused = self.current_focus();
        if self.expanded_messages.contains(&focused) {
            self.expanded_messages.remove(&focused);
        } else {
            self.expanded_messages.insert(focused);
        }
    }

    /// The currently selected result, if any.
    pub fn selected_result(&self) -> (r: Option<&SearchResult>)
        ensures
            self.selected < self.results@.len() ==> (r matches Some(x) && x@
                == self.results.deep_view()[self.selected as int]),
            self.selected >= self.results@.len() ==> r is None,
    {
        if self.selected < self.results.len() {
            proof {
                assert(self.results@[self.selected as int]@ == self.results.deep_view()[self.selected as int]);
            }
            Some(&self.results[self.selected])
        } else {
            None
        }
    }


    /// The display name of the scope: the last path component of the scoped
    /// folder, or nothing when searching everything.
    pub fn scope_folder_name(&self) -> (r: Option<Vec<char>>)
        ensures
            self.search_scope@ == SearchScopeV::Everything ==> r is None,
            self.search_scope@ matches SearchScopeV::Folder(p) ==> (r matches Some(v) && v@
                == after_last_sep(p)),
    {
        match &self.search_scope {
            SearchScope::Everything => None,
            SearchScope::Folder(path) => {
                let cs = chars_of(path.as_str());
                Some(suffix_after_sep(&cs))
            },
        }
    }

    /// A compact display form of the scoped folder: the home prefix shrinks
    /// to `~`, and a long path shows only its last component.
    pub fn scope_display_path(&self, home: &Vec<char>) -> (r: Option<Vec<char>>)
        ensures
            self.search_scope@ == SearchScopeV::Everything ==> r is None,
            self.search_scope@ matches SearchScopeV::Folder(p) ==> (r matches Some(v) && v@
                == display_path_of(p, home@)),
    {
        match &self.search_scope {
            SearchScope::Everything => None,
            SearchScope::Folder(path) => {
                let cs = chars_of(path.as_str());
                let tilde = tilde_form(&cs, home);
                if tilde.len() <= SCOPE_PATH_MAX {
                    Some(tilde)
                } else {
                    let mut out: Vec<char> = Vec::new();
                    if tilde.len() > 0 && tilde[0] == '~' {
                        out.push('~');
                    }
                    out.push('/');
                    out.push('.');
                    out.push('.');
                    out.push('.');
                    out.push('/');
                    let last = suffix_after_sep(&cs);
                    let mut i: usize = 0;
                    let ghost base = out@;
                    while i < last.len()
                        invariant
                            i <= last@.len(),
                            out@ == base + last@.take(i as int),
                        decreases last@.len() - i,
                    {
                        out.push(last[i]);
                        proof {
                            assert(out@ =~= base + last@.take(i + 1));
                        }
                        i = i + 1;
                    }
                    proof {
                        assert(last@.take(last@.len() as int) =~= last@);
                        assert(out@ =~= display_path_of(path@, home@));
                    }
                    Some(out)
                }
            },
        }
    }

    /// Whether a click at (x, y) lands inside the preview viewport.
    pub open spec fn click_inside(&self, x: u16, y: u16) -> bool {
        let (px, py, pw, ph) = self.preview_area;
        px <= x < px + pw && py <= y < py + ph
    }

    /// The content line a click maps to: the viewport row plus the scroll
    /// offset.
    pub open spec fn clicked_line(&self, y: u16) -> int {
        let (px, py, pw, ph) = self.preview_area;
        y - py + self.preview_scroll
    }

    /// Maps a click in the preview to a message: a click outside the
    /// viewport is ignored; inside, the clicked content line is matched
    /// against the per-message line ranges (half-open); a line in a gap
    /// matches nothing.
    pub fn click_preview_message(&mut self, x: u16, y: u16) -> (r: bool)
        ensures
            !old(self).click_inside(x, y) ==> !r && *final(self) == *old(self),
            old(self).click_inside(x, y) ==> {
                let line = old(self).clicked_line(y);
                match line_hit(old(self).message_line_ranges@, line) {
                    Some(m) => r && (final(self).focused_message matches Some(fm) && fm as int
                        == m),
                    None => !r && *final(self) == *old(self),
                }
            },
    {
        let (px, py, pw, ph) = self.preview_area;
        if !(x >= px && (x - px) < pw && y >= py && (y - py) < ph) {
            return false;
        }
        proof {
            assert(old(self).click_inside(x, y));
        }
        let line: u128 = (y - py) as u128 + self.preview_scroll as u128;
        let ghost rs = self.message_line_ranges@;
        let mut m: usize = 0;
        while m < self.message_line_ranges.len()
            invariant
                old(self).click_inside(x, y),
                rs == self.message_line_ranges@,
                m <= rs.len(),
                line == old(self).clicked_line(y),
                *self == *old(self),
                forall|q: int| 0 <= q < m ==> !((#[trigger] rs[q]).0 <= line < rs[q].1),
            decreases rs.len() - m,
        {
            let (start, end) = self.message_line_ranges[m];
            if (start as u128) <= line && line < (end as u128) {
                proof {
                    lemma_line_hit_found(rs, line as int, m as int);
                }
                self.focused_message = Some(m);
                return true;
            }
            m = m + 1;
        }
        proof {
            lemma_line_hit_absent(rs, line as int);
        }
        false
    }
}


/// The aggregate outcome of consuming one drained batch of coordinator
/// messages.
#[verifier::ext_equal]
pub ghost struct PollV {
    pub status: Option<StatusLine>,
    pub total_sessions: usize,
    pub indexing: bool,
    pub listening: bool,
    pub error: Option<Seq<char>>,
    pub refresh: bool,
}

/// The characters of an optional string.
pub open spec fn opt_str_view(o: Option<String>) -> Option<Seq<char>> {
    match o {
        Some(s) => Some(s@),
        None => None,
    }
}

/// The error reported when the coordinator channel closes without a prior
/// completion or error message: abnormal coordinator termination.
pub open spec fn disconnect_error() -> Seq<char> {
    "Indexer stopped unexpectedly (possible crash)"@
}

/// How one coordinator message changes the aggregate: progress is advisory,
/// a reload hint or completion refreshes the view and re-runs the query, and
/// completion or an error stops listening.
pub open spec fn poll_step(st: PollV, m: IndexMsgV) -> PollV {
    match m {
        IndexMsgV::Progress { indexed, total } => PollV {
            status: Some(StatusLine::Indexing { indexed, total }),
            total_sessions: indexed,
            ..st
        },
        IndexMsgV::NeedsReload => PollV { refresh: true, ..st },
        IndexMsgV::Done { total_sessions } => PollV {
            status: None,
            total_sessions,
            indexing: false,
            listening: false,
            refresh: true,
            ..st
        },
        IndexMsgV::Error(e) => PollV {
            status: Some(StatusLine::IndexFailed),
            indexing: false,
            listening: false,
            error: Some(e),
            ..st
        },
    }
}

/// The aggregate after a whole batch, in arrival order.
pub open spec fn poll_fold(st: PollV, ms: Seq<IndexMsgV>) -> PollV
    decreases ms.len(),
{
    if ms.len() == 0 {
        st
    } else {
        poll_step(poll_fold(st, ms.drop_last()), ms.last())
    }
}

/// The batch outcome, with abnormal channel termination treated as an error
/// when indexing had not finished.
pub open spec fn poll_outcome(st: PollV, ms: Seq<IndexMsgV>, disconnected: bool) -> PollV {
    let r = poll_fold(st, ms);
    if disconnected && r.indexing {
        PollV {
            status: Some(StatusLine::IndexFailed),
            indexing: false,
            listening: false,
            error: Some(disconnect_error()),
            ..r
        }
    } else {
        r
    }
}


/// A long scope path is shortened past this many characters.
pub const SCOPE_PATH_MAX: usize = 25;

/// The characters after the last path separator; the whole text when none
/// occurs, empty when the text ends with one.
pub open spec fn after_last_sep(p: Seq<char>) -> Seq<char>
    decreases p.len(),
{
    if p.len() == 0 {
        p
    } else if p.last() == '/' {
        Seq::empty()
    } else {
        after_last_sep(p.drop_last()).push(p.last())
    }
}

/// The path with a home-directory prefix collapsed to `~`.
pub open spec fn tilde_form_of(p: Seq<char>, home: Seq<char>) -> Seq<char> {
    if home.len() > 0 && home.len() <= p.len() && p.take(home.len() as int) == home {
        seq!['~'] + p.skip(home.len() as int)
    } else {
        p
    }
}

/// The compact display form: the tilde form when short enough, else the
/// (possibly tilde) prefix, an ellipsis, and the last path component.
pub open spec fn display_path_of(p: Seq<char>, home: Seq<char>) -> Seq<char> {
    let dp = tilde_form_of(p, home);
    if dp.len() <= SCOPE_PATH_MAX {
        dp
    } else {
        let prefix = if dp.len() > 0 && dp[0] == '~' {
            seq!['~']
        } else {
            Seq::<char>::empty()
        };
        prefix + seq!['/', '.', '.', '.', '/'] + after_last_sep(p)
    }
}

/// Computes [`after_last_sep`] over a character vector.
fn suffix_after_sep(p: &Vec<char>) -> (r: Vec<char>)
    ensures
        r@ == after_last_sep(p@),
{
    let mut cur: Vec<char> = Vec::new();
    let mut i: usize = 0;
    proof {
        assert(cur@ =~= after_last_sep(p@.take(0)));
    }
    while i < p.len()
        invariant
            i <= p@.len(),
            cur@ == after_last_sep(p@.take(i as int)),
        decreases p@.len() - i,
    {
        proof {
            assert(p@.take(i + 1).drop_last() =~= p@.take(i as int));
            assert(p@.take(i + 1).last() == p@[i as int]);
        }
        if p[i] == '/' {
            cur = Vec::new();
            proof {
                assert(cur@ =~= after_last_sep(p@.take(i + 1)));
            }
        } else {
            cur.push(p[i]);
        }
        i = i + 1;
    }
    proof {
        assert(p@.take(p@.len() as int) =~= p@);
    }
    cur
}

/// Whether `home` is a character prefix of `p`.
fn is_char_prefix(p: &Vec<char>, home: &Vec<char>) -> (r: bool)
    requires
        home@.len() <= p@.len(),
    ensures
        r == (p@.take(home@.len() as int) == home@),
{
    let mut i: usize = 0;
    while i < home.len()
        invariant
            home@.len() <= p@.len(),
            i <= home@.len(),
            forall|q: int| 0 <= q < i ==> p@[q] == home@[q],
        decreases home@.len() - i,
    {
        if !(p[i] == home[i]) {
            proof {
                assert(p@.take(home@.len() as int)[i as int] == p@[i as int]);
            }
            return false;
        }
        i = i + 1;
    }
    proof {
        assert(p@.take(home@.len() as int) =~= home@);
    }
    true
}

/// Computes [`tilde_form_of`] over character vectors.
fn tilde_form(p: &Vec<char>, home: &Vec<char>) -> (r: Vec<char>)
    ensures
        r@ == tilde_form_of(p@, home@),
{
    let is_prefix = home.len() > 0 && home.len() <= p.len() && is_char_prefix(p, home);
    if is_prefix {
        let mut out: Vec<char> = Vec::new();
        out.push('~');
        let mut i: usize = home.len();
        let ghost base = out@;
        while i < p.len()
            invariant
                home@.len() <= i <= p@.len(),
                base == seq!['~'],
                out@ == base + p@.subrange(home@.len() as int, i as int),
            decreases p@.len() - i,
        {
            out.push(p[i]);
            proof {
                assert(out@ =~= base + p@.subrange(home@.len() as int, i + 1));
            }
            i = i + 1;
        }
        proof {
            assert(out@ =~= tilde_form_of(p@, home@));
        }
        out
    } else {
        let mut out: Vec<char> = Vec::new();
        let mut i: usize = 0;
        while i < p.len()
            invariant
                i <= p@.len(),
                out@ == p@.take(i as int),
            decreases p@.len() - i,
        {
            out.push(p[i]);
            proof {
                assert(out@ =~= p@.take(i + 1));
            }
            i = i + 1;
        }
        proof {
            assert(out@ =~= p@);
            assert(out@ =~= tilde_form_of(p@, home@));
        }
        out
    }
}

/// The first message whose half-open line range contains `line`.
pub open spec fn line_hit(ranges: Seq<(usize, usize)>, line: int) -> Option<int>
    decreases ranges.len(),
{
    if ranges.len() == 0 {
        None
    } else if ranges[0].0 <= line < ranges[0].1 {
        Some(0int)
    } else {
        match line_hit(ranges.drop_first(), line) {
            Some(m) => Some(m + 1),
            None => None,
        }
    }
}

proof fn lemma_line_hit_found(ranges: Seq<(usize, usize)>, line: int, m: int)
    requires
        0 <= m < ranges.len(),
        ranges[m].0 <= line < ranges[m].1,
        forall|q: int| 0 <= q < m ==> !((#[trigger] ranges[q]).0 <= line < ranges[q].1),
    ensures
        line_hit(ranges, line) == Some(m),
    decreases ranges.len(),
{
    if m > 0 {
        lemma_line_hit_found(ranges.drop_first(), line, m - 1);
    }
}

proof fn lemma_line_hit_absent(ranges: Seq<(usize, usize)>, line: int)
    requires
        forall|q: int| 0 <= q < ranges.len() ==> !((#[trigger] ranges[q]).0 <= line < ranges[q].1),
    ensures
        line_hit(ranges, line) is None,
    decreases ranges.len(),
{
    if ranges.len() > 0 {
        lemma_line_hit_absent(ranges.drop_first(), line);
    }
}

/// An everything scope keeps every result.
pub proof fn lemma_filter_everything(rs: Seq<SearchResultV>)
    ensures
        filter_scope(rs, SearchScopeV::Everything) == rs,
    decreases rs.len(),
{
    if rs.len() > 0 {
        lemma_filter_everything(rs.drop_last());
        assert(filter_scope(rs, SearchScopeV::Everything) =~= rs);
    }
}

/// Scoping to a folder keeps exactly the results launched from it: every
/// survivor's working directory is the folder, and the scoped count never
/// exceeds the unscoped count.
pub proof fn lemma_scope_filter(rs: Seq<SearchResultV>, f: Seq<char>)
    ensures
        filter_scope(rs, SearchScopeV::Folder(f)).len() <= rs.len(),
        forall|j: int| 0 <= j < filter_scope(rs, SearchScopeV::Folder(f)).len()
            ==> (#[trigger] filter_scope(rs, SearchScopeV::Folder(f))[j]).session.cwd == f,
        filter_scope(rs, SearchScopeV::Everything) == rs,
    decreases rs.len(),
{
    lemma_filter_everything(rs);
    if rs.len() > 0 {
        lemma_scope_filter(rs.drop_last(), f);
        let pre = filter_scope(rs.drop_last(), SearchScopeV::Folder(f));
        let s = filter_scope(rs, SearchScopeV::Folder(f));
        assert forall|j: int| 0 <= j < s.len() implies (#[trigger] s[j]).session.cwd == f by {
            if j < pre.len() {
                assert(s[j] == pre[j]);
            }
        }
    }
}

proof fn lemma_find_pos_found(rs: Seq<SearchResultV>, id: Seq<char>, p: int)
    requires
        0 <= p < rs.len(),
        rs[p].session.id == id,
        forall|q: int| 0 <= q < p ==> (#[trigger] rs[q]).session.id != id,
    ensures
        find_pos(rs, id) == Some(p),
    decreases rs.len(),
{
    if p > 0 {
        lemma_find_pos_found(rs.drop_first(), id, p - 1);
    }
}

proof fn lemma_find_pos_absent(rs: Seq<SearchResultV>, id: Seq<char>)
    requires
        forall|q: int| 0 <= q < rs.len() ==> (#[trigger] rs[q]).session.id != id,
    ensures
        find_pos(rs, id) is None,
    decreases rs.len(),
{
    if rs.len() > 0 {
        lemma_find_pos_absent(rs.drop_first(), id);
    }
}

} // verus!
