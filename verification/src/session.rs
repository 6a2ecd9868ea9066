//! Domain data: sessions, messages and search results, with the mathematical
//! views that the library's contracts are stated over.

use vstd::prelude::*;

verus! {

/// Which assistant tool produced a session log.
#[derive(Clone, Copy, Debug, PartialEq, Eq, Structural, Hash)]
pub enum SessionSource {
    Chat,
    Codex,
}

/// Who authored a message within a session.
#[derive(Clone, Copy, Debug, PartialEq, Eq, Structural, Hash)]
pub enum Role {
    User,
    Assistant,
    System,
}

/// One message of a session. Its position within the owning session is a
/// stable identity used for navigation and expansion.
#[derive(Debug)]
pub struct Message {
    pub role: Role,
    pub content: Vec<char>,
}

/// Mathematical view of a [`Message`].
#[verifier::ext_equal]
pub ghost struct MessageV {
    pub role: Role,
    pub content: Seq<char>,
}

impl View for Message {
    type V = MessageV;

    open spec fn view(&self) -> MessageV {
        MessageV { role: self.role, content: self.content@ }
    }
}

impl DeepView for Message {
    type V = MessageV;

    open spec fn deep_view(&self) -> MessageV {
        self.view()
    }
}

/// One recorded assistant conversation, immutable once parsed.
#[derive(Debug)]
pub struct Session {
    /// Unique identifier.
    pub id: String,
    /// Which tool wrote the log.
    pub source: SessionSource,
    /// Working directory the session was launched from.
    pub cwd: String,
    /// Unix timestamp (seconds) of the session.
    pub timestamp: i64,
    /// Absolute path of the on-disk log file.
    pub file_path: String,
    /// The conversation, in order.
    pub messages: Vec<Message>,
}

/// Mathematical view of a [`Session`].
#[verifier::ext_equal]
pub ghost struct SessionV {
    pub id: Seq<char>,
    pub source: SessionSource,
    pub cwd: Seq<char>,
    pub timestamp: int,
    pub file_path: Seq<char>,
    pub messages: Seq<MessageV>,
}

impl View for Session {
    type V = SessionV;

    open spec fn view(&self) -> SessionV {
        SessionV {
            id: self.id@,
            source: self.source,
            cwd: self.cwd@,
            timestamp: self.timestamp as int,
            file_path: self.file_path@,
            messages: self.messages.deep_view(),
        }
    }
}

impl DeepView for Session {
    type V = SessionV;

    open spec fn deep_view(&self) -> SessionV {
        self.view()
    }
}

impl Message {
    /// Field-for-field copy; the result's view equals the original's.
    pub fn duplicate(&self) -> (r: Message)
        ensures
            r@ == self@,
    {
        let content = self.content.clone();
        proof {
            assert(content@ =~= self.content@);
        }
        Message { role: self.role, content }
    }
}

impl Session {
    /// Field-for-field copy; the result's view equals the original's.
    pub fn duplicate(&self) -> (r: Session)
        ensures
            r@ == self@,
    {
        let mut messages: Vec<Message> = Vec::new();
        let mut i: usize = 0;
        while i < self.messages.len()
            invariant
                i <= self.messages.len(),
                messages@.len() == i,
                forall|j: int| 0 <= j < i ==> #[trigger] messages@[j]@ == self.messages@[j]@,
            decreases self.messages.len() - i,
        {
            let m = self.messages[i].duplicate();
            messages.push(m);
            i = i + 1;
        }
        proof {
            assert(messages.deep_view() =~= self.messages.deep_view());
        }
        let r = Session {
            id: self.id.clone(),
            source: self.source,
            cwd: self.cwd.clone(),
            timestamp: self.timestamp,
            file_path: self.file_path.clone(),
            messages,
        };
        proof {
            assert(r@ =~~= self@);
        }
        r
    }
}

impl Session {
    /// The command line that resumes this session in its tool.
    pub fn resume_command(&self) -> (r: (String, Vec<String>))
        ensures
            self.source == SessionSource::Chat ==> r.0@ == "chat"@ && r.1.deep_view()
                =~= seq!["--resume"@, self@.id],
            self.source == SessionSource::Codex ==> r.0@ == "codex"@ && r.1.deep_view()
                =~= seq!["resume"@, self@.id],
    {
        match self.source {
            SessionSource::Chat => {
                let flag: &str = "--resume";
                let cmd: &str = "chat";
                let mut args: Vec<String> = Vec::new();
                args.push(flag.to_owned());
                args.push(self.id.clone());
                proof {
                    assert(args.deep_view() =~= seq!["--resume"@, self@.id]);
                }
                (cmd.to_owned(), args)
            },
            SessionSource::Codex => {
                let sub: &str = "resume";
                let cmd: &str = "codex";
                let mut args: Vec<String> = Vec::new();
                args.push(sub.to_owned());
                args.push(self.id.clone());
                proof {
                    assert(args.deep_view() =~= seq!["resume"@, self@.id]);
                }
                (cmd.to_owned(), args)
            },
        }
    }
}

/// One hit returned by a query: the session, which of its messages matched,
/// and the engine-assigned relevance score.
#[derive(Debug)]
pub struct SearchResult {
    pub session: Session,
    /// Index of the best-matching message within the session.
    pub matched_message_index: usize,
    /// Relevance score; results come ordered by it, descending.
    pub score: u128,
}

/// Mathematical view of a [`SearchResult`].
#[verifier::ext_equal]
pub ghost struct SearchResultV {
    pub session: SessionV,
    pub matched_message_index: int,
    pub score: int,
}

impl View for SearchResult {
    type V = SearchResultV;

    open spec fn view(&self) -> SearchResultV {
        SearchResultV {
            session: self.session@,
            matched_message_index: self.matched_message_index as int,
            score: self.score as int,
        }
    }
}

impl DeepView for SearchResult {
    type V = SearchResultV;

    open spec fn deep_view(&self) -> SearchResultV {
        self.view()
    }
}

impl SearchResult {
    /// The file path of the result's session.
    pub fn file_path_of_session(&self) -> (r: String)
        ensures
            r@ == self@.session.file_path,
    {
        self.session.file_path.clone()
    }

    /// Field-for-field copy; the result's view equals the original's.
    pub fn duplicate(&self) -> (r: SearchResult)
        ensures
            r@ == self@,
    {
        SearchResult {
            session: self.session.duplicate(),
            matched_message_index: self.matched_message_index,
            score: self.score,
        }
    }
}

} // verus!
