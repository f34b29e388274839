//! A conversation transcript: its turns, the reply being streamed into,
//! the "working on it" line, and whether new text pulls the view down.
//!
//! Scrolling and measuring belong to the host; the transcript only learns
//! whether the reader is at the bottom.

use vstd::prelude::*;

verus! {

/// Who produced a turn.
#[derive(Debug, Clone, Copy, PartialEq, Eq, Structural)]
pub enum AIRole {
    /// The person typing.
    User,
    /// The model.
    Assistant,
    /// Instructions the conversation runs under.
    System,
    /// The result handed back from a tool.
    Tool,
}

impl AIRole {
    /// The name shown above the turn.
    pub fn label(self) -> (r: &'static str)
        ensures
            r@ == match self {
                AIRole::User => "You"@,
                AIRole::Assistant => "Assistant"@,
                AIRole::System => "System"@,
                AIRole::Tool => "Tool"@,
            },
    {
        match self {
            AIRole::User => "You",
            AIRole::Assistant => "Assistant",
            AIRole::System => "System",
            AIRole::Tool => "Tool",
        }
    }
}

impl Default for AIRole {
    fn default() -> (r: AIRole)
        ensures
            r == AIRole::User,
    {
        AIRole::User
    }
}

/// Where a tool call has got to.
#[derive(Debug, Clone, Copy, PartialEq, Eq, Structural)]
pub enum AIToolStatus {
    /// Requested by the model, not started.
    Pending,
    /// In flight.
    Running,
    /// Returned successfully.
    Done,
    /// Returned an error, or never returned.
    Error,
}

impl AIToolStatus {
    pub fn label(self) -> (r: &'static str)
        ensures
            r@ == match self {
                AIToolStatus::Pending => "queued"@,
                AIToolStatus::Running => "running"@,
                AIToolStatus::Done => "done"@,
                AIToolStatus::Error => "failed"@,
            },
    {
        match self {
            AIToolStatus::Pending => "queued",
            AIToolStatus::Running => "running",
            AIToolStatus::Done => "done",
            AIToolStatus::Error => "failed",
        }
    }
}

impl Default for AIToolStatus {
    fn default() -> (r: AIToolStatus)
        ensures
            r == AIToolStatus::Pending,
    {
        AIToolStatus::Pending
    }
}

/// One source, as cited.
#[derive(Debug)]
pub struct AISource {
    /// What to show: a page title, a filename.
    pub title: String,
    /// Where it came from — a URL, a path. Shown as the subtitle.
    pub location: String,
    /// The passage the model drew on, if the provider returned one.
    pub excerpt: Option<String>,
}

impl AISource {
    pub fn new(title: &str, location: &str) -> (r: AISource)
        ensures
            r.title@ == title@,
            r.location@ == location@,
            r.excerpt is None,
    {
        AISource { title: title.to_string(), location: location.to_string(), excerpt: None }
    }

    pub fn excerpt(self, excerpt: &str) -> (r: AISource)
        ensures
            r.title == self.title,
            r.location == self.location,
            r.excerpt matches Some(e) && e@ == excerpt@,
    {
        AISource { excerpt: Some(excerpt.to_string()), ..self }
    }
}

/// One tool invocation inside a turn.
#[derive(Debug)]
pub struct AITurnTool {
    pub name: String,
    pub status: AIToolStatus,
    pub arguments: Option<String>,
    pub result: Option<String>,
    pub meta: Option<String>,
    /// Whether the card is expanded; owned here so scrolling away and back
    /// does not reset it.
    pub open: bool,
}

impl AITurnTool {
    pub fn new(name: &str) -> (r: AITurnTool)
        ensures
            r.name@ == name@,
            r.status == AIToolStatus::Pending,
            r.arguments is None,
            r.result is None,
            r.meta is None,
            !r.open,
    {
        AITurnTool {
            name: name.to_string(),
            status: AIToolStatus::Pending,
            arguments: None,
            result: None,
            meta: None,
            open: false,
        }
    }

    pub fn status(self, status: AIToolStatus) -> (r: AITurnTool)
        ensures
            r == (AITurnTool { status, ..self }),
    {
        AITurnTool { status, ..self }
    }

    pub fn arguments(self, arguments: &str) -> (r: AITurnTool)
        ensures
            r == (AITurnTool { arguments: r.arguments, ..self }),
            r.arguments matches Some(a) && a@ == arguments@,
    {
        AITurnTool { arguments: Some(arguments.to_string()), ..self }
    }

    pub fn result(self, result: &str) -> (r: AITurnTool)
        ensures
            r == (AITurnTool { result: r.result, ..self }),
            r.result matches Some(a) && a@ == result@,
    {
        AITurnTool { result: Some(result.to_string()), ..self }
    }
}

/// One turn of the conversation.
#[derive(Debug)]
pub struct AITurn {
    pub role: AIRole,
    pub body: String,
    /// Extended-thinking output, folded away by default.
    pub reasoning: Option<String>,
    pub reasoning_open: bool,
    pub tools: Vec<AITurnTool>,
    pub sources: Vec<AISource>,
    /// Still being written to.
    pub streaming: bool,
    /// The turn failed; the text stays and this is shown under it.
    pub error: Option<String>,
    /// Overrides the role's name in the header — a model id, say.
    pub name: Option<String>,
    /// Trailing header detail: a timestamp, a token count.
    pub meta: Option<String>,
}

/// A fresh turn by `role` saying `body`: no reasoning, tools or sources,
/// not streaming, no error, no name or detail.
pub open spec fn fresh_turn(t: AITurn, role: AIRole, body: Seq<char>) -> bool {
    &&& t.role == role
    &&& t.body@ == body
    &&& t.reasoning is None
    &&& !t.reasoning_open
    &&& t.tools@.len() == 0
    &&& t.sources@.len() == 0
    &&& !t.streaming
    &&& t.error is None
    &&& t.name is None
    &&& t.meta is None
}

impl AITurn {
    pub fn new(role: AIRole, body: &str) -> (r: AITurn)
        ensures
            fresh_turn(r, role, body@),
    {
        AITurn {
            role,
            body: body.to_string(),
            reasoning: None,
            reasoning_open: false,
            tools: Vec::new(),
            sources: Vec::new(),
            streaming: false,
            error: None,
            name: None,
            meta: None,
        }
    }

    pub fn user(body: &str) -> (r: AITurn)
        ensures
            fresh_turn(r, AIRole::User, body@),
    {
        AITurn::new(AIRole::User, body)
    }

    pub fn assistant(body: &str) -> (r: AITurn)
        ensures
            fresh_turn(r, AIRole::Assistant, body@),
    {
        AITurn::new(AIRole::Assistant, body)
    }

    pub fn system(body: &str) -> (r: AITurn)
        ensures
            fresh_turn(r, AIRole::System, body@),
    {
        AITurn::new(AIRole::System, body)
    }

    pub fn name(self, name: &str) -> (r: AITurn)
        ensures
            r == (AITurn { name: r.name, ..self }),
            r.name matches Some(n) && n@ == name@,
    {
        AITurn { name: Some(name.to_string()), ..self }
    }

    pub fn meta(self, meta: &str) -> (r: AITurn)
        ensures
            r == (AITurn { meta: r.meta, ..self }),
            r.meta matches Some(m) && m@ == meta@,
    {
        AITurn { meta: Some(meta.to_string()), ..self }
    }

    pub fn reasoning(self, reasoning: &str) -> (r: AITurn)
        ensures
            r == (AITurn { reasoning: r.reasoning, ..self }),
            r.reasoning matches Some(m) && m@ == reasoning@,
    {
        AITurn { reasoning: Some(reasoning.to_string()), ..self }
    }

    pub fn sources(self, sources: Vec<AISource>) -> (r: AITurn)
        ensures
            r == (AITurn { sources, ..self }),
    {
        AITurn { sources, ..self }
    }

    pub fn tools(self, tools: Vec<AITurnTool>) -> (r: AITurn)
        ensures
            r == (AITurn { tools, ..self }),
    {
        AITurn { tools, ..self }
    }
}

/// The position of the last turn still being written to, or `-1`.
pub open spec fn streaming_index(turns: Seq<AITurn>) -> int
    decreases turns.len(),
{
    if turns.len() == 0 {
        -1
    } else if turns.last().streaming {
        turns.len() - 1
    } else {
        streaming_index(turns.drop_last())
    }
}

proof fn lemma_streaming_index(turns: Seq<AITurn>)
    ensures
        -1 <= streaming_index(turns) < turns.len(),
        streaming_index(turns) >= 0 ==> turns[streaming_index(turns)].streaming,
        forall|j: int| streaming_index(turns) < j < turns.len() ==> !(#[trigger] turns[j]).streaming,
    decreases turns.len(),
{
    if turns.len() > 0 && !turns.last().streaming {
        lemma_streaming_index(turns.drop_last());
        assert forall|j: int| streaming_index(turns) < j < turns.len() implies !(#[trigger] turns[j]).streaming by {
            if j < turns.len() - 1 {
                assert(turns.drop_last()[j] == turns[j]);
            }
        }
    }
}

/// Whether `new` is `old` with only the open turn changed, as `changed`
/// relates its old and new values; with no turn open, nothing changes.
pub open spec fn open_turn_edited(
    old: Seq<AITurn>,
    new: Seq<AITurn>,
    changed: spec_fn(AITurn, AITurn) -> bool,
) -> bool {
    let i = streaming_index(old);
    if i < 0 {
        new == old
    } else {
        &&& new.len() == old.len()
        &&& forall|j: int| 0 <= j < old.len() && j != i ==> #[trigger] new[j] == old[j]
        &&& changed(old[i], new[i])
    }
}

/// The open turn's text grew by `delta`.
pub open spec fn body_grew(delta: Seq<char>) -> spec_fn(AITurn, AITurn) -> bool {
    |a: AITurn, b: AITurn| b == (AITurn { body: b.body, ..a }) && b.body@ == a.body@ + delta
}

/// The open turn's reasoning grew by `delta`, starting from nothing when it
/// had none.
pub open spec fn reasoning_grew(delta: Seq<char>) -> spec_fn(AITurn, AITurn) -> bool {
    |a: AITurn, b: AITurn|
        b == (AITurn { reasoning: b.reasoning, ..a }) && (b.reasoning matches Some(r) && r@ == match a.reasoning {
            Some(p) => p@ + delta,
            None => delta,
        })
}

/// The open turn stopped streaming.
pub open spec fn closed() -> spec_fn(AITurn, AITurn) -> bool {
    |a: AITurn, b: AITurn| b == (AITurn { streaming: false, ..a })
}

/// The open turn stopped streaming with `error`, keeping its text.
pub open spec fn closed_with(error: Seq<char>) -> spec_fn(AITurn, AITurn) -> bool {
    |a: AITurn, b: AITurn|
        b == (AITurn { streaming: false, error: b.error, ..a }) && (b.error matches Some(e) && e@ == error)
}

/// The transcript, by value.
pub struct ChatView {
    pub turns: Seq<AITurn>,
    pub follow: bool,
    pub pending: Option<Seq<char>>,
}

/// A scrolling conversation's state: its turns, whether new text pulls the
/// view down, and the line shown while waiting for the first token.
pub struct AIChatView {
    turns: Vec<AITurn>,
    /// Cleared when the reader scrolls up, restored when they return to the
    /// bottom or send.
    follow: bool,
    pending: Option<String>,
}

impl View for AIChatView {
    type V = ChatView;

    closed spec fn view(&self) -> ChatView {
        ChatView {
            turns: self.turns@,
            follow: self.follow,
            pending: match self.pending {
                Some(p) => Some(p@),
                None => None,
            },
        }
    }
}

impl AIChatView {
    /// An empty transcript, following, with nothing pending.
    pub fn new() -> (r: AIChatView)
        ensures
            r@.turns.len() == 0,
            r@.follow,
            r@.pending is None,
    {
        AIChatView { turns: Vec::new(), follow: true, pending: None }
    }

    /// Seed the transcript — restoring a saved conversation.
    pub fn turns(self, turns: Vec<AITurn>) -> (r: AIChatView)
        ensures
            r@ == (ChatView { turns: turns@, ..self@ }),
    {
        AIChatView { turns, ..self }
    }

    pub fn turn_count(&self) -> (r: usize)
        ensures
            r == self@.turns.len(),
    {
        self.turns.len()
    }

    pub fn all(&self) -> (r: &[AITurn])
        ensures
            r@ == self@.turns,
    {
        self.turns.as_slice()
    }

    pub fn turn(&self, index: usize) -> (r: Option<&AITurn>)
        ensures
            match r {
                Some(t) => index < self@.turns.len() && *t == self@.turns[index as int],
                None => index >= self@.turns.len(),
            },
    {
        if index < self.turns.len() {
            Some(&self.turns[index])
        } else {
            None
        }
    }

    /// Edit a turn in place — attaching a tool result, marking an error. A
    /// turn that is not there is left alone.
    pub fn update_turn<F: FnOnce(AITurn) -> AITurn>(&mut self, index: usize, edit: F)
        requires
            index < old(self)@.turns.len() ==> edit.requires((old(self)@.turns[index as int],)),
        ensures
            index >= old(self)@.turns.len() ==> final(self)@ == old(self)@,
            index < old(self)@.turns.len() ==> exists|t: AITurn|
                #[trigger] edit.ensures((old(self)@.turns[index as int],), t) && final(self)@ == (ChatView {
                    turns: old(self)@.turns.update(index as int, t),
                    ..old(self)@
                }),
    {
        if index < self.turns.len() {
            let turn = self.turns.remove(index);
            let edited = edit(turn);
            let ghost seen = edited;
            self.turns.insert(index, edited);
            assert(self.turns@ =~= old(self)@.turns.update(index as int, seen));
        }
    }

    /// Append a turn and return its index. Sending always re-attaches the
    /// view to the bottom: the user just acted, so they want to see the
    /// result.
    pub fn push(&mut self, turn: AITurn) -> (r: usize)
        requires
            old(self)@.turns.len() < usize::MAX,
        ensures
            final(self)@ == (ChatView { turns: old(self)@.turns.push(turn), follow: true, ..old(self)@ }),
            r == old(self)@.turns.len(),
    {
        self.turns.push(turn);
        self.follow = true;
        self.turns.len() - 1
    }

    /// Open an empty assistant turn to stream into, and return its index.
    pub fn begin_reply(&mut self) -> (r: usize)
        requires
            old(self)@.turns.len() < usize::MAX,
        ensures
            final(self)@.turns.len() == old(self)@.turns.len() + 1,
            final(self)@.turns.take(old(self)@.turns.len() as int) == old(self)@.turns,
            ({
                let t = final(self)@.turns.last();
                &&& t == (AITurn { streaming: true, ..t })
                &&& fresh_turn(AITurn { streaming: false, ..t }, AIRole::Assistant, Seq::empty())
            }),
            final(self)@.follow,
            final(self)@.pending is None,
            r == old(self)@.turns.len(),
    {
        proof {
            reveal_strlit("");
            assert(""@ =~= Seq::<char>::empty());
        }
        let mut turn = AITurn::assistant("");
        turn.streaming = true;
        self.pending = None;
        let r = self.push(turn);
        assert(self@.turns.take(old(self)@.turns.len() as int) =~= old(self)@.turns);
        r
    }

    /// Append to the open assistant turn. Does nothing if none is open, so
    /// a late-arriving delta after a cancel cannot resurrect a finished turn.
    pub fn push_delta(&mut self, delta: &str)
        ensures
            open_turn_edited(old(self)@.turns, final(self)@.turns, body_grew(delta@)),
            final(self)@.follow == old(self)@.follow,
            final(self)@.pending == old(self)@.pending,
    {
        match self.streaming_turn() {
            Some(i) => {
                let mut turn = self.turns.remove(i);
                turn.body.append(delta);
                let ghost seen = turn;
                self.turns.insert(i, turn);
                assert(self.turns@ =~= old(self)@.turns.update(i as int, seen));
            },
            None => {},
        }
    }

    /// Append to the open turn's reasoning block.
    pub fn push_reasoning(&mut self, delta: &str)
        ensures
            open_turn_edited(old(self)@.turns, final(self)@.turns, reasoning_grew(delta@)),
            final(self)@.follow == old(self)@.follow,
            final(self)@.pending == old(self)@.pending,
    {
        match self.streaming_turn() {
            Some(i) => {
                let mut turn = self.turns.remove(i);
                let grown = match turn.reasoning {
                    Some(mut text) => {
                        text.append(delta);
                        text
                    },
                    None => delta.to_string(),
                };
                turn.reasoning = Some(grown);
                let ghost seen = turn;
                self.turns.insert(i, turn);
                assert(self.turns@ =~= old(self)@.turns.update(i as int, seen));
            },
            None => {},
        }
    }

    /// Close the open assistant turn.
    pub fn end_reply(&mut self)
        ensures
            open_turn_edited(old(self)@.turns, final(self)@.turns, closed()),
            final(self)@.follow == old(self)@.follow,
            final(self)@.pending == old(self)@.pending,
    {
        match self.streaming_turn() {
            Some(i) => {
                let mut turn = self.turns.remove(i);
                turn.streaming = false;
                let ghost seen = turn;
                self.turns.insert(i, turn);
                assert(self.turns@ =~= old(self)@.turns.update(i as int, seen));
            },
            None => {},
        }
    }

    /// Close the open turn with a failure. Whatever text arrived is kept —
    /// a truncated reply is still evidence of what went wrong.
    pub fn fail_reply(&mut self, error: &str)
        ensures
            open_turn_edited(old(self)@.turns, final(self)@.turns, closed_with(error@)),
            final(self)@.follow == old(self)@.follow,
            final(self)@.pending == old(self)@.pending,
    {
        match self.streaming_turn() {
            Some(i) => {
                let mut turn = self.turns.remove(i);
                turn.streaming = false;
                turn.error = Some(error.to_string());
                let ghost seen = turn;
                self.turns.insert(i, turn);
                assert(self.turns@ =~= old(self)@.turns.update(i as int, seen));
            },
            None => {},
        }
    }

    /// Show a "working on it" line under the transcript, or none.
    pub fn set_pending(&mut self, label: Option<&str>)
        ensures
            final(self)@ == (ChatView {
                pending: match label {
                    Some(l) => Some(l@),
                    None => None,
                },
                follow: true,
                ..old(self)@
            }),
    {
        self.pending = match label {
            Some(l) => Some(l.to_string()),
            None => None,
        };
        self.follow = true;
    }

    /// The "working on it" line, if one is showing.
    pub fn pending(&self) -> (r: Option<&str>)
        ensures
            match r {
                Some(l) => self@.pending == Some(l@),
                None => self@.pending is None,
            },
    {
        match &self.pending {
            Some(l) => Some(l.as_str()),
            None => None,
        }
    }

    /// Drop every turn.
    pub fn clear(&mut self)
        ensures
            final(self)@.turns.len() == 0,
            final(self)@.pending is None,
            final(self)@.follow,
    {
        self.turns = Vec::new();
        self.pending = None;
        self.follow = true;
    }

    /// Re-attach to the bottom.
    pub fn scroll_to_bottom(&mut self)
        ensures
            final(self)@ == (ChatView { follow: true, ..old(self)@ }),
    {
        self.follow = true;
    }

    /// Record whether the reader is at the bottom, as the host measured it
    /// after a scroll.
    pub fn set_following(&mut self, at_bottom: bool)
        ensures
            final(self)@ == (ChatView { follow: at_bottom, ..old(self)@ }),
    {
        self.follow = at_bottom;
    }

    /// Whether new text is currently pulling the view down.
    pub fn is_following(&self) -> (r: bool)
        ensures
            r == self@.follow,
    {
        self.follow
    }

    /// The position of the open turn, if one is open.
    fn streaming_turn(&self) -> (r: Option<usize>)
        ensures
            match r {
                Some(i) => i == streaming_index(self@.turns) && i < self@.turns.len(),
                None => streaming_index(self@.turns) < 0,
            },
    {
        let mut i = self.turns.len();
        assert(self@.turns.take(i as int) =~= self@.turns);
        while i > 0
            invariant
                i <= self@.turns.len(),
                streaming_index(self@.turns) == streaming_index(self@.turns.take(i as int)),
            decreases i,
        {
            let ghost prefix = self@.turns.take(i as int);
            assert(prefix.drop_last() =~= self@.turns.take(i - 1));
            assert(prefix.last() == self@.turns[i - 1]);
            if self.turns[i - 1].streaming {
                return Some(i - 1);
            }
            i = i - 1;
        }
        None
    }
}

impl Default for AIChatView {
    fn default() -> (r: AIChatView)
        ensures
            r@.turns.len() == 0,
            r@.follow,
            r@.pending is None,
    {
        AIChatView::new()
    }
}

/// Once the only open turn is closed, no turn is open: a delta that lands
/// after a cancel changes nothing.
pub proof fn law_closed_reply_takes_no_delta(
    old: Seq<AITurn>,
    ended: Seq<AITurn>,
    after: Seq<AITurn>,
    delta: Seq<char>,
)
    requires
        forall|j: int| 0 <= j < old.len() && j != streaming_index(old) ==> !(#[trigger] old[j]).streaming,
        open_turn_edited(old, ended, closed()),
        open_turn_edited(ended, after, body_grew(delta)),
    ensures
        after == ended,
{
    lemma_streaming_index(old);
    let i = streaming_index(old);
    if i >= 0 {
        assert forall|j: int| 0 <= j < ended.len() implies !(#[trigger] ended[j]).streaming by {
            if j != i {
                assert(ended[j] == old[j]);
            }
        }
    }
    lemma_no_streaming(ended);
}

proof fn lemma_no_streaming(turns: Seq<AITurn>)
    requires
        forall|j: int| 0 <= j < turns.len() ==> !(#[trigger] turns[j]).streaming,
    ensures
        streaming_index(turns) < 0,
    decreases turns.len(),
{
    if turns.len() > 0 {
        assert(!turns[turns.len() - 1].streaming);
        assert forall|j: int| 0 <= j < turns.drop_last().len() implies !(#[trigger] turns.drop_last()[j]).streaming by {
            assert(turns.drop_last()[j] == turns[j]);
        }
        lemma_no_streaming(turns.drop_last());
    }
}

/// A failed reply keeps every character that had arrived.
pub proof fn law_failure_keeps_the_text(old: Seq<AITurn>, new: Seq<AITurn>, error: Seq<char>)
    requires
        streaming_index(old) >= 0,
        open_turn_edited(old, new, closed_with(error)),
    ensures
        new[streaming_index(old)].body == old[streaming_index(old)].body,
        !new[streaming_index(old)].streaming,
{
}

} // verus!
