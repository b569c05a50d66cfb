//! Query log entries, and which of them are offered to the log's writer.

use vstd::prelude::*;

use crate::text;

verus! {

/// Query outcome and associated data.
#[derive(Debug, Clone, PartialEq, Eq)]
pub enum QueryAction {
    /// Resolved via an upstream.
    Forwarded { upstream: String },
    /// Served from cache.
    Cached,
    /// Blocked by a filtering rule.
    Blocked { rule: String, list_id: u32 },
    /// Rewritten by a rule (`$dnsrewrite` / hosts IP).
    Rewritten { rule: String, list_id: u32 },
    /// An error response (e.g. SERVFAIL) was returned.
    Error,
}

/// What a [`QueryAction`] says.
pub enum ActionView {
    Forwarded(Seq<char>),
    Cached,
    Blocked(Seq<char>, u32),
    Rewritten(Seq<char>, u32),
    Error,
}

impl View for QueryAction {
    type V = ActionView;

    open spec fn view(&self) -> ActionView {
        match self {
            QueryAction::Forwarded { upstream } => ActionView::Forwarded(upstream@),
            QueryAction::Cached => ActionView::Cached,
            QueryAction::Blocked { rule, list_id } => ActionView::Blocked(rule@, *list_id),
            QueryAction::Rewritten { rule, list_id } => ActionView::Rewritten(rule@, *list_id),
            QueryAction::Error => ActionView::Error,
        }
    }
}

/// One logged query.
#[derive(Debug, Clone)]
pub struct QueryLogEntry {
    pub id: u64,
    /// Unix epoch milliseconds.
    pub time_ms: i64,
    pub client_ip: String,
    pub question: String,
    /// Record type label.
    pub qtype: String,
    pub action: QueryAction,
    /// Whether an `@@` exception matched.
    pub allowlisted: bool,
    /// Response code label.
    pub rcode: String,
    /// Short answer summaries, such as `A 1.2.3.4`.
    pub answers: Vec<String>,
    pub elapsed_us: u64,
}

/// What a [`QueryLogEntry`] says.
pub struct EntryView {
    pub id: u64,
    pub time_ms: i64,
    pub client_ip: Seq<char>,
    pub question: Seq<char>,
    pub qtype: Seq<char>,
    pub action: ActionView,
    pub allowlisted: bool,
    pub rcode: Seq<char>,
    pub answers: Seq<Seq<char>>,
    pub elapsed_us: u64,
}

impl View for QueryLogEntry {
    type V = EntryView;

    open spec fn view(&self) -> EntryView {
        EntryView {
            id: self.id,
            time_ms: self.time_ms,
            client_ip: self.client_ip@,
            question: self.question@,
            qtype: self.qtype@,
            action: self.action@,
            allowlisted: self.allowlisted,
            rcode: self.rcode@,
            answers: text::texts(self.answers@),
            elapsed_us: self.elapsed_us,
        }
    }
}

impl EntryView {
    /// Whether the query was blocked, with no exception to the contrary.
    pub open spec fn blocked(self) -> bool {
        self.action is Blocked && !self.allowlisted
    }
}

impl QueryLogEntry {
    /// Creates an entry for the caller to fill.
    pub fn empty() -> (r: QueryLogEntry)
        ensures
            r@ == (EntryView {
                id: 0,
                time_ms: 0,
                client_ip: Seq::empty(),
                question: Seq::empty(),
                qtype: Seq::empty(),
                action: ActionView::Cached,
                allowlisted: false,
                rcode: Seq::empty(),
                answers: Seq::empty(),
                elapsed_us: 0,
            }),
    {
        let answers: Vec<String> = Vec::new();
        assert(text::texts(answers@) =~= Seq::<Seq<char>>::empty());
        QueryLogEntry {
            id: 0,
            time_ms: 0,
            client_ip: String::new(),
            question: String::new(),
            qtype: String::new(),
            action: QueryAction::Cached,
            allowlisted: false,
            rcode: String::new(),
            answers,
            elapsed_us: 0,
        }
    }

    pub fn is_blocked(&self) -> (r: bool)
        ensures
            r == self@.blocked(),
    {
        match self.action {
            QueryAction::Blocked { .. } => !self.allowlisted,
            _ => false,
        }
    }

    /// The rule text that matched, if the query was blocked or rewritten.
    pub fn rule(&self) -> (r: Option<&str>)
        ensures
            match self@.action {
                ActionView::Blocked(rule, _) => r matches Some(s) && s@ == rule,
                ActionView::Rewritten(rule, _) => r matches Some(s) && s@ == rule,
                _ => r is None,
            },
    {
        match &self.action {
            QueryAction::Blocked { rule, .. } => Some(rule.as_str()),
            QueryAction::Rewritten { rule, .. } => Some(rule.as_str()),
            _ => None,
        }
    }

    /// The filter list responsible, if the query was blocked or rewritten.
    pub fn list_id(&self) -> (r: Option<u32>)
        ensures
            r == match self@.action {
                ActionView::Blocked(_, id) => Some(id),
                ActionView::Rewritten(_, id) => Some(id),
                _ => None,
            },
    {
        match &self.action {
            QueryAction::Blocked { list_id, .. } => Some(*list_id),
            QueryAction::Rewritten { list_id, .. } => Some(*list_id),
            _ => None,
        }
    }

    /// The upstream used, if the query was forwarded.
    pub fn upstream(&self) -> (r: Option<&str>)
        ensures
            match self@.action {
                ActionView::Forwarded(up) => r matches Some(s) && s@ == up,
                _ => r is None,
            },
    {
        match &self.action {
            QueryAction::Forwarded { upstream } => Some(upstream.as_str()),
            _ => None,
        }
    }

    /// True if the query was served from cache.
    pub fn cached(&self) -> (r: bool)
        ensures
            r == (self@.action is Cached),
    {
        match self.action {
            QueryAction::Cached => true,
            _ => false,
        }
    }
}

/// Filter for querying the log.
#[derive(Debug, Clone)]
pub struct LogFilter {
    /// Case-insensitive substring match on the question name.
    pub search: Option<String>,
    /// Match a specific client (IP or name).
    pub client: Option<String>,
    /// Only blocked entries.
    pub blocked_only: bool,
}

/// A page of log results.
#[derive(Debug)]
pub struct LogPage {
    pub entries: Vec<QueryLogEntry>,
    /// Total entries matching the filter (across all pages), for pagination.
    pub total: usize,
}

/// Every so many dropped entries one warning is due.
pub const DROP_WARNING_EVERY: u64 = 4096;

/// The sending side of the query log.
#[derive(Debug, Clone, Copy, PartialEq, Eq, Structural)]
pub struct QueryLog {
    pub enabled: bool,
    /// Omits client IPs from stored entries.
    pub anonymize: bool,
    /// Whether a writer is attached.
    pub attached: bool,
    /// Entries dropped because the writer channel was full.
    pub dropped: u64,
}

/// What is offered to the writer of an entry, if anything.
pub open spec fn offered(log: QueryLog, entry: EntryView) -> Option<EntryView> {
    if !log.enabled || !log.attached {
        None
    } else if log.anonymize {
        Some(EntryView { client_ip: Seq::empty(), ..entry })
    } else {
        Some(entry)
    }
}

impl QueryLog {
    pub fn new(enabled: bool, anonymize: bool) -> (r: QueryLog)
        ensures
            r == (QueryLog { enabled, anonymize, attached: false, dropped: 0 }),
    {
        QueryLog { enabled, anonymize, attached: false, dropped: 0 }
    }

    /// A writer is attached: entries are offered to it from now on.
    pub fn set_sink(&mut self)
        ensures
            *final(self) == (QueryLog { attached: true, ..*old(self) }),
    {
        self.attached = true;
    }

    pub fn reconfigure(&mut self, enabled: bool, anonymize: bool)
        ensures
            *final(self) == (QueryLog { enabled, anonymize, ..*old(self) }),
    {
        self.enabled = enabled;
        self.anonymize = anonymize;
    }

    pub fn is_enabled(&self) -> (r: bool)
        ensures
            r == self.enabled,
    {
        self.enabled
    }

    /// The entry as it is offered to the writer, if it is.
    pub fn push(&self, entry: QueryLogEntry) -> (r: Option<QueryLogEntry>)
        ensures
            match offered(*self, entry@) {
                Some(v) => r matches Some(e) && e@ == v,
                None => r is None,
            },
    {
        if !self.enabled || !self.attached {
            return None;
        }
        let mut entry: QueryLogEntry = entry;
        if self.anonymize {
            entry.client_ip = String::new();
        }
        Some(entry)
    }

    /// Counts an entry that the writer's channel had no room for. The result is
    /// the number to warn with, on the first entry and on each 4096th after it;
    /// the count wraps at its type's limit.
    pub fn note_drop(&mut self) -> (r: Option<u64>)
        ensures
            *final(self) == (QueryLog {
                dropped: if old(self).dropped == u64::MAX {
                    0
                } else {
                    (old(self).dropped + 1) as u64
                },
                ..*old(self)
            }),
            r == (if old(self).dropped % DROP_WARNING_EVERY == 0 {
                Some((old(self).dropped + 1) as u64)
            } else {
                None
            }),
    {
        let n: u64 = self.dropped;
        self.dropped = if n == u64::MAX {
            0
        } else {
            n + 1
        };
        if n % DROP_WARNING_EVERY == 0 {
            Some(n + 1)
        } else {
            None
        }
    }
}

/// No client address reaches the writer of an anonymized log.
pub proof fn law_anonymized(log: QueryLog, entry: EntryView)
    requires
        log.anonymize,
    ensures
        offered(log, entry) matches Some(e) ==> e.client_ip.len() == 0,
{
}

} // verus!
