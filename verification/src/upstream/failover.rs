//! Asking one upstream after the other, and sharing what comes back among
//! callers who ask the same.

use vstd::prelude::*;

use crate::message;
use crate::message::{
    new_question, read_name, root_name, show_rcode, DnsMessage, MessageView, CLASS_IN, FORM_ERR,
    NOT_IMP, OP_QUERY, REFUSED, SERV_FAIL, TYPE_A, TYPE_NS,
};
use crate::text::same_text;
use crate::upstream::error;
use crate::upstream::error::{ErrorView, UpstreamError};
use crate::upstream::health::{roll, HealthView};
use crate::upstream::pool;
use crate::upstream::pool::{PoolView, UpstreamPool, UpstreamView};
use crate::upstream::transport;
use crate::upstream::transport::{normalize_upstream_edns, KeyView, QueryKey};

verus! {

/// What a response is worth.
#[derive(Debug, Clone, Copy, PartialEq, Eq, Structural)]
pub enum Usability {
    /// An answer, positive or negative.
    Answer,
    /// The upstream refuses to answer (REFUSED/NOTIMP).
    Reject,
    /// The query failed, which another upstream may do better (SERVFAIL/FORMERR).
    SoftFail,
}

/// What a response with this code is worth.
pub open spec fn usability(code: u16) -> Usability {
    if code == REFUSED || code == NOT_IMP {
        Usability::Reject
    } else if code == SERV_FAIL || code == FORM_ERR {
        Usability::SoftFail
    } else {
        Usability::Answer
    }
}

/// What a response is worth.
pub fn classify(resp: &DnsMessage) -> (r: Usability)
    ensures
        r == usability(resp@.response_code),
{
    if resp.response_code == REFUSED || resp.response_code == NOT_IMP {
        Usability::Reject
    } else if resp.response_code == SERV_FAIL || resp.response_code == FORM_ERR {
        Usability::SoftFail
    } else {
        Usability::Answer
    }
}

/// The error that a response stands for.
pub fn rcode_err(resp: &DnsMessage) -> (r: UpstreamError)
    ensures
        r@ == ErrorView::Rcode(message::rcode_text(resp@.response_code)),
{
    UpstreamError::Rcode(show_rcode(resp.response_code))
}

/// What came back from one upstream.
#[derive(Debug)]
pub enum Reply {
    Response(DnsMessage),
    Failed(UpstreamError),
    TimedOut,
}

/// What a [`Reply`] says.
pub enum ReplyView {
    Response(MessageView),
    Failed(ErrorView),
    TimedOut,
}

impl View for Reply {
    type V = ReplyView;

    open spec fn view(&self) -> ReplyView {
        match self {
            Reply::Response(m) => ReplyView::Response(m@),
            Reply::Failed(e) => ReplyView::Failed(e@),
            Reply::TimedOut => ReplyView::TimedOut,
        }
    }
}

/// A response, the upstream it came from, and how long it took.
#[derive(Debug)]
pub struct Resolved {
    pub message: DnsMessage,
    pub upstream: String,
    pub rtt_us: u64,
}

/// What a [`Resolved`] says.
pub struct ResolvedView {
    pub message: MessageView,
    pub upstream: Seq<char>,
    pub rtt_us: u64,
}

impl View for Resolved {
    type V = ResolvedView;

    open spec fn view(&self) -> ResolvedView {
        ResolvedView {
            message: self.message@,
            upstream: self.upstream@,
            rtt_us: self.rtt_us,
        }
    }
}

/// What a caller gets of an answer that several share: the answer under its own id.
pub open spec fn delivered(answer: ResolvedView, id: u16) -> ResolvedView {
    ResolvedView { message: MessageView { id, ..answer.message }, ..answer }
}

impl Resolved {
    /// Another of these, for another caller who asked the same: under its id.
    pub fn for_caller(&self, id: u16) -> (r: Resolved)
        ensures
            r@ == delivered(self@, id),
    {
        let mut message: DnsMessage = self.message.copied();
        message.id = id;
        Resolved { message, upstream: self.upstream.as_str().to_owned(), rtt_us: self.rtt_us }
    }
}

/// A query on its way through the upstreams.
#[derive(Debug)]
pub struct Failover {
    pub order: Vec<usize>,
    /// How many upstreams were asked.
    pub next: usize,
    /// The last error.
    pub last: UpstreamError,
    /// The first response that was no answer.
    pub fallback: Option<Resolved>,
}

/// What a [`Failover`] says.
pub struct FailoverView {
    pub order: Seq<int>,
    pub next: int,
    pub last: ErrorView,
    pub fallback: Option<ResolvedView>,
}

pub open spec fn resolved_in(r: Option<Resolved>) -> Option<ResolvedView> {
    match r {
        Some(x) => Some(x@),
        None => None,
    }
}

impl View for Failover {
    type V = FailoverView;

    open spec fn view(&self) -> FailoverView {
        FailoverView {
            order: pool::indices(self.order@),
            next: self.next as int,
            last: self.last@,
            fallback: resolved_in(self.fallback),
        }
    }
}

/// What became of a query after a reply.
#[derive(Debug)]
pub enum Progress {
    /// It is answered.
    Settled(Resolved),
    /// The next upstream is asked, if there is one.
    Going(Failover),
}

/// What a [`Progress`] says.
pub enum ProgressView {
    Settled(ResolvedView),
    Going(FailoverView),
}

impl View for Progress {
    type V = ProgressView;

    open spec fn view(&self) -> ProgressView {
        match self {
            Progress::Settled(r) => ProgressView::Settled(r@),
            Progress::Going(f) => ProgressView::Going(f@),
        }
    }
}

/// One upstream's name, what it replied, and how long that took.
pub struct TryView {
    pub upstream: Seq<char>,
    pub reply: ReplyView,
    pub rtt_us: u64,
}

/// What a response gives to the caller.
pub open spec fn resolved_by(t: TryView) -> ResolvedView {
    ResolvedView { message: t.reply->Response_0, upstream: t.upstream, rtt_us: t.rtt_us }
}

/// The error that a reply without an answer stands for.
pub open spec fn error_of(reply: ReplyView) -> ErrorView {
    match reply {
        ReplyView::Response(m) => ErrorView::Rcode(message::rcode_text(m.response_code)),
        ReplyView::Failed(e) => e,
        ReplyView::TimedOut => ErrorView::Timeout,
    }
}

/// Whether a reply ends the search.
pub open spec fn is_answer(reply: ReplyView) -> bool {
    reply matches ReplyView::Response(m) && usability(m.response_code) == Usability::Answer
}

/// A query that is yet to be sent to the first upstream.
pub open spec fn fresh(order: Seq<int>) -> FailoverView {
    FailoverView { order, next: 0, last: ErrorView::NoUpstreams, fallback: None }
}

/// The upstream to ask now; none where all were asked.
pub open spec fn to_ask(f: FailoverView) -> Option<int> {
    if f.next < f.order.len() {
        Some(f.order[f.next])
    } else {
        None
    }
}

/// What becomes of a query by a reply.
pub open spec fn after_reply(f: FailoverView, t: TryView) -> ProgressView {
    if is_answer(t.reply) {
        ProgressView::Settled(resolved_by(t))
    } else {
        ProgressView::Going(
            FailoverView {
                next: f.next + 1,
                last: error_of(t.reply),
                fallback: if f.fallback is None && t.reply is Response {
                    Some(resolved_by(t))
                } else {
                    f.fallback
                },
                ..f
            },
        )
    }
}

/// What becomes of the health of an upstream by its reply: an answer is a
/// success, a refusal and a transport failure are hard failures, and other
/// response codes are failures of the query alone.
pub open spec fn health_after(
    h: HealthView,
    t: TryView,
    blend_us: u64,
    threshold: u32,
    now: u64,
    roll: u32,
) -> HealthView {
    let why = error::error_text(error_of(t.reply));
    match t.reply {
        ReplyView::Response(m) => match usability(m.response_code) {
            Usability::Answer => h.after_live_success(t.rtt_us, blend_us),
            Usability::Reject => h.after_live_failure(why, threshold, now, roll),
            Usability::SoftFail => h.after_soft_failure(why),
        },
        _ => h.after_live_failure(why, threshold, now, roll),
    }
}

/// What the caller gets where no upstream answered.
pub open spec fn without_answer(f: FailoverView) -> Result<ResolvedView, ErrorView> {
    match f.fallback {
        Some(r) => Ok(r),
        None => Err(ErrorView::AllFailed(Box::new(f.last))),
    }
}

/// What a reply of the upstream `at` does to the pool.
pub open spec fn pool_after(
    p: PoolView,
    at: int,
    t: TryView,
    blend_us: u64,
    now: u64,
    roll: u32,
) -> PoolView {
    let up = p.upstreams[at];
    PoolView {
        upstreams: p.upstreams.update(
            at,
            UpstreamView {
                health: health_after(
                    up.health,
                    t,
                    blend_us,
                    p.settings.failure_threshold,
                    now,
                    roll,
                ),
                ..up
            },
        ),
        ..p
    }
}

impl Failover {
    /// A query that goes through the upstreams in this order.
    pub fn new(order: Vec<usize>) -> (r: Failover)
        ensures
            r@ == fresh(pool::indices(order@)),
    {
        Failover { order, next: 0, last: UpstreamError::NoUpstreams, fallback: None }
    }

    /// The upstream to ask now; none where all were asked.
    pub fn current(&self) -> (r: Option<usize>)
        ensures
            pool::index_in(r) == to_ask(self@),
    {
        if self.next < self.order.len() {
            assert(pool::indices(self.order@)[self.next as int] == self.order@[self.next as int]);
            Some(self.order[self.next])
        } else {
            None
        }
    }

    /// Takes the reply of the current upstream: records it in the upstream's
    /// health, and says how the query goes on.
    pub fn reply(
        self,
        pool: &mut UpstreamPool,
        reply: Reply,
        rtt_us: u64,
        blend_us: u64,
        now: u64,
        roll: u32,
    ) -> (r: Progress)
        requires
            self@.next < self@.order.len(),
            self@.order[self@.next] < old(pool)@.upstreams.len(),
        ensures
            ({
                let at = self@.order[self@.next];
                let t = TryView { upstream: old(pool)@.upstreams[at].name, reply: reply@, rtt_us };
                &&& r@ == after_reply(self@, t)
                &&& final(pool)@ == pool_after(old(pool)@, at, t, blend_us, now, roll)
            }),
    {
        let Failover { order, next, last: _, fallback } = self;
        assert(pool::indices(order@)[next as int] == order@[next as int]);
        let at: usize = order[next];
        let total: usize = order.len();
        assert(next < total);
        let asked: usize = next + 1;
        let threshold: u32 = pool.settings.failure_threshold;
        let ghost before = pool.upstreams@;
        let ghost up = pool::upstream_views(pool.upstreams@)[at as int];
        let ghost t = TryView { upstream: up.name, reply: reply@, rtt_us };
        let name: String = pool.upstreams[at].name.as_str().to_owned();
        let progress: Progress = match reply {
            Reply::Response(message) => {
                let worth: Usability = classify(&message);
                let err: UpstreamError = rcode_err(&message);
                let resolved: Resolved = Resolved { message, upstream: name, rtt_us };
                match worth {
                    Usability::Answer => {
                        pool.upstreams[at].health.record_live_success(rtt_us, blend_us);
                        Progress::Settled(resolved)
                    },
                    _ => {
                        match worth {
                            Usability::Reject => pool.upstreams[at].health.record_live_failure(
                                &err,
                                threshold,
                                now,
                                roll,
                            ),
                            _ => pool.upstreams[at].health.record_soft_failure(&err),
                        }
                        let kept: Option<Resolved> = match fallback {
                            Some(f) => Some(f),
                            None => Some(resolved),
                        };
                        Progress::Going(
                            Failover { order, next: asked, last: err, fallback: kept },
                        )
                    },
                }
            },
            Reply::Failed(e) => {
                pool.upstreams[at].health.record_live_failure(&e, threshold, now, roll);
                Progress::Going(Failover { order, next: asked, last: e, fallback })
            },
            Reply::TimedOut => {
                let e: UpstreamError = UpstreamError::Timeout;
                pool.upstreams[at].health.record_live_failure(&e, threshold, now, roll);
                Progress::Going(Failover { order, next: asked, last: e, fallback })
            },
        };
        proof {
            let after = pool.upstreams@;
            assert(forall|k: int| 0 <= k < before.len() && k != at ==> after[k] == before[k]);
            assert(pool::upstream_views(after) =~= pool::upstream_views(before).update(
                at as int,
                after[at as int]@,
            ));
        }
        progress
    }

    /// Takes the reply of the current upstream, with a random part in when the
    /// upstream is probed next.
    pub fn take_reply(
        self,
        pool: &mut UpstreamPool,
        reply: Reply,
        rtt_us: u64,
        blend_us: u64,
        now: u64,
    ) -> (r: Progress)
        requires
            self@.next < self@.order.len(),
            self@.order[self@.next] < old(pool)@.upstreams.len(),
        ensures
            ({
                let at = self@.order[self@.next];
                let t = TryView { upstream: old(pool)@.upstreams[at].name, reply: reply@, rtt_us };
                &&& r@ == after_reply(self@, t)
                &&& exists|n: u32|
                    final(pool)@ == #[trigger] pool_after(old(pool)@, at, t, blend_us, now, n)
            }),
    {
        let n: u32 = roll();
        self.reply(pool, reply, rtt_us, blend_us, now, n)
    }

    /// What the caller gets where no upstream answered: the first response that
    /// was no answer, or the last error.
    pub fn finish(self) -> (r: Result<Resolved, UpstreamError>)
        ensures
            match without_answer(self@) {
                Ok(v) => r matches Ok(resolved) && resolved@ == v,
                Err(e) => r matches Err(err) && err@ == e,
            },
    {
        match self.fallback {
            Some(r) => Ok(r),
            None => Err(UpstreamError::AllFailed(Box::new(self.last))),
        }
    }
}

/// What the caller gets when the upstreams reply like this, one after the other.
pub open spec fn run(f: FailoverView, tries: Seq<TryView>) -> Result<ResolvedView, ErrorView>
    decreases tries.len(),
{
    if tries.len() == 0 {
        without_answer(f)
    } else {
        match after_reply(f, tries[0]) {
            ProgressView::Settled(r) => Ok(r),
            ProgressView::Going(g) => run(g, tries.drop_first()),
        }
    }
}

/// The index of the first answer, or the number of tries.
pub open spec fn first_answer(tries: Seq<TryView>) -> int
    decreases tries.len(),
{
    if tries.len() == 0 || is_answer(tries[0].reply) {
        0
    } else {
        1 + first_answer(tries.drop_first())
    }
}

/// The index of the first response, or the number of tries.
pub open spec fn first_response(tries: Seq<TryView>) -> int
    decreases tries.len(),
{
    if tries.len() == 0 || tries[0].reply is Response {
        0
    } else {
        1 + first_response(tries.drop_first())
    }
}

proof fn lemma_run(f: FailoverView, tries: Seq<TryView>)
    ensures
        0 <= first_answer(tries) <= tries.len(),
        0 <= first_response(tries) <= tries.len(),
        run(f, tries) == (if first_answer(tries) < tries.len() {
            Ok::<ResolvedView, ErrorView>(resolved_by(tries[first_answer(tries)]))
        } else {
            match f.fallback {
                Some(r) => Ok(r),
                None => if first_response(tries) < tries.len() {
                    Ok(resolved_by(tries[first_response(tries)]))
                } else {
                    Err(
                        ErrorView::AllFailed(
                            Box::new(
                                if tries.len() == 0 {
                                    f.last
                                } else {
                                    error_of(tries.last().reply)
                                },
                            ),
                        ),
                    )
                },
            }
        }),
    decreases tries.len(),
{
    if tries.len() > 0 {
        let rest = tries.drop_first();
        if !is_answer(tries[0].reply) {
            let g = after_reply(f, tries[0])->Going_0;
            lemma_run(g, rest);
            assert(forall|i: int| 0 <= i < rest.len() ==> rest[i] == tries[i + 1]);
            if rest.len() > 0 {
                assert(rest.last() == tries.last());
            }
        } else {
            lemma_bounds(rest);
        }
    }
}

proof fn lemma_bounds(tries: Seq<TryView>)
    ensures
        0 <= first_answer(tries) <= tries.len(),
        0 <= first_response(tries) <= tries.len(),
    decreases tries.len(),
{
    if tries.len() > 0 {
        lemma_bounds(tries.drop_first());
    }
}

/// The first answer goes to the caller, whatever came before it; without an
/// answer the first response of any kind; and without a response an error that
/// holds the last failure.
pub proof fn law_failover(order: Seq<int>, tries: Seq<TryView>)
    ensures
        0 <= first_answer(tries) <= tries.len(),
        0 <= first_response(tries) <= tries.len(),
        first_answer(tries) < tries.len() ==> run(fresh(order), tries) == Ok::<
            ResolvedView,
            ErrorView,
        >(resolved_by(tries[first_answer(tries)])),
        first_answer(tries) == tries.len() && first_response(tries) < tries.len() ==> run(
            fresh(order),
            tries,
        ) == Ok::<ResolvedView, ErrorView>(resolved_by(tries[first_response(tries)])),
        first_response(tries) == tries.len() && tries.len() > 0 ==> run(fresh(order), tries)
            == Err::<ResolvedView, ErrorView>(
            ErrorView::AllFailed(Box::new(error_of(tries.last().reply))),
        ),
        tries.len() == 0 ==> run(fresh(order), tries) == Err::<ResolvedView, ErrorView>(
            ErrorView::AllFailed(Box::new(ErrorView::NoUpstreams)),
        ),
{
    lemma_run(fresh(order), tries);
    lemma_answer_is_response(tries);
}

proof fn lemma_answer_is_response(tries: Seq<TryView>)
    ensures
        first_response(tries) <= first_answer(tries),
    decreases tries.len(),
{
    if tries.len() > 0 {
        lemma_answer_is_response(tries.drop_first());
        lemma_bounds(tries.drop_first());
    }
}

/// The questions that are on their way: whoever asks one of them again shares
/// the answer.
#[derive(Debug)]
pub struct Inflight {
    keys: Vec<QueryKey>,
}

/// A caller asks a question, or whoever sent one is done with it.
pub enum FlightEvent {
    Joined(KeyView),
    Left(KeyView),
}

/// The questions that are on their way after some events.
pub open spec fn in_flight(before: Set<KeyView>, events: Seq<FlightEvent>) -> Set<KeyView>
    decreases events.len(),
{
    if events.len() == 0 {
        before
    } else {
        let earlier = in_flight(before, events.drop_last());
        match events.last() {
            FlightEvent::Joined(key) => earlier.insert(key),
            FlightEvent::Left(key) => earlier.remove(key),
        }
    }
}

/// Identical questions are coalesced: whoever asks what is already on its way finds
/// it there, and so does not lead, until the one who sent it is done.
pub proof fn law_single_flight(
    before: Set<KeyView>,
    events: Seq<FlightEvent>,
    key: KeyView,
    i: int,
    j: int,
)
    requires
        0 <= i < j <= events.len(),
        events[i] == FlightEvent::Joined(key),
        forall|k: int| i < k < j ==> #[trigger] events[k] != FlightEvent::Left(key),
    ensures
        in_flight(before, events.take(j)).contains(key),
    decreases j,
{
    let upto = events.take(j);
    assert(upto.drop_last() =~= events.take(j - 1));
    assert(upto.last() == events[j - 1]);
    if i < j - 1 {
        law_single_flight(before, events, key, i, j - 1);
    }
}

/// Whether the event at `k` is a caller who finds the question not on its way yet, and
/// so sends it.
pub open spec fn leads_at(before: Set<KeyView>, events: Seq<FlightEvent>, k: int) -> bool {
    events[k] matches FlightEvent::Joined(key) && !in_flight(before, events.take(k)).contains(key)
}

/// How often a question is sent in some events.
pub open spec fn sent(before: Set<KeyView>, events: Seq<FlightEvent>, key: KeyView) -> nat
    decreases events.len(),
{
    if events.len() == 0 {
        0
    } else {
        sent(before, events.drop_last(), key) + if events.last() == FlightEvent::Joined(key)
            && leads_at(before, events, events.len() - 1) {
            1nat
        } else {
            0nat
        }
    }
}

/// Callers who ask the same while it is on its way send it once together: the first
/// of them does, none of the others, and each gets the one answer under the id of its
/// own query.
pub proof fn law_one_query_for_all(
    before: Set<KeyView>,
    events: Seq<FlightEvent>,
    key: KeyView,
    i: int,
    j: int,
    answer: ResolvedView,
    id: u16,
)
    requires
        0 <= i < j <= events.len(),
        !in_flight(before, events.take(i)).contains(key),
        events[i] == FlightEvent::Joined(key),
        forall|k: int| i < k < j ==> #[trigger] events[k] != FlightEvent::Left(key),
    ensures
        leads_at(before, events, i),
        forall|k: int|
            i < k < j && events[k] == FlightEvent::Joined(key) ==> !#[trigger] leads_at(
                before,
                events,
                k,
            ),
        sent(before, events.take(j), key) == sent(before, events.take(i), key) + 1,
        delivered(answer, id).message == (MessageView { id, ..answer.message }),
        delivered(answer, id).upstream == answer.upstream,
    decreases j,
{
    let upto = events.take(j);
    assert(upto.drop_last() =~= events.take(j - 1));
    assert(upto.last() == events[j - 1]);
    assert(upto.take(j - 1) =~= events.take(j - 1));
    if i < j - 1 {
        law_one_query_for_all(before, events, key, i, j - 1, answer, id);
        law_single_flight(before, events, key, i, j - 1);
    }
}

pub open spec fn key_views(v: Seq<QueryKey>) -> Seq<KeyView> {
    v.map_values(|k: QueryKey| k@)
}

impl View for Inflight {
    type V = Set<KeyView>;

    closed spec fn view(&self) -> Set<KeyView> {
        key_views(self.keys@).to_set()
    }
}

fn same_key(a: &QueryKey, b: &QueryKey) -> (r: bool)
    ensures
        r == (a@ == b@),
{
    same_text(a.name.as_str(), b.name.as_str()) && a.rtype == b.rtype && a.class == b.class
        && a.dnssec_ok == b.dnssec_ok && a.checking_disabled == b.checking_disabled
}

impl Inflight {
    /// No question is on its way twice.
    #[verifier::type_invariant]
    closed spec fn wf(self) -> bool {
        key_views(self.keys@).no_duplicates()
    }

    pub fn new() -> (r: Inflight)
        ensures
            r@ == Set::<KeyView>::empty(),
    {
        let keys: Vec<QueryKey> = Vec::new();
        assert(key_views(keys@) =~= Seq::<KeyView>::empty());
        assert(key_views(keys@).to_set() =~= Set::<KeyView>::empty());
        Inflight { keys }
    }

    fn position(&self, key: &QueryKey) -> (r: Option<usize>)
        ensures
            match r {
                Some(i) => i < self.keys@.len() && self.keys@[i as int]@ == key@,
                None => forall|i: int| 0 <= i < self.keys@.len() ==> (#[trigger] self.keys@[i])@ != key@,
            },
    {
        let mut i: usize = 0;
        while i < self.keys.len()
            invariant
                i <= self.keys@.len(),
                forall|k: int| 0 <= k < i ==> (#[trigger] self.keys@[k])@ != key@,
            decreases self.keys@.len() - i,
        {
            if same_key(&self.keys[i], key) {
                return Some(i);
            }
            i = i + 1;
        }
        None
    }

    /// Joins the callers who ask this question. The first of them sends it; the
    /// others wait for what the first gets.
    pub fn join(&mut self, key: &QueryKey) -> (leads: bool)
        ensures
            leads == !old(self)@.contains(key@),
            final(self)@ == old(self)@.insert(key@),
    {
        proof {
            use_type_invariant(&*self);
        }
        let ghost before = key_views(self.keys@);
        match self.position(key) {
            Some(i) => {
                assert(before[i as int] == key@);
                assert(before.to_set().contains(key@));
                assert(before.to_set().insert(key@) =~= before.to_set());
                false
            },
            None => {
                assert forall|i: int| 0 <= i < before.len() implies #[trigger] before[i] != key@ by {
                    assert(self.keys@[i]@ != key@);
                }
                let mut keys: Vec<QueryKey> = Vec::new();
                assert(key_views(keys@) =~= Seq::<KeyView>::empty());
                std::mem::swap(&mut keys, &mut self.keys);
                keys.push(key.copied());
                assert(key_views(keys@) =~= before.push(key@));
                assert(before.push(key@).to_set() =~= before.to_set().insert(key@)) by {
                    assert forall|x: KeyView| before.to_set().insert(key@).contains(x) implies
                        before.push(key@).to_set().contains(x) by {
                        if x == key@ {
                            assert(before.push(key@)[before.len() as int] == x);
                        } else {
                            let j = choose|j: int| 0 <= j < before.len() && before[j] == x;
                            assert(before.push(key@)[j] == x);
                        }
                    }
                }
                self.keys = keys;
                true
            },
        }
    }

    /// The caller who sent the question is done with it.
    pub fn leave(&mut self, key: &QueryKey)
        ensures
            final(self)@ == old(self)@.remove(key@),
    {
        proof {
            use_type_invariant(&*self);
        }
        let ghost before = key_views(self.keys@);
        match self.position(key) {
            Some(i) => {
                let mut keys: Vec<QueryKey> = Vec::new();
                assert(key_views(keys@) =~= Seq::<KeyView>::empty());
                std::mem::swap(&mut keys, &mut self.keys);
                let _ = keys.remove(i);
                proof {
                    let after = key_views(keys@);
                    assert(after =~= before.remove(i as int));
                    assert(before[i as int] == key@);
                    assert forall|x: KeyView| after.to_set().contains(x) == before.to_set().remove(
                        key@,
                    ).contains(x) by {
                        if after.contains(x) {
                            let j = choose|j: int| 0 <= j < after.len() && after[j] == x;
                            let k = if j < i { j } else { j + 1 };
                            assert(before[k] == x);
                        }
                        if before.contains(x) && x != key@ {
                            let j = choose|j: int| 0 <= j < before.len() && before[j] == x;
                            let k = if j < i { j } else { j - 1 };
                            assert(after[k] == x);
                        }
                    }
                    assert(after.to_set() =~= before.to_set().remove(key@));
                }
                self.keys = keys;
            },
            None => {
                assert forall|i: int| 0 <= i < before.len() implies #[trigger] before[i] != key@ by {
                    assert(self.keys@[i]@ != key@);
                }
                assert(before.to_set().remove(key@) =~= before.to_set());
            },
        }
    }
}

/// What a pool makes of a query before anything is sent: the question it asks,
/// or an error where there is nobody to ask or nothing asked.
pub open spec fn question_for(ups: int, query: MessageView) -> Result<KeyView, ErrorView> {
    if ups == 0 {
        Err(ErrorView::NoUpstreams)
    } else {
        match transport::key_of(query) {
            Some(key) => Ok(key),
            None => Err(ErrorView::Proto("query has no question"@)),
        }
    }
}

/// Checks a query before anything is sent.
pub fn check_query(pool: &UpstreamPool, query: &DnsMessage) -> (r: Result<QueryKey, UpstreamError>)
    ensures
        match question_for(pool@.upstreams.len() as int, query@) {
            Ok(v) => r matches Ok(key) && key@ == v,
            Err(e) => r matches Err(err) && err@ == e,
        },
{
    if pool.is_empty() {
        return Err(UpstreamError::NoUpstreams);
    }
    match QueryKey::from_message(query) {
        Some(key) => Ok(key),
        None => Err(UpstreamError::Proto("query has no question".to_owned())),
    }
}

/// A query as it is sent upstream: with normalized EDNS.
pub fn upstream_query(query: &DnsMessage) -> (r: DnsMessage)
    ensures
        r@ == (MessageView { edns: r@.edns, ..query@ }),
        match query@.edns {
            None => r@.edns is None,
            Some(e) => r@.edns matches Some(sent) && if transport::edns_is_plain(
                message::edns_of(e),
            ) {
                sent == e
            } else {
                message::edns_of(sent) == transport::plain_edns(message::edns_of(e))
            },
        },
{
    let mut q: DnsMessage = query.copied();
    normalize_upstream_edns(&mut q);
    q
}

/// A query for one name, with recursion desired.
pub open spec fn is_query_for(m: MessageView, id: u16, name: Seq<char>, rtype: u16) -> bool {
    &&& m == (MessageView {
        recursion_desired: true,
        queries: m.queries,
        ..message::bare(id, false, OP_QUERY)
    })
    &&& m.queries.len() == 1
    &&& message::question_of(m.queries[0]) == (message::QuestionView {
        name,
        rtype,
        class: CLASS_IN,
    })
}

/// A query for one name, with recursion desired.
pub fn query_for(id: u16, name: hickory_proto::rr::Name, rtype: u16) -> (r: DnsMessage)
    ensures
        is_query_for(r@, id, message::name_text(name), rtype),
{
    let mut msg: DnsMessage = DnsMessage::new(id, false, OP_QUERY);
    msg.recursion_desired = true;
    msg.queries.push(new_question(name, rtype, CLASS_IN));
    msg
}

/// `rand::random` for 16 bits: any number can come.
#[verifier::external_body]
pub(crate) fn random_id() -> u16 {
    rand::random()
}

/// The query that probes an upstream: the name servers of the root.
pub fn probe_query() -> (r: DnsMessage)
    ensures
        is_query_for(r@, r@.id, seq!['.'], TYPE_NS),
{
    query_for(random_id(), root_name(), TYPE_NS)
}

/// The query that tests a spec; none where the name of the test is not readable.
pub fn test_query() -> (r: Option<DnsMessage>)
    ensures
        match message::name_of_text("example.com."@) {
            Some(name) => r matches Some(m) && is_query_for(m@, m@.id, name, TYPE_A),
            None => r is None,
        },
{
    match read_name("example.com.") {
        Some(name) => Some(query_for(random_id(), name, TYPE_A)),
        None => None,
    }
}

} // verus!
