//! Cache entries, and the bounded collection of `lru` that holds them.

use std::hash::RandomState;

use vstd::prelude::*;

use crate::filter::engine::{MatchInfo, MatchView};
use crate::message::{DnsMessage, MessageView};
use crate::text;
use crate::upstream::transport::{KeyView, QueryKey};

verus! {

#[verifier::external_type_specification]
#[verifier::external_body]
#[verifier::reject_recursive_types(K)]
#[verifier::reject_recursive_types(V)]
#[verifier::reject_recursive_types(S)]
pub struct ExLruCache<K, V, S>(lru::LruCache<K, V, S>);

/// A question as the collection keys it: name, type, class, DNSSEC-OK bit and
/// checking-disabled bit.
pub type KeyTuple = (String, u16, u16, bool, bool);

/// Encoded responses are patched in place; unscannable responses are kept as
/// messages.
#[derive(Debug)]
pub enum Stored {
    Wire {
        bytes: Vec<u8>,
        /// Byte offsets of each RR TTL field (excludes OPT); patched per hit.
        ttl_offsets: Vec<u32>,
        rcode: u16,
        /// Precomputed answer summaries for the query log (e.g. `"A 1.2.3.4"`).
        answers: Vec<String>,
    },
    Message(DnsMessage),
}

/// What a [`Stored`] says.
pub enum StoredView {
    Wire { bytes: Seq<u8>, ttl_offsets: Seq<u32>, rcode: u16, answers: Seq<Seq<char>> },
    Message(MessageView),
}

impl View for Stored {
    type V = StoredView;

    open spec fn view(&self) -> StoredView {
        match self {
            Stored::Wire { bytes, ttl_offsets, rcode, answers } => StoredView::Wire {
                bytes: bytes@,
                ttl_offsets: ttl_offsets@,
                rcode: *rcode,
                answers: text::texts(answers@),
            },
            Stored::Message(m) => StoredView::Message(m@),
        }
    }
}

/// Whether a cached answer is blocked by the response-side filter.
#[derive(Debug, Clone)]
pub enum Outcome {
    Clean,
    /// The answer is blocked; carries the matching rule for logging/attribution.
    Block(MatchInfo),
}

/// Response-filter verdict keyed to a filter generation.
#[derive(Debug, Clone)]
pub struct ResponseVerdict {
    /// The content hash of the filter.
    pub generation: u64,
    pub outcome: Outcome,
}

/// What a [`ResponseVerdict`] says: the generation, and the rule that blocks.
pub struct ResponseVerdictView {
    pub generation: u64,
    pub block: Option<MatchView>,
}

impl View for ResponseVerdict {
    type V = ResponseVerdictView;

    open spec fn view(&self) -> ResponseVerdictView {
        ResponseVerdictView {
            generation: self.generation,
            block: match self.outcome {
                Outcome::Clean => None,
                Outcome::Block(info) => Some(info@),
            },
        }
    }
}

pub open spec fn verdict_in(v: Option<ResponseVerdict>) -> Option<ResponseVerdictView> {
    match v {
        Some(x) => Some(x@),
        None => None,
    }
}

/// A copy of where a rule came from.
pub fn copy_match(info: &MatchInfo) -> (r: MatchInfo)
    ensures
        r@ == info@,
{
    MatchInfo {
        rule: info.rule.as_str().to_owned(),
        list_id: info.list_id,
        rule_id: info.rule_id,
    }
}

impl ResponseVerdict {
    pub fn clean(generation: u64) -> (r: ResponseVerdict)
        ensures
            r@ == (ResponseVerdictView { generation, block: None }),
    {
        ResponseVerdict { generation, outcome: Outcome::Clean }
    }

    pub fn block(info: MatchInfo, generation: u64) -> (r: ResponseVerdict)
        ensures
            r@ == (ResponseVerdictView { generation, block: Some(info@) }),
    {
        ResponseVerdict { generation, outcome: Outcome::Block(info) }
    }

    /// An equal verdict.
    pub fn copied(&self) -> (r: ResponseVerdict)
        ensures
            r@ == self@,
    {
        ResponseVerdict {
            generation: self.generation,
            outcome: match &self.outcome {
                Outcome::Clean => Outcome::Clean,
                Outcome::Block(info) => Outcome::Block(copy_match(info)),
            },
        }
    }
}

/// What is cached for a question.
#[derive(Debug)]
pub struct Entry {
    pub stored: Stored,
    /// When it was stored, in milliseconds.
    pub stored_at: u64,
    /// Effective (clamped) TTL in seconds.
    pub ttl: u32,
    /// `None` forces response filtering on the next hit.
    pub verdict: Option<ResponseVerdict>,
}

/// What an [`Entry`] says.
pub struct EntryView {
    pub stored: StoredView,
    pub stored_at: u64,
    pub ttl: u32,
    pub verdict: Option<ResponseVerdictView>,
}

impl View for Entry {
    type V = EntryView;

    open spec fn view(&self) -> EntryView {
        EntryView {
            stored: self.stored@,
            stored_at: self.stored_at,
            ttl: self.ttl,
            verdict: verdict_in(self.verdict),
        }
    }
}

/// The questions and what is cached for each, the most recently used first.
pub type Kept = Seq<(KeyView, EntryView)>;

/// What the collection holds, the most recently used entry first.
pub uninterp spec fn kept(c: lru::LruCache<KeyTuple, Entry, RandomState>) -> Kept;

/// How many entries the collection holds at most.
pub uninterp spec fn limit(c: lru::LruCache<KeyTuple, Entry, RandomState>) -> nat;

/// What is kept for a question.
pub open spec fn lookup(s: Kept, key: KeyView) -> Option<EntryView>
    decreases s.len(),
{
    if s.len() == 0 {
        None
    } else if s[0].0 == key {
        Some(s[0].1)
    } else {
        lookup(s.drop_first(), key)
    }
}

pub open spec fn is_for_other(key: KeyView) -> spec_fn((KeyView, EntryView)) -> bool {
    |p: (KeyView, EntryView)| p.0 != key
}

/// What is kept for other questions.
pub open spec fn without(s: Kept, key: KeyView) -> Kept {
    s.filter(is_for_other(key))
}

/// With a question moved to the front.
pub open spec fn touched(s: Kept, key: KeyView) -> Kept {
    match lookup(s, key) {
        Some(e) => seq![(key, e)] + without(s, key),
        None => s,
    }
}

/// With something kept for a question: in place of what was kept for it, or else
/// in place of what was used least recently where there is no room.
pub open spec fn with_entry(s: Kept, limit: nat, key: KeyView, e: EntryView) -> Kept {
    if lookup(s, key) is Some {
        seq![(key, e)] + without(s, key)
    } else if s.len() == limit {
        seq![(key, e)] + s.drop_last()
    } else {
        seq![(key, e)] + s
    }
}

pub open spec fn first_of(s: Kept, n: nat) -> Kept {
    if s.len() <= n {
        s
    } else {
        s.take(n as int)
    }
}

/// `LruCache::with_hasher` of `lru`: an empty collection for so many entries.
#[verifier::external_body]
pub(crate) fn new_store(cap: usize) -> (r: lru::LruCache<KeyTuple, Entry, RandomState>)
    requires
        cap > 0,
    ensures
        kept(r).len() == 0,
        limit(r) == cap,
{
    lru::LruCache::with_hasher(std::num::NonZeroUsize::new(cap).unwrap(), RandomState::new())
}

/// `LruCache::get` of `lru`: whether something is kept for a question, which
/// moves to the front.
#[verifier::external_body]
pub(crate) fn touch(c: &mut lru::LruCache<KeyTuple, Entry, RandomState>, key: &KeyTuple) -> (r: bool)
    ensures
        r == lookup(kept(*old(c)), tuple_view(*key)) is Some,
        kept(*final(c)) == touched(kept(*old(c)), tuple_view(*key)),
        limit(*final(c)) == limit(*old(c)),
{
    c.get(key).is_some()
}

/// `LruCache::peek` of `lru`: what is kept for a question; the order stays.
#[verifier::external_body]
pub(crate) fn peek<'a>(c: &'a lru::LruCache<KeyTuple, Entry, RandomState>, key: &KeyTuple) -> (r:
    Option<&'a Entry>)
    ensures
        match lookup(kept(*c), tuple_view(*key)) {
            Some(v) => r matches Some(e) && e@ == v,
            None => r is None,
        },
{
    c.peek(key)
}

/// `LruCache::put` of `lru`: keeps an entry for a question, at the front.
#[verifier::external_body]
pub(crate) fn put(c: &mut lru::LruCache<KeyTuple, Entry, RandomState>, key: KeyTuple, entry: Entry)
    ensures
        kept(*final(c)) == with_entry(kept(*old(c)), limit(*old(c)), tuple_view(key), entry@),
        limit(*final(c)) == limit(*old(c)),
{
    c.put(key, entry);
}

/// `LruCache::pop` of `lru`: keeps nothing for a question.
#[verifier::external_body]
pub(crate) fn pop(c: &mut lru::LruCache<KeyTuple, Entry, RandomState>, key: &KeyTuple)
    ensures
        kept(*final(c)) == without(kept(*old(c)), tuple_view(*key)),
        limit(*final(c)) == limit(*old(c)),
{
    c.pop(key);
}

/// `LruCache::resize` of `lru`: changes how many entries there can be. Those that
/// were used least recently go first; where there can be as many as before,
/// nothing changes.
#[verifier::external_body]
pub(crate) fn resize(c: &mut lru::LruCache<KeyTuple, Entry, RandomState>, cap: usize)
    requires
        cap > 0,
    ensures
        kept(*final(c)) == if limit(*old(c)) == cap {
            kept(*old(c))
        } else {
            first_of(kept(*old(c)), cap as nat)
        },
        limit(*final(c)) == cap,
{
    c.resize(std::num::NonZeroUsize::new(cap).unwrap());
}

/// `LruCache::clear` of `lru`: keeps nothing.
#[verifier::external_body]
pub(crate) fn clear_store(c: &mut lru::LruCache<KeyTuple, Entry, RandomState>)
    ensures
        kept(*final(c)).len() == 0,
        limit(*final(c)) == limit(*old(c)),
{
    c.clear();
}

/// `LruCache::len` of `lru`: how many entries there are.
#[verifier::external_body]
pub(crate) fn store_len(c: &lru::LruCache<KeyTuple, Entry, RandomState>) -> (r: usize)
    ensures
        r == kept(*c).len(),
{
    c.len()
}

pub open spec fn pair_views(v: Seq<(&KeyTuple, &Entry)>) -> Kept {
    v.map_values(|p: (&KeyTuple, &Entry)| (tuple_view(*p.0), p.1@))
}

/// `LruCache::iter` of `lru`: the questions and what is kept for each, the most
/// recently used first.
#[verifier::external_body]
pub(crate) fn pairs(c: &lru::LruCache<KeyTuple, Entry, RandomState>) -> (r: Vec<
    (&KeyTuple, &Entry),
>)
    ensures
        pair_views(r@) == kept(*c),
{
    c.iter().collect()
}

/// The question that a tuple stands for.
pub open spec fn tuple_view(t: KeyTuple) -> KeyView {
    KeyView { name: (t.0)@, rtype: t.1, class: t.2, dnssec_ok: t.3, checking_disabled: t.4 }
}

pub fn key_tuple(key: &QueryKey) -> (r: KeyTuple)
    ensures
        tuple_view(r) == key@,
{
    (key.name.as_str().to_owned(), key.rtype, key.class, key.dnssec_ok, key.checking_disabled)
}

/// What is kept for a question after something was kept for it is just that.
pub proof fn lemma_lookup_after_put(s: Kept, n: nat, key: KeyView, e: EntryView)
    ensures
        lookup(with_entry(s, n, key, e), key) == Some(e),
{
    let t = with_entry(s, n, key, e);
    assert(t[0] == (key, e));
}

/// What is kept for another question is not changed by removing one.
pub proof fn lemma_lookup_without(s: Kept, key: KeyView, other: KeyView)
    ensures
        other != key ==> lookup(without(s, key), other) == lookup(s, other),
        lookup(without(s, key), key) is None,
    decreases s.len(),
{
    reveal(Seq::filter);
    let keep = is_for_other(key);
    if s.len() == 0 {
        assert(without(s, key) =~= s);
    } else {
        let rest = s.drop_first();
        lemma_lookup_without(rest, key, other);
        assert(s =~= seq![s[0]] + rest);
        lemma_filter_concat(seq![s[0]], rest, keep);
        assert(seq![s[0]].drop_last() =~= Seq::<(KeyView, EntryView)>::empty());
        assert(Seq::<(KeyView, EntryView)>::empty().filter(keep) =~= Seq::<
            (KeyView, EntryView),
        >::empty());
        if keep(s[0]) {
            assert(seq![s[0]].filter(keep) =~= seq![s[0]]);
            assert(without(s, key) =~= seq![s[0]] + without(rest, key));
            assert(without(s, key).drop_first() =~= without(rest, key));
            assert(without(s, key)[0] == s[0]);
        } else {
            assert(seq![s[0]].filter(keep) =~= Seq::<(KeyView, EntryView)>::empty());
            assert(Seq::<(KeyView, EntryView)>::empty() + rest.filter(keep) =~= rest.filter(keep));
            assert(without(s, key) =~= without(rest, key));
        }
    }
}

proof fn lemma_filter_concat(
    a: Kept,
    b: Kept,
    keep: spec_fn((KeyView, EntryView)) -> bool,
)
    ensures
        (a + b).filter(keep) == a.filter(keep) + b.filter(keep),
    decreases b.len(),
{
    reveal(Seq::filter);
    if b.len() == 0 {
        assert(a + b =~= a);
        assert(b.filter(keep) =~= b);
        assert(a.filter(keep) + b =~= a.filter(keep));
    } else {
        lemma_filter_concat(a, b.drop_last(), keep);
        assert((a + b).drop_last() =~= a + b.drop_last());
        assert((a + b).last() == b.last());
        let l = a.filter(keep);
        let r = b.drop_last().filter(keep);
        assert((l + r).push(b.last()) =~= l + r.push(b.last()));
    }
}

} // verus!
