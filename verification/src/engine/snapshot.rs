//! Snapshots of the response cache: a binary format that carries the cached
//! answers over a restart.

use vstd::prelude::*;

use crate::engine::cache::DnsCache;
use crate::engine::cache;
use crate::engine::cache::CacheView;
use crate::engine::lru_store;
use crate::engine::lru_store::{Entry, EntryView, KeyTuple, Kept, Stored, StoredView};
use crate::message;
use crate::message::{question_class, question_name, question_type, read_message, show_name};
use crate::text;
use crate::text::{chars_of, lower_chars, same_chars};
use crate::upstream::transport::{KeyView, QueryKey};

verus! {

/// The most answer summaries that a record may hold.
pub const MAX_SNAPSHOT_ANSWERS: u64 = 64;

/// The longest message that a record may hold.
pub const MAX_SNAPSHOT_WIRE_LEN: u64 = 65_536;

/// The most TTL offsets that a record may hold.
pub const MAX_SNAPSHOT_TTL_OFFSETS: u64 = 256;

/// `BLWKCSN2`, which every snapshot starts with.
pub open spec fn magic() -> Seq<u8> {
    seq![66u8, 76u8, 87u8, 75u8, 67u8, 83u8, 78u8, 50u8]
}

/// A number in so many bytes, the least significant first.
pub open spec fn le(n: int, width: nat) -> Seq<u8>
    decreases width,
{
    if width == 0 {
        Seq::empty()
    } else {
        seq![(n % 256) as u8] + le(n / 256, (width - 1) as nat)
    }
}

/// The number in bytes, the least significant first.
pub open spec fn le_value(s: Seq<u8>) -> nat
    decreases s.len(),
{
    if s.len() == 0 {
        0
    } else {
        s[0] as nat + 256 * le_value(s.drop_first())
    }
}

/// How many numbers fit in so many bytes.
pub open spec fn range_of(width: nat) -> nat
    decreases width,
{
    if width == 0 {
        1
    } else {
        256 * range_of((width - 1) as nat)
    }
}

/// The number at the start of bytes, and what follows it.
pub open spec fn number(s: Seq<u8>, width: nat) -> Option<(nat, Seq<u8>)> {
    if s.len() < width {
        None
    } else {
        Some((le_value(s.take(width as int)), s.skip(width as int)))
    }
}

/// The bytes at the start of others, behind their length, and what follows them.
pub open spec fn chunk(s: Seq<u8>, width: nat) -> Option<(Seq<u8>, Seq<u8>)> {
    match number(s, width) {
        None => None,
        Some((n, rest)) => if rest.len() < n {
            None
        } else {
            Some((rest.take(n as int), rest.skip(n as int)))
        },
    }
}

/// The text that bytes are read as where they are not UTF-8.
pub uninterp spec fn lossy_text(bytes: Seq<u8>) -> Seq<char>;

/// The text that bytes are read as.
pub open spec fn text_in(bytes: Seq<u8>) -> Seq<char> {
    if vstd::utf8::valid_utf8(bytes) {
        vstd::utf8::decode_utf8(bytes)
    } else {
        lossy_text(bytes)
    }
}

/// `String::from_utf8_lossy` of std: the text that the bytes are the UTF-8 form
/// of, or else a text named after them.
#[verifier::external_body]
fn read_text(bytes: &[u8]) -> (r: String)
    ensures
        r@ == text_in(bytes@),
        !vstd::utf8::valid_utf8(bytes@) ==> r@ == lossy_text(bytes@),
{
    String::from_utf8_lossy(bytes).into_owned()
}

/// So many texts, each behind its length in two bytes.
pub open spec fn texts_at(s: Seq<u8>, n: nat) -> Option<(Seq<Seq<char>>, Seq<u8>)>
    decreases n,
{
    if n == 0 {
        Some((Seq::empty(), s))
    } else {
        match chunk(s, 2) {
            None => None,
            Some((bytes, rest)) => match texts_at(rest, (n - 1) as nat) {
                None => None,
                Some((more, end)) => Some((seq![text_in(bytes)] + more, end)),
            },
        }
    }
}

/// So many numbers of four bytes.
pub open spec fn numbers_at(s: Seq<u8>, n: nat) -> Option<(Seq<u32>, Seq<u8>)>
    decreases n,
{
    if n == 0 {
        Some((Seq::empty(), s))
    } else {
        match number(s, 4) {
            None => None,
            Some((first, rest)) => match numbers_at(rest, (n - 1) as nat) {
                None => None,
                Some((more, end)) => Some((seq![first as u32] + more, end)),
            },
        }
    }
}

/// What a record of a snapshot says: an encoded response under its question, how
/// old it was, and what is needed to serve it.
#[verifier::ext_equal]
pub struct SavedView {
    pub key: KeyView,
    pub age: u32,
    pub ttl: u32,
    pub rcode: u16,
    pub answers: Seq<Seq<char>>,
    pub bytes: Seq<u8>,
    pub ttl_offsets: Seq<u32>,
}

/// Whether bytes hold a message whose first question is the key's.
pub open spec fn answers_key(bytes: Seq<u8>, key: KeyView) -> bool {
    match message::wire_message(bytes) {
        Ok(m) => m.queries.len() > 0 && {
            let q = message::question_of(m.queries[0]);
            q.rtype == key.rtype && q.class == key.class && text::lowered(q.name) == text::lowered(
                key.name,
            )
        },
        Err(_) => false,
    }
}

/// Whether each TTL field lies within so many bytes.
pub open spec fn offsets_fit(offsets: Seq<u32>, len: nat) -> bool {
    forall|i: int| 0 <= i < offsets.len() ==> (#[trigger] offsets[i]) + 4 <= len
}

/// The question's flags as one number.
pub open spec fn flag_byte(key: KeyView) -> int {
    (if key.dnssec_ok {
        1int
    } else {
        0int
    }) + (if key.checking_disabled {
        2int
    } else {
        0int
    })
}

/// The question, the age, the TTL and the response code at the start of a record.
pub open spec fn head_at(s: Seq<u8>) -> Option<((KeyView, nat, nat, nat), Seq<u8>)> {
    match chunk(s, 2) {
        None => None,
        Some((name, s)) => match number(s, 2) {
            None => None,
            Some((rtype, s)) => match number(s, 2) {
                None => None,
                Some((class, s)) => match number(s, 1) {
                    None => None,
                    Some((flags, s)) => match number(s, 4) {
                        None => None,
                        Some((age, s)) => match number(s, 4) {
                            None => None,
                            Some((ttl, s)) => match number(s, 2) {
                                None => None,
                                Some((rcode, s)) => Some(
                                    (
                                        (
                                            KeyView {
                                                name: text_in(name),
                                                rtype: rtype as u16,
                                                class: class as u16,
                                                dnssec_ok: flags % 2 == 1,
                                                checking_disabled: flags / 2 % 2 == 1,
                                            },
                                            age,
                                            ttl,
                                            rcode,
                                        ),
                                        s,
                                    ),
                                ),
                            },
                        },
                    },
                },
            },
        },
    }
}

/// The answer summaries of a record, of which there are not too many.
pub open spec fn answers_at(s: Seq<u8>) -> Option<(Seq<Seq<char>>, Seq<u8>)> {
    match number(s, 2) {
        None => None,
        Some((n, s)) => if n > MAX_SNAPSHOT_ANSWERS {
            None
        } else {
            texts_at(s, n)
        },
    }
}

/// The message of a record, which is not too long.
pub open spec fn wire_at(s: Seq<u8>) -> Option<(Seq<u8>, Seq<u8>)> {
    match chunk(s, 4) {
        None => None,
        Some((bytes, s)) => if bytes.len() > MAX_SNAPSHOT_WIRE_LEN {
            None
        } else {
            Some((bytes, s))
        },
    }
}

/// The TTL offsets of a record, of which there are not too many.
pub open spec fn offsets_at(s: Seq<u8>) -> Option<(Seq<u32>, Seq<u8>)> {
    match number(s, 4) {
        None => None,
        Some((n, s)) => if n > MAX_SNAPSHOT_TTL_OFFSETS {
            None
        } else {
            numbers_at(s, n)
        },
    }
}

/// The record at the start of bytes, and what follows it. There is none where the
/// message does not answer the question it is filed under, or where a TTL offset
/// lies outside the message.
pub open spec fn record_at(s: Seq<u8>) -> Option<(SavedView, Seq<u8>)> {
    match head_at(s) {
        None => None,
        Some(((key, age, ttl, rcode), s)) => match answers_at(s) {
            None => None,
            Some((answers, s)) => match wire_at(s) {
                None => None,
                Some((bytes, s)) => if !answers_key(bytes, key) {
                    None
                } else {
                    match offsets_at(s) {
                        None => None,
                        Some((ttl_offsets, s)) => if !offsets_fit(ttl_offsets, bytes.len()) {
                            None
                        } else {
                            Some(
                                (
                                    SavedView {
                                        key,
                                        age: age as u32,
                                        ttl: ttl as u32,
                                        rcode: rcode as u16,
                                        answers,
                                        bytes,
                                        ttl_offsets,
                                    },
                                    s,
                                ),
                            )
                        },
                    }
                },
            },
        },
    }
}

/// The records at the start of bytes: so many, or as many as there are before the
/// first that cannot be read.
pub open spec fn records_at(s: Seq<u8>, n: nat) -> Seq<SavedView>
    decreases n,
{
    if n == 0 {
        Seq::empty()
    } else {
        match record_at(s) {
            None => Seq::empty(),
            Some((first, rest)) => seq![first] + records_at(rest, (n - 1) as nat),
        }
    }
}

/// When a snapshot was taken, in Unix seconds, and its records.
pub open spec fn snapshot_in(data: Seq<u8>) -> Option<(u64, Seq<SavedView>)> {
    if data.len() < 8 || data.take(8) != magic() {
        None
    } else {
        match number(data.skip(8), 8) {
            None => None,
            Some((unix, s)) => match number(s, 4) {
                None => None,
                Some((n, s)) => Some((unix as u64, records_at(s, n))),
            },
        }
    }
}

/// One record.
#[derive(Debug)]
pub struct ParsedEntry {
    pub key: QueryKey,
    pub age: u32,
    pub ttl: u32,
    pub rcode: u16,
    pub answers: Vec<String>,
    pub bytes: Vec<u8>,
    pub ttl_offsets: Vec<u32>,
}

impl View for ParsedEntry {
    type V = SavedView;

    open spec fn view(&self) -> SavedView {
        SavedView {
            key: self.key@,
            age: self.age,
            ttl: self.ttl,
            rcode: self.rcode,
            answers: text::texts(self.answers@),
            bytes: self.bytes@,
            ttl_offsets: self.ttl_offsets@,
        }
    }
}

proof fn lemma_range(width: nat)
    requires
        width <= 8,
    ensures
        range_of(width) <= u64::MAX + 1,
        width <= 7 ==> range_of(width) <= 0x100_0000_0000_0000,
        width == 1 ==> range_of(width) == 0x100,
        width == 2 ==> range_of(width) == 0x1_0000,
        width == 4 ==> range_of(width) == 0x1_0000_0000,
        width == 8 ==> range_of(width) == 0x1_0000_0000_0000_0000,
{
    reveal_with_fuel(range_of, 9);
}

proof fn lemma_le_value(s: Seq<u8>)
    ensures
        le_value(s) < range_of(s.len()),
    decreases s.len(),
{
    if s.len() > 0 {
        lemma_le_value(s.drop_first());
    }
}

/// Bounds-checked forward-only byte reader.
struct Reader<'a> {
    data: &'a [u8],
    pos: usize,
}

impl<'a> Reader<'a> {
    spec fn wf(self) -> bool {
        self.pos <= self.data@.len()
    }

    /// What has not been read yet.
    spec fn rest(self) -> Seq<u8> {
        self.data@.skip(self.pos as int)
    }

    fn take(&mut self, n: usize) -> (r: Option<&'a [u8]>)
        requires
            old(self).wf(),
        ensures
            final(self).wf(),
            if old(self).rest().len() < n {
                r is None && final(self).rest() == old(self).rest()
            } else {
                r matches Some(s) && s@ == old(self).rest().take(n as int) && final(self).rest()
                    == old(self).rest().skip(n as int)
            },
    {
        if self.data.len() - self.pos < n {
            return None;
        }
        let end: usize = self.pos + n;
        let s: &'a [u8] = vstd::slice::slice_subrange(self.data, self.pos, end);
        assert(s@ =~= self.rest().take(n as int));
        assert(self.data@.skip(end as int) =~= self.rest().skip(n as int));
        self.pos = end;
        Some(s)
    }

    /// A number of so many bytes.
    fn number(&mut self, width: usize) -> (r: Option<u64>)
        requires
            old(self).wf(),
            width <= 8,
        ensures
            final(self).wf(),
            match number(old(self).rest(), width as nat) {
                None => r is None,
                Some((n, rest)) => r matches Some(x) && x == n && n < range_of(width as nat)
                    && final(self).rest() == rest,
            },
    {
        let s: &'a [u8] = match self.take(width) {
            Some(s) => s,
            None => {
                return None;
            },
        };
        let mut value: u64 = 0;
        let mut i: usize = width;
        assert(s@.skip(width as int) =~= Seq::<u8>::empty());
        while i > 0
            invariant
                i <= width <= 8,
                s@.len() == width,
                value == le_value(s@.skip(i as int)),
            decreases i,
        {
            proof {
                let tail = s@.skip(i - 1);
                assert(tail.drop_first() =~= s@.skip(i as int));
                assert(tail[0] == s@[i - 1]);
                lemma_le_value(s@.skip(i as int));
                lemma_range(s@.skip(i as int).len());
            }
            i = i - 1;
            value = value * 256 + s[i] as u64;
        }
        proof {
            assert(s@.skip(0) =~= s@);
            lemma_le_value(s@);
        }
        Some(value)
    }

    /// Bytes behind their length.
    fn chunk(&mut self, width: usize) -> (r: Option<&'a [u8]>)
        requires
            old(self).wf(),
            width <= 8,
        ensures
            final(self).wf(),
            match chunk(old(self).rest(), width as nat) {
                None => r is None,
                Some((bytes, rest)) => r matches Some(s) && s@ == bytes && final(self).rest()
                    == rest,
            },
    {
        match self.number(width) {
            None => None,
            Some(n) => {
                if n > (self.data.len() - self.pos) as u64 {
                    None
                } else {
                    self.take(n as usize)
                }
            },
        }
    }

    fn texts(&mut self, n: usize) -> (r: Option<Vec<String>>)
        requires
            old(self).wf(),
        ensures
            final(self).wf(),
            match texts_at(old(self).rest(), n as nat) {
                None => r is None,
                Some((v, rest)) => r matches Some(x) && text::texts(x@) == v && final(self).rest()
                    == rest,
            },
    {
        let ghost all = texts_at(self.rest(), n as nat);
        let mut out: Vec<String> = Vec::new();
        let mut i: usize = 0;
        assert(match all {
            None => true,
            Some((v, end)) => text::texts(out@) + v =~= v,
        });
        while i < n
            invariant
                self.wf(),
                i <= n,
                all == texts_at(old(self).rest(), n as nat),
                match texts_at(self.rest(), (n - i) as nat) {
                    None => all is None,
                    Some((v, end)) => all == Some((text::texts(out@) + v, end)),
                },
            decreases n - i,
        {
            let ghost before = self.rest();
            let ghost done = text::texts(out@);
            let bytes: &'a [u8] = match self.chunk(2) {
                Some(b) => b,
                None => {
                    return None;
                },
            };
            let t: String = read_text(bytes);
            out.push(t);
            i = i + 1;
            proof {
                assert(text::texts(out@) =~= done.push(text_in(bytes@)));
                match texts_at(self.rest(), (n - i) as nat) {
                    None => {},
                    Some((v, end)) => {
                        assert(text::texts(out@) + v =~= done + (seq![text_in(bytes@)] + v));
                    },
                }
            }
        }
        assert(text::texts(out@) + Seq::<Seq<char>>::empty() =~= text::texts(out@));
        Some(out)
    }

    fn numbers(&mut self, n: usize) -> (r: Option<Vec<u32>>)
        requires
            old(self).wf(),
        ensures
            final(self).wf(),
            match numbers_at(old(self).rest(), n as nat) {
                None => r is None,
                Some((v, rest)) => r matches Some(x) && x@ == v && final(self).rest() == rest,
            },
    {
        let ghost all = numbers_at(self.rest(), n as nat);
        let mut out: Vec<u32> = Vec::new();
        let mut i: usize = 0;
        assert(match all {
            None => true,
            Some((v, end)) => out@ + v =~= v,
        });
        while i < n
            invariant
                self.wf(),
                i <= n,
                all == numbers_at(old(self).rest(), n as nat),
                match numbers_at(self.rest(), (n - i) as nat) {
                    None => all is None,
                    Some((v, end)) => all == Some((out@ + v, end)),
                },
            decreases n - i,
        {
            let ghost done = out@;
            let x: u64 = match self.number(4) {
                Some(x) => x,
                None => {
                    return None;
                },
            };
            proof {
                lemma_range(4);
            }
            out.push(x as u32);
            i = i + 1;
            proof {
                match numbers_at(self.rest(), (n - i) as nat) {
                    None => {},
                    Some((v, end)) => {
                        assert(out@ + v =~= done + (seq![x as u32] + v));
                    },
                }
            }
        }
        assert(out@ + Seq::<u32>::empty() =~= out@);
        Some(out)
    }
}

/// Checks that snapshot wire bytes answer their stored key.
pub fn wire_matches_key(bytes: &[u8], key: &QueryKey) -> (r: bool)
    ensures
        r == answers_key(bytes@, key@),
{
    match read_message(bytes) {
        Ok(msg) => {
            if msg.queries.len() == 0 {
                return false;
            }
            let q: &hickory_proto::op::Query = &msg.queries[0];
            let shown: String = show_name(&question_name(q));
            let asked: Vec<char> = chars_of(shown.as_str());
            let stored: Vec<char> = chars_of(key.name.as_str());
            question_type(q) == key.rtype && question_class(q) == key.class && same_chars(
                lower_chars(asked.as_slice()).as_slice(),
                lower_chars(stored.as_slice()).as_slice(),
            )
        },
        Err(_) => false,
    }
}

/// Whether each TTL field lies within so many bytes.
fn all_fit(offsets: &Vec<u32>, len: usize) -> (r: bool)
    ensures
        r == offsets_fit(offsets@, len as nat),
{
    let mut i: usize = 0;
    while i < offsets.len()
        invariant
            i <= offsets@.len(),
            forall|k: int| 0 <= k < i ==> (#[trigger] offsets@[k]) + 4 <= len,
        decreases offsets@.len() - i,
    {
        if offsets[i] as u64 + 4 > len as u64 {
            return false;
        }
        i = i + 1;
    }
    true
}

impl<'a> Reader<'a> {
    /// The question, the age, the TTL and the response code of a record.
    fn head(&mut self) -> (r: Option<(QueryKey, u32, u32, u16)>)
        requires
            old(self).wf(),
        ensures
            final(self).wf(),
            match head_at(old(self).rest()) {
                None => r is None,
                Some(((key, age, ttl, rcode), rest)) => r matches Some(x) && x.0@ == key && x.1
                    == age && x.2 == ttl && x.3 == rcode && final(self).rest() == rest,
            },
    {
        proof {
            lemma_range(1);
            lemma_range(2);
            lemma_range(4);
        }
        let name: &'a [u8] = match self.chunk(2) {
            Some(x) => x,
            None => {
                return None;
            },
        };
        let rtype: u64 = match self.number(2) {
            Some(x) => x,
            None => {
                return None;
            },
        };
        let class: u64 = match self.number(2) {
            Some(x) => x,
            None => {
                return None;
            },
        };
        let flags: u64 = match self.number(1) {
            Some(x) => x,
            None => {
                return None;
            },
        };
        let age: u64 = match self.number(4) {
            Some(x) => x,
            None => {
                return None;
            },
        };
        let ttl: u64 = match self.number(4) {
            Some(x) => x,
            None => {
                return None;
            },
        };
        let rcode: u64 = match self.number(2) {
            Some(x) => x,
            None => {
                return None;
            },
        };
        let key = QueryKey {
            name: read_text(name),
            rtype: rtype as u16,
            class: class as u16,
            dnssec_ok: flags % 2 == 1,
            checking_disabled: flags / 2 % 2 == 1,
        };
        Some((key, age as u32, ttl as u32, rcode as u16))
    }

    /// Parses one snapshot record.
    fn record(&mut self) -> (r: Option<ParsedEntry>)
        requires
            old(self).wf(),
        ensures
            final(self).wf(),
            match record_at(old(self).rest()) {
                None => r is None,
                Some((v, rest)) => r matches Some(x) && x@ == v && final(self).rest() == rest,
            },
    {
        proof {
            lemma_range(2);
            lemma_range(4);
        }
        let (key, age, ttl, rcode): (QueryKey, u32, u32, u16) = match self.head() {
            Some(x) => x,
            None => {
                return None;
            },
        };
        let answer_count: u64 = match self.number(2) {
            Some(x) => x,
            None => {
                return None;
            },
        };
        if answer_count > MAX_SNAPSHOT_ANSWERS {
            return None;
        }
        let answers: Vec<String> = match self.texts(answer_count as usize) {
            Some(x) => x,
            None => {
                return None;
            },
        };
        let wire: &'a [u8] = match self.chunk(4) {
            Some(x) => x,
            None => {
                return None;
            },
        };
        if wire.len() as u64 > MAX_SNAPSHOT_WIRE_LEN {
            return None;
        }
        // Do not install bytes under a mismatched cache key.
        if !wire_matches_key(wire, &key) {
            return None;
        }
        let offset_count: u64 = match self.number(4) {
            Some(x) => x,
            None => {
                return None;
            },
        };
        if offset_count > MAX_SNAPSHOT_TTL_OFFSETS {
            return None;
        }
        let ttl_offsets: Vec<u32> = match self.numbers(offset_count as usize) {
            Some(x) => x,
            None => {
                return None;
            },
        };
        if !all_fit(&ttl_offsets, wire.len()) {
            return None;
        }
        let mut bytes: Vec<u8> = Vec::new();
        bytes.extend_from_slice(wire);
        assert(bytes@ =~= wire@);
        Some(ParsedEntry { key, age, ttl, rcode, answers, bytes, ttl_offsets })
    }
}

pub open spec fn saved_views(v: Seq<ParsedEntry>) -> Seq<SavedView> {
    v.map_values(|p: ParsedEntry| p@)
}

/// A snapshot that was read.
#[derive(Debug)]
pub struct Snapshot {
    /// When it was taken, in Unix seconds.
    pub unix: u64,
    pub records: Vec<ParsedEntry>,
}

fn is_magic(s: &[u8]) -> (r: bool)
    ensures
        r == (s@ == magic()),
{
    if s.len() != 8 {
        return false;
    }
    let r: bool = s[0] == 66 && s[1] == 76 && s[2] == 87 && s[3] == 75 && s[4] == 67 && s[5] == 83
        && s[6] == 78 && s[7] == 50;
    proof {
        if r {
            assert(s@ =~= magic());
        } else {
            let m = magic();
            assert(m[0] == 66 && m[1] == 76 && m[2] == 87 && m[3] == 75 && m[4] == 67 && m[5] == 83
                && m[6] == 78 && m[7] == 50);
        }
    }
    r
}

/// Reads a snapshot: none where the bytes do not start as one, and no more
/// records than there are before a truncated or corrupt tail.
pub fn read_snapshot(data: &[u8]) -> (r: Option<Snapshot>)
    ensures
        match snapshot_in(data@) {
            None => r is None,
            Some((unix, records)) => r matches Some(s) && s.unix == unix && saved_views(s.records@)
                == records,
        },
{
    proof {
        lemma_range(8);
        lemma_range(4);
    }
    let mut reader = Reader { data, pos: 0 };
    assert(reader.rest() =~= data@);
    let start: &[u8] = match reader.take(8) {
        Some(x) => x,
        None => {
            return None;
        },
    };
    if !is_magic(start) {
        return None;
    }
    let unix: u64 = match reader.number(8) {
        Some(x) => x,
        None => {
            return None;
        },
    };
    let count: u64 = match reader.number(4) {
        Some(x) => x,
        None => {
            return None;
        },
    };
    let ghost all = records_at(reader.rest(), count as nat);
    let mut records: Vec<ParsedEntry> = Vec::new();
    let mut i: u64 = 0;
    let mut more: bool = true;
    assert(saved_views(records@) + all =~= all);
    while i < count && more
        invariant
            reader.wf(),
            i <= count,
            more ==> all == saved_views(records@) + records_at(reader.rest(), (count - i) as nat),
            !more ==> all == saved_views(records@),
        decreases count - i,
    {
        let ghost before = saved_views(records@);
        let ghost rest = reader.rest();
        match reader.record() {
            Some(p) => {
                records.push(p);
                proof {
                    assert(saved_views(records@) =~= before.push(p@));
                    let tail = records_at(reader.rest(), (count - i - 1) as nat);
                    assert(before.push(p@) + tail =~= before + (seq![p@] + tail));
                }
            },
            None => {
                more = false;
                assert(before + Seq::<SavedView>::empty() =~= before);
            },
        }
        i = i + 1;
    }
    proof {
        if more {
            assert(saved_views(records@) + Seq::<SavedView>::empty() =~= saved_views(records@));
        }
    }
    Some(Snapshot { unix, records })
}

/// A text behind its length in two bytes.
pub open spec fn text_bytes(t: Seq<char>) -> Seq<u8> {
    le((text::utf8_len(t) % 65536) as int, 2) + vstd::utf8::encode_utf8(t)
}

/// Texts, each behind its length.
pub open spec fn texts_bytes(v: Seq<Seq<char>>) -> Seq<u8>
    decreases v.len(),
{
    if v.len() == 0 {
        Seq::empty()
    } else {
        text_bytes(v[0]) + texts_bytes(v.drop_first())
    }
}

/// Numbers of four bytes.
pub open spec fn numbers_bytes(v: Seq<u32>) -> Seq<u8>
    decreases v.len(),
{
    if v.len() == 0 {
        Seq::empty()
    } else {
        le(v[0] as int, 4) + numbers_bytes(v.drop_first())
    }
}

/// The start of a record.
pub open spec fn head_bytes(v: SavedView) -> Seq<u8> {
    text_bytes(v.key.name) + (le(v.key.rtype as int, 2) + (le(v.key.class as int, 2) + (le(
        flag_byte(v.key),
        1,
    ) + (le(v.age as int, 4) + (le(v.ttl as int, 4) + le(v.rcode as int, 2))))))
}

/// The rest of a record.
pub open spec fn body_bytes(v: SavedView) -> Seq<u8> {
    le((v.answers.len() % 65536) as int, 2) + (texts_bytes(v.answers) + (le(
        (v.bytes.len() % 0x1_0000_0000) as int,
        4,
    ) + (v.bytes + (le((v.ttl_offsets.len() % 0x1_0000_0000) as int, 4) + numbers_bytes(
        v.ttl_offsets,
    )))))
}

/// A record.
#[verifier::opaque]
pub open spec fn record_bytes(v: SavedView) -> Seq<u8> {
    head_bytes(v) + body_bytes(v)
}

/// Records, one after another.
pub open spec fn records_bytes(v: Seq<SavedView>) -> Seq<u8>
    decreases v.len(),
{
    if v.len() == 0 {
        Seq::empty()
    } else {
        record_bytes(v[0]) + records_bytes(v.drop_first())
    }
}

/// A snapshot that was taken at a time, in Unix seconds.
pub open spec fn snapshot_bytes(unix: u64, records: Seq<SavedView>) -> Seq<u8> {
    magic() + (le(unix as int, 8) + (le((records.len() % 0x1_0000_0000) as int, 4) + records_bytes(
        records,
    )))
}

fn push_le(out: &mut Vec<u8>, n: u64, width: usize)
    ensures
        final(out)@ == old(out)@ + le(n as int, width as nat),
{
    let mut left: u64 = n;
    let mut i: usize = 0;
    let ghost before = out@;
    let ghost mut done = Seq::<u8>::empty();
    assert(done + le(n as int, width as nat) =~= le(n as int, width as nat));
    assert(out@ =~= before + done);
    while i < width
        invariant
            i <= width,
            out@ == before + done,
            done + le(left as int, (width - i) as nat) == le(n as int, width as nat),
        decreases width - i,
    {
        let b: u8 = (left % 256) as u8;
        out.push(b);
        proof {
            let tail = le((left / 256) as int, (width - i - 1) as nat);
            assert(done.push(b) + tail =~= done + (seq![b] + tail));
            done = done.push(b);
            assert(out@ =~= before + done);
        }
        left = left / 256;
        i = i + 1;
    }
    assert(done + Seq::<u8>::empty() =~= done);
}

fn push_text(out: &mut Vec<u8>, t: &str)
    ensures
        final(out)@ == old(out)@ + text_bytes(t@),
{
    let ghost before = out@;
    let bytes: &[u8] = t.as_bytes();
    push_le(out, bytes.len() as u64 % 65536, 2);
    let ghost mid = out@;
    out.extend_from_slice(bytes);
    assert(out@ =~= mid + bytes@);
    assert(out@ =~= before + text_bytes(t@));
}

proof fn lemma_texts_bytes_push(v: Seq<Seq<char>>, t: Seq<char>)
    ensures
        texts_bytes(v.push(t)) == texts_bytes(v) + text_bytes(t),
    decreases v.len(),
{
    if v.len() == 0 {
        assert(v.push(t).drop_first() =~= v);
        assert(v.push(t)[0] == t);
        assert(texts_bytes(v) =~= Seq::<u8>::empty());
        assert(text_bytes(t) + Seq::<u8>::empty() =~= text_bytes(t));
        assert(texts_bytes(v.push(t)) =~= text_bytes(t));
        assert(texts_bytes(v) + text_bytes(t) =~= text_bytes(t));
    } else {
        lemma_texts_bytes_push(v.drop_first(), t);
        assert(v.push(t).drop_first() =~= v.drop_first().push(t));
        assert(text_bytes(v[0]) + (texts_bytes(v.drop_first()) + text_bytes(t)) =~= (text_bytes(v[0])
            + texts_bytes(v.drop_first())) + text_bytes(t));
    }
}

proof fn lemma_numbers_bytes_push(v: Seq<u32>, n: u32)
    ensures
        numbers_bytes(v.push(n)) == numbers_bytes(v) + le(n as int, 4),
    decreases v.len(),
{
    if v.len() == 0 {
        assert(v.push(n).drop_first() =~= v);
        assert(v.push(n)[0] == n);
        assert(numbers_bytes(v) =~= Seq::<u8>::empty());
        assert(le(n as int, 4) + Seq::<u8>::empty() =~= le(n as int, 4));
        assert(numbers_bytes(v.push(n)) =~= le(n as int, 4));
        assert(numbers_bytes(v) + le(n as int, 4) =~= le(n as int, 4));
    } else {
        lemma_numbers_bytes_push(v.drop_first(), n);
        assert(v.push(n).drop_first() =~= v.drop_first().push(n));
        assert(le(v[0] as int, 4) + (numbers_bytes(v.drop_first()) + le(n as int, 4)) =~= (le(
            v[0] as int,
            4,
        ) + numbers_bytes(v.drop_first())) + le(n as int, 4));
    }
}

proof fn lemma_records_bytes_push(v: Seq<SavedView>, x: SavedView)
    ensures
        records_bytes(v.push(x)) == records_bytes(v) + record_bytes(x),
    decreases v.len(),
{
    if v.len() == 0 {
        assert(v.push(x).drop_first() =~= v);
        assert(v.push(x)[0] == x);
        assert(records_bytes(v) =~= Seq::<u8>::empty());
        assert(record_bytes(x) + Seq::<u8>::empty() =~= record_bytes(x));
        assert(records_bytes(v.push(x)) =~= record_bytes(x));
        assert(records_bytes(v) + record_bytes(x) =~= record_bytes(x));
    } else {
        lemma_records_bytes_push(v.drop_first(), x);
        assert(v.push(x).drop_first() =~= v.drop_first().push(x));
        assert(record_bytes(v[0]) + (records_bytes(v.drop_first()) + record_bytes(x)) =~= (
        record_bytes(v[0]) + records_bytes(v.drop_first())) + record_bytes(x));
    }
}

fn push_texts(out: &mut Vec<u8>, v: &Vec<String>)
    ensures
        final(out)@ == old(out)@ + texts_bytes(text::texts(v@)),
{
    let ghost before = out@;
    let mut i: usize = 0;
    assert(text::texts(v@).take(0) =~= Seq::<Seq<char>>::empty());
    assert(out@ =~= before + texts_bytes(text::texts(v@).take(0)));
    while i < v.len()
        invariant
            i <= v@.len(),
            out@ == before + texts_bytes(text::texts(v@).take(i as int)),
        decreases v@.len() - i,
    {
        let ghost done = text::texts(v@).take(i as int);
        push_text(out, v[i].as_str());
        proof {
            lemma_texts_bytes_push(done, v@[i as int]@);
            assert(text::texts(v@).take(i + 1) =~= done.push(v@[i as int]@));
            assert((before + texts_bytes(done)) + text_bytes(v@[i as int]@) =~= before + (
            texts_bytes(done) + text_bytes(v@[i as int]@)));
        }
        i = i + 1;
    }
    assert(text::texts(v@).take(i as int) =~= text::texts(v@));
}

fn push_numbers(out: &mut Vec<u8>, v: &Vec<u32>)
    ensures
        final(out)@ == old(out)@ + numbers_bytes(v@),
{
    let ghost before = out@;
    let mut i: usize = 0;
    assert(v@.take(0) =~= Seq::<u32>::empty());
    assert(out@ =~= before + numbers_bytes(v@.take(0)));
    while i < v.len()
        invariant
            i <= v@.len(),
            out@ == before + numbers_bytes(v@.take(i as int)),
        decreases v@.len() - i,
    {
        let ghost done = v@.take(i as int);
        push_le(out, v[i] as u64, 4);
        proof {
            lemma_numbers_bytes_push(done, v@[i as int]);
            assert(v@.take(i + 1) =~= done.push(v@[i as int]));
            assert((before + numbers_bytes(done)) + le(v@[i as int] as int, 4) =~= before + (
            numbers_bytes(done) + le(v@[i as int] as int, 4)));
        }
        i = i + 1;
    }
    assert(v@.take(i as int) =~= v@);
}

/// Appends the start of a record.
fn write_head(out: &mut Vec<u8>, key: &KeyTuple, age: u32, ttl: u32, rcode: u16, Ghost(v): Ghost<
    SavedView,
>)
    requires
        v.key == lru_store::tuple_view(*key),
        v.age == age,
        v.ttl == ttl,
        v.rcode == rcode,
    ensures
        final(out)@ == old(out)@ + head_bytes(v),
{
    let ghost before = out@;
    push_text(out, key.0.as_str());
    push_le(out, key.1 as u64, 2);
    push_le(out, key.2 as u64, 2);
    let mut flags: u64 = 0;
    if key.3 {
        flags = flags + 1;
    }
    if key.4 {
        flags = flags + 2;
    }
    push_le(out, flags, 1);
    push_le(out, age as u64, 4);
    push_le(out, ttl as u64, 4);
    push_le(out, rcode as u64, 2);
    assert(out@ =~= before + head_bytes(v));
}

/// Appends a wire entry using little-endian length prefixes.
fn write_record(
    out: &mut Vec<u8>,
    key: &KeyTuple,
    age: u32,
    ttl: u32,
    rcode: u16,
    answers: &Vec<String>,
    bytes: &Vec<u8>,
    offsets: &Vec<u32>,
)
    ensures
        final(out)@ == old(out)@ + record_bytes(
            SavedView {
                key: lru_store::tuple_view(*key),
                age,
                ttl,
                rcode,
                answers: text::texts(answers@),
                bytes: bytes@,
                ttl_offsets: offsets@,
            },
        ),
{
    let ghost v = SavedView {
        key: lru_store::tuple_view(*key),
        age,
        ttl,
        rcode,
        answers: text::texts(answers@),
        bytes: bytes@,
        ttl_offsets: offsets@,
    };
    let ghost before = out@;
    write_head(out, key, age, ttl, rcode, Ghost(v));
    let ghost mid = out@;
    push_le(out, answers.len() as u64 % 65536, 2);
    push_texts(out, answers);
    push_le(out, bytes.len() as u64 % 0x1_0000_0000, 4);
    let ghost here = out@;
    out.extend_from_slice(bytes.as_slice());
    assert(out@ =~= here + bytes@);
    push_le(out, offsets.len() as u64 % 0x1_0000_0000, 4);
    push_numbers(out, offsets);
    assert(out@ =~= mid + body_bytes(v));
    proof {
        reveal(record_bytes);
    }
    assert(out@ =~= before + record_bytes(v));
}

/// How long an entry can be served: for its TTL and the serve-stale window.
pub open spec fn serving_time(e: EntryView, stale_max_age: u32) -> u32 {
    if e.ttl + stale_max_age > u32::MAX {
        u32::MAX
    } else {
        (e.ttl + stale_max_age) as u32
    }
}

/// The record that is written for an entry: none for one that is not in wire form,
/// nor for one that cannot be served any more.
pub open spec fn saved_of(
    key: KeyView,
    e: EntryView,
    stale_max_age: u32,
    now: u64,
) -> Option<SavedView> {
    match e.stored {
        StoredView::Message(_) => None,
        StoredView::Wire { bytes, ttl_offsets, rcode, answers } => if cache::age_of(e, now)
            >= serving_time(e, stale_max_age) {
            None
        } else {
            Some(
                SavedView {
                    key,
                    age: cache::age_of(e, now),
                    ttl: e.ttl,
                    rcode,
                    answers,
                    bytes,
                    ttl_offsets,
                },
            )
        },
    }
}

/// The records that are written for entries.
pub open spec fn saved_in(kept: Kept, stale_max_age: u32, now: u64) -> Seq<SavedView>
    decreases kept.len(),
{
    if kept.len() == 0 {
        Seq::empty()
    } else {
        let before = saved_in(kept.drop_last(), stale_max_age, now);
        match saved_of(kept.last().0, kept.last().1, stale_max_age, now) {
            Some(v) => before.push(v),
            None => before,
        }
    }
}

/// What is cached again for a record after so many seconds: nothing where it
/// cannot be served any more, nor where it is older than the clock. The verdict
/// of the filter does not survive.
pub open spec fn revived(v: SavedView, stale_max_age: u32, elapsed: int, now: u64) -> Option<
    EntryView,
> {
    let age = v.age + elapsed;
    if age >= v.ttl + stale_max_age || 1000 * age > now {
        None
    } else {
        Some(
            EntryView {
                stored: StoredView::Wire {
                    bytes: v.bytes,
                    ttl_offsets: v.ttl_offsets,
                    rcode: v.rcode,
                    answers: v.answers,
                },
                stored_at: (now - 1000 * age) as u64,
                ttl: v.ttl,
                verdict: None,
            },
        )
    }
}

/// What restoring a record makes of a cache.
pub open spec fn after_restore(c: CacheView, v: SavedView, elapsed: int, now: u64) -> CacheView {
    match revived(v, c.cfg.stale_max_age, elapsed, now) {
        Some(e) => CacheView { kept: lru_store::with_entry(c.kept, c.limit, v.key, e), ..c },
        None => c,
    }
}

/// What restoring records makes of a cache.
pub open spec fn after_restores(
    c: CacheView,
    records: Seq<SavedView>,
    elapsed: int,
    now: u64,
) -> CacheView
    decreases records.len(),
{
    if records.len() == 0 {
        c
    } else {
        after_restore(
            after_restores(c, records.drop_last(), elapsed, now),
            records.last(),
            elapsed,
            now,
        )
    }
}

/// How many of the records are cached again.
pub open spec fn restored_count(
    records: Seq<SavedView>,
    stale_max_age: u32,
    elapsed: int,
    now: u64,
) -> nat
    decreases records.len(),
{
    if records.len() == 0 {
        0
    } else {
        restored_count(records.drop_last(), stale_max_age, elapsed, now) + if revived(
            records.last(),
            stale_max_age,
            elapsed,
            now,
        ) is Some {
            1nat
        } else {
            0nat
        }
    }
}

/// Seconds between two times of the wall clock, which may have been set back.
pub open spec fn elapsed_between(then: u64, now: u64) -> int {
    if now > then {
        now - then
    } else {
        0
    }
}

proof fn lemma_restores_keep_config(
    c: CacheView,
    records: Seq<SavedView>,
    elapsed: int,
    now: u64,
)
    ensures
        after_restores(c, records, elapsed, now).cfg == c.cfg,
        after_restores(c, records, elapsed, now).limit == c.limit,
        after_restores(c, records, elapsed, now).counts == c.counts,
    decreases records.len(),
{
    if records.len() > 0 {
        lemma_restores_keep_config(c, records.drop_last(), elapsed, now);
    }
}

/// How many records there are at most in as many entries.
proof fn lemma_saved_len(kept: Kept, stale_max_age: u32, now: u64)
    ensures
        saved_in(kept, stale_max_age, now).len() <= kept.len(),
    decreases kept.len(),
{
    if kept.len() > 0 {
        lemma_saved_len(kept.drop_last(), stale_max_age, now);
    }
}

impl DnsCache {
    /// Appends the records of live wire entries, and says how many there are.
    pub fn write_live(&self, out: &mut Vec<u8>, now: u64) -> (r: usize)
        ensures
            ({
                let saved = saved_in(self@.kept, self@.cfg.stale_max_age, now);
                final(out)@ == old(out)@ + records_bytes(saved) && r == saved.len()
            }),
    {
        let stale_max_age: u32 = self.stale_max_age();
        let pairs: Vec<(&KeyTuple, &Entry)> = self.pairs();
        let ghost kept = self@.kept;
        let ghost before = out@;
        let n: usize = pairs.len();
        let mut i: usize = 0;
        let mut count: usize = 0;
        assert(kept.take(0) =~= Seq::empty());
        assert(before + records_bytes(saved_in(kept.take(0), stale_max_age, now)) =~= before);
        while i < n
            invariant
                i <= n,
                n == pairs@.len(),
                kept == lru_store::pair_views(pairs@),
                out@ == before + records_bytes(saved_in(kept.take(i as int), stale_max_age, now)),
                count == saved_in(kept.take(i as int), stale_max_age, now).len(),
            decreases n - i,
        {
            let (key, entry): (&KeyTuple, &Entry) = pairs[i];
            let ghost done = saved_in(kept.take(i as int), stale_max_age, now);
            proof {
                let upto = kept.take(i + 1);
                assert(upto.drop_last() =~= kept.take(i as int));
                assert(upto.last() == (lru_store::tuple_view(*key), entry@));
                lemma_saved_len(kept.take(i as int), stale_max_age, now);
            }
            let age: u32 = entry.age_secs(now);
            if age < entry.ttl.saturating_add(stale_max_age) {
                if let Stored::Wire { bytes, ttl_offsets, rcode, answers } = &entry.stored {
                    let ghost mid = out@;
                    write_record(out, key, age, entry.ttl, *rcode, answers, bytes, ttl_offsets);
                    count = count + 1;
                    proof {
                        let v = saved_of(
                            lru_store::tuple_view(*key),
                            entry@,
                            stale_max_age,
                            now,
                        )->0;
                        lemma_records_bytes_push(done, v);
                        assert(out@ =~= before + records_bytes(done.push(v)));
                    }
                }
            }
            i = i + 1;
        }
        assert(kept.take(i as int) =~= kept);
        count
    }

    /// Serializes live wire entries for restart persistence, with the Unix time
    /// `unix`.
    pub fn export_snapshot(&self, unix: u64, now: u64) -> (r: Vec<u8>)
        ensures
            r@ == snapshot_bytes(unix, saved_in(self@.kept, self@.cfg.stale_max_age, now)),
    {
        let mut body: Vec<u8> = Vec::new();
        let count: usize = self.write_live(&mut body, now);
        frame_snapshot(unix, count, body)
    }

    /// Caches a record again after so many seconds, where it can still be served.
    pub fn restore(&mut self, parsed: ParsedEntry, elapsed: u64, now: u64) -> (r: bool)
        ensures
            r == (revived(parsed@, old(self)@.cfg.stale_max_age, elapsed as int, now) is Some),
            final(self)@ == after_restore(old(self)@, parsed@, elapsed as int, now),
    {
        if elapsed > u64::MAX - parsed.age as u64 {
            return false;
        }
        let age: u64 = parsed.age as u64 + elapsed;
        if age >= parsed.ttl as u64 + self.stale_max_age() as u64 {
            return false;
        }
        if 1000 * age > now {
            return false;
        }
        let entry = Entry {
            stored: Stored::Wire {
                bytes: parsed.bytes,
                ttl_offsets: parsed.ttl_offsets,
                rcode: parsed.rcode,
                answers: parsed.answers,
            },
            stored_at: now - 1000 * age,
            ttl: parsed.ttl,
            // Filter generations do not survive restarts.
            verdict: None,
        };
        self.keep(&parsed.key, entry);
        true
    }

    /// Restores live entries from an exported snapshot, and says how many.
    pub fn import_snapshot(&mut self, data: &[u8], unix: u64, now: u64) -> (r: usize)
        ensures
            match snapshot_in(data@) {
                None => r == 0 && final(self)@ == old(self)@,
                Some((then, records)) => {
                    &&& final(self)@ == after_restores(
                        old(self)@,
                        records,
                        elapsed_between(then, unix),
                        now,
                    )
                    &&& r == restored_count(
                        records,
                        old(self)@.cfg.stale_max_age,
                        elapsed_between(then, unix),
                        now,
                    )
                },
            },
    {
        let snapshot: Snapshot = match read_snapshot(data) {
            Some(s) => s,
            None => {
                return 0;
            },
        };
        let elapsed: u64 = if unix > snapshot.unix {
            unix - snapshot.unix
        } else {
            0
        };
        self.restore_all(snapshot.records, elapsed, now)
    }

    /// Caches records again, and says how many.
    fn restore_all(&mut self, records: Vec<ParsedEntry>, elapsed: u64, now: u64) -> (r: usize)
        ensures
            final(self)@ == after_restores(
                old(self)@,
                saved_views(records@),
                elapsed as int,
                now,
            ),
            r == restored_count(
                saved_views(records@),
                old(self)@.cfg.stale_max_age,
                elapsed as int,
                now,
            ),
    {
        let ghost all = saved_views(records@);
        let ghost start = self@;
        let ghost stale = self@.cfg.stale_max_age;
        let n: usize = records.len();
        let mut restored: usize = 0;
        assert(all.take(0) =~= Seq::empty());
        for p in it: records
            invariant
                all == saved_views(it.seq()),
                stale == start.cfg.stale_max_age,
                self@ == after_restores(start, all.take(it.index() as int), elapsed as int, now),
                restored == restored_count(all.take(it.index() as int), stale, elapsed as int, now),
                restored <= it.index() <= n,
                n == all.len(),
        {
            proof {
                let upto = all.take(it.index() + 1);
                assert(upto.drop_last() =~= all.take(it.index() as int));
                assert(upto.last() == p@);
                lemma_restores_keep_config(start, upto.drop_last(), elapsed as int, now);
            }
            if self.restore(p, elapsed, now) {
                restored = restored + 1;
            }
        }
        assert(all.take(all.len() as int) =~= all);
        restored
    }
}

/// Puts the records of a snapshot behind its header.
pub fn frame_snapshot(unix: u64, count: usize, body: Vec<u8>) -> (r: Vec<u8>)
    ensures
        r@ == magic() + (le(unix as int, 8) + (le(count as int % 0x1_0000_0000, 4) + body@)),
{
    let mut out: Vec<u8> = vec![66u8, 76u8, 87u8, 75u8, 67u8, 83u8, 78u8, 50u8];
    assert(out@ =~= magic());
    push_le(&mut out, unix, 8);
    push_le(&mut out, count as u64 % 0x1_0000_0000, 4);
    let ghost mid = out@;
    let mut body: Vec<u8> = body;
    let ghost records = body@;
    out.append(&mut body);
    assert(out@ =~= mid + records);
    assert(out@ =~= magic() + (le(unix as int, 8) + (le(count as int % 0x1_0000_0000, 4)
        + records)));
    out
}

} // verus!
