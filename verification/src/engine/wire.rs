//! DNS wire parsing and cache-response patching.

use vstd::prelude::*;

verus! {

/// OPT fields at the TTL offset must not be patched.
pub const TYPE_OPT: u16 = 41;

/// The big-endian 16-bit number at offset `i`.
pub open spec fn be16(s: Seq<u8>, i: int) -> int {
    s[i] * 256 + s[i + 1]
}

/// The offset just after the name at `pos`. Pointers are not followed: a
/// pointer is two bytes and ends the name. `None` where a label length lies
/// outside the buffer or uses one of the two reserved label kinds.
pub open spec fn name_end(s: Seq<u8>, pos: int) -> Option<int>
    decreases s.len() + 64 - pos,
{
    if pos < 0 || pos >= s.len() {
        None
    } else if s[pos] == 0 {
        Some(pos + 1)
    } else if s[pos] < 64 {
        name_end(s, pos + 1 + s[pos])
    } else if s[pos] >= 192 {
        Some(pos + 2)
    } else {
        None
    }
}

/// The offset after `n` consecutive questions that start at `pos`.
pub open spec fn questions_end(s: Seq<u8>, pos: int, n: nat) -> Option<int>
    decreases n,
{
    if n == 0 {
        Some(pos)
    } else {
        match questions_end(s, pos, (n - 1) as nat) {
            Some(p) => match name_end(s, p) {
                Some(e) => if e + 4 <= s.len() { Some(e + 4) } else { None },
                None => None,
            },
            None => None,
        }
    }
}

/// The resource record at `pos`: the offset of its fixed fields (just after
/// the owner name) and the offset after its data.
pub open spec fn record_at(s: Seq<u8>, pos: int) -> Option<(int, int)> {
    match name_end(s, pos) {
        Some(f) => if f + 10 <= s.len() && f + 10 + be16(s, f + 8) <= s.len() {
            Some((f, f + 10 + be16(s, f + 8)))
        } else {
            None
        },
        None => None,
    }
}

/// `n` consecutive records from `pos`: the offsets of their fixed fields and
/// the offset after the last one.
pub open spec fn records(s: Seq<u8>, pos: int, n: nat) -> Option<(Seq<int>, int)>
    decreases n,
{
    if n == 0 {
        Some((Seq::empty(), pos))
    } else {
        match records(s, pos, (n - 1) as nat) {
            Some((fields, p)) => match record_at(s, p) {
                Some((f, e)) => Some((fields.push(f), e)),
                None => None,
            },
            None => None,
        }
    }
}

/// How many records the header of `s` announces, over all three sections.
pub open spec fn record_count(s: Seq<u8>) -> nat {
    (be16(s, 6) + be16(s, 8) + be16(s, 10)) as nat
}

/// The fixed-field offsets of every record of the message `s`, in order.
/// `None` where the message is too short for what its header announces.
pub open spec fn message_records(s: Seq<u8>) -> Option<Seq<int>> {
    if s.len() < 12 {
        None
    } else {
        match questions_end(s, 12, be16(s, 4) as nat) {
            Some(p) => match records(s, p, record_count(s)) {
                Some((fields, _)) => Some(fields),
                None => None,
            },
            None => None,
        }
    }
}

/// Whether the record with fixed fields at `f` is an OPT record.
pub open spec fn is_opt(s: Seq<u8>, f: int) -> bool {
    be16(s, f) == TYPE_OPT
}

/// The TTL offsets of the records with fixed fields at `fields`, without OPT.
pub open spec fn ttl_offsets(s: Seq<u8>, fields: Seq<int>) -> Seq<int> {
    fields.filter(|f: int| !is_opt(s, f)).map_values(|f: int| f + 4)
}

/// A name takes at least one byte.
proof fn lemma_name_end(s: Seq<u8>, pos: int)
    ensures
        name_end(s, pos) matches Some(e) ==> 0 <= pos < e <= s.len() + 1,
    decreases s.len() + 64 - pos,
{
    if 0 <= pos < s.len() && 0 < s[pos] < 64 {
        lemma_name_end(s, pos + 1 + s[pos]);
    }
}

/// A failure within the first `m` questions is a failure of the first `n`.
proof fn lemma_questions_none(s: Seq<u8>, pos: int, m: nat, n: nat)
    requires
        m <= n,
        questions_end(s, pos, m) is None,
    ensures
        questions_end(s, pos, n) is None,
    decreases n,
{
    if m < n {
        lemma_questions_none(s, pos, m, (n - 1) as nat);
    }
}

/// A failure within the first `m` records is a failure of the first `n`.
proof fn lemma_records_none(s: Seq<u8>, pos: int, m: nat, n: nat)
    requires
        m <= n,
        records(s, pos, m) is None,
    ensures
        records(s, pos, n) is None,
    decreases n,
{
    if m < n {
        lemma_records_none(s, pos, m, (n - 1) as nat);
    }
}

/// Reads the big-endian 16-bit number at `i`.
fn read_u16(buf: &[u8], i: usize) -> (r: u16)
    requires
        i + 1 < buf@.len(),
    ensures
        r == be16(buf@, i as int),
{
    buf[i] as u16 * 256 + buf[i + 1] as u16
}

/// Returns the offset after a DNS name without following pointers.
fn skip_name(buf: &[u8], start: usize) -> (r: Option<usize>)
    ensures
        match r {
            Some(e) => name_end(buf@, start as int) == Some(e as int),
            None => name_end(buf@, start as int) matches Some(e) ==> e > usize::MAX,
        },
        r matches Some(e) ==> start < e <= buf@.len() + 1,
{
    proof {
        lemma_name_end(buf@, start as int);
    }
    let mut pos: usize = start;
    loop
        invariant
            name_end(buf@, start as int) == name_end(buf@, pos as int),
            name_end(buf@, start as int) matches Some(e) ==> start < e <= buf@.len() + 1,
        decreases buf@.len() + 64 - pos,
    {
        if pos >= buf.len() {
            return None;
        }
        let b: u8 = buf[pos];
        if b == 0 {
            return Some(pos + 1);
        } else if b < 64 {
            match pos.checked_add(1 + b as usize) {
                Some(next) => {
                    pos = next;
                },
                None => {
                    assert(name_end(buf@, pos + 1 + b) is None);
                    return None;
                },
            }
        } else if b >= 192 {
            return pos.checked_add(2);
        } else {
            return None;
        }
    }
}

/// Skips `n` questions from `start`.
fn skip_questions(buf: &[u8], start: usize, n: usize) -> (r: Option<usize>)
    ensures
        match r {
            Some(e) => questions_end(buf@, start as int, n as nat) == Some(e as int),
            None => questions_end(buf@, start as int, n as nat) is None,
        },
        r is Some && n > 0 ==> r->0 <= buf@.len(),
{
    let mut pos: usize = start;
    let mut i: usize = 0;
    while i < n
        invariant
            i <= n,
            questions_end(buf@, start as int, i as nat) == Some(pos as int),
            i > 0 ==> pos <= buf@.len(),
        decreases n - i,
    {
        let len: usize = buf.len();
        let next: Option<usize> = skip_name(buf, pos);
        let fits: bool = match next {
            Some(e) => e <= len && len - e >= 4,
            None => false,
        };
        if !fits {
            proof {
                assert(questions_end(buf@, start as int, (i + 1) as nat) is None);
                lemma_questions_none(buf@, start as int, (i + 1) as nat, n as nat);
            }
            return None;
        }
        pos = next.unwrap() + 4;
        i = i + 1;
    }
    Some(pos)
}

/// Reads the record at `pos`: where its fixed fields start and where it ends.
fn read_record_at(buf: &[u8], pos: usize) -> (r: Option<(usize, usize)>)
    ensures
        match r {
            Some((f, e)) => {
                &&& record_at(buf@, pos as int) == Some((f as int, e as int))
                &&& pos < f && f + 10 <= e <= buf@.len()
            },
            None => record_at(buf@, pos as int) is None,
        },
{
    let len: usize = buf.len();
    match skip_name(buf, pos) {
        Some(f) => {
            if f > len || len - f < 10 {
                return None;
            }
            let rdlen: usize = read_u16(buf, f + 8) as usize;
            if len - f - 10 < rdlen {
                return None;
            }
            Some((f, f + 10 + rdlen))
        },
        None => None,
    }
}

/// Finds resource-record TTL offsets, excluding OPT.
pub fn scan_ttl_offsets(buf: &[u8]) -> (r: Option<Vec<u32>>)
    ensures
        match message_records(buf@) {
            Some(fields) => {
                &&& r matches Some(offsets)
                &&& offsets@ == ttl_offsets(buf@, fields).map_values(|o: int| o as u32)
            },
            None => r is None,
        },
{
    if buf.len() < 12 {
        return None;
    }
    let qd: usize = read_u16(buf, 4) as usize;
    let an: usize = read_u16(buf, 6) as usize;
    let ns: usize = read_u16(buf, 8) as usize;
    let ar: usize = read_u16(buf, 10) as usize;
    let start: usize = match skip_questions(buf, 12, qd) {
        Some(p) => p,
        None => {
            return None;
        },
    };
    let rr_count: usize = an + ns + ar;
    let mut offsets: Vec<u32> = Vec::new();
    let ghost mut fields: Seq<int> = Seq::empty();
    let mut pos: usize = start;
    let mut i: usize = 0;
    proof {
        reveal(Seq::filter);
        assert(offsets@ =~= ttl_offsets(buf@, fields).map_values(|o: int| o as u32));
    }
    while i < rr_count
        invariant
            i <= rr_count,
            records(buf@, start as int, i as nat) == Some((fields, pos as int)),
            offsets@ == ttl_offsets(buf@, fields).map_values(|o: int| o as u32),
            rr_count == record_count(buf@),
            buf@.len() >= 12,
            questions_end(buf@, 12, be16(buf@, 4) as nat) == Some(start as int),
        decreases rr_count - i,
    {
        match read_record_at(buf, pos) {
            Some((f, e)) => {
                proof {
                    reveal(Seq::filter);
                    assert(fields.push(f as int).drop_last() =~= fields);
                }
                if read_u16(buf, f) != TYPE_OPT {
                    offsets.push((f + 4) as u32);
                }
                proof {
                    let pushed = fields.push(f as int);
                    assert(offsets@ =~= ttl_offsets(buf@, pushed).map_values(|o: int| o as u32));
                    fields = pushed;
                }
                pos = e;
            },
            None => {
                proof {
                    assert(records(buf@, start as int, (i + 1) as nat) is None);
                    lemma_records_none(buf@, start as int, (i + 1) as nat, rr_count as nat);
                }
                return None;
            },
        }
        i = i + 1;
    }
    Some(offsets)
}

/// `s` with the bytes of `b` written over it from `at` on.
pub open spec fn overwrite(s: Seq<u8>, at: int, b: Seq<u8>) -> Seq<u8> {
    Seq::new(s.len(), |i: int| if at <= i < at + b.len() { b[i - at] } else { s[i] })
}

/// The four bytes of a TTL, most significant first.
pub open spec fn ttl_bytes(ttl: u32) -> Seq<u8> {
    seq![
        (ttl / 0x100_0000) as u8,
        (ttl / 0x1_0000 % 0x100) as u8,
        (ttl / 0x100 % 0x100) as u8,
        (ttl % 0x100) as u8,
    ]
}

/// The two bytes of a transaction id, most significant first.
pub open spec fn id_bytes(id: u16) -> Seq<u8> {
    seq![(id / 0x100) as u8, (id % 0x100) as u8]
}

/// `s` with the TTL written at every offset of `offsets` where four bytes fit,
/// first to last.
pub open spec fn with_ttls(s: Seq<u8>, ttl: u32, offsets: Seq<u32>) -> Seq<u8>
    decreases offsets.len(),
{
    if offsets.len() == 0 {
        s
    } else {
        let before = with_ttls(s, ttl, offsets.drop_last());
        if offsets.last() + 4 <= s.len() {
            overwrite(before, offsets.last() as int, ttl_bytes(ttl))
        } else {
            before
        }
    }
}

/// `s` with the transaction id written at its start, where two bytes fit.
pub open spec fn with_id(s: Seq<u8>, id: u16) -> Seq<u8> {
    if s.len() >= 2 {
        overwrite(s, 0, id_bytes(id))
    } else {
        s
    }
}

/// Patches a response transaction id and TTLs.
pub fn patch(buf: &mut [u8], id: u16, ttl: u32, ttl_offsets: &[u32])
    ensures
        final(buf)@ == with_ttls(with_id(old(buf)@, id), ttl, ttl_offsets@),
{
    if buf.len() >= 2 {
        buf[0] = (id / 0x100) as u8;
        buf[1] = (id % 0x100) as u8;
    }
    let ghost start = with_id(old(buf)@, id);
    assert(buf@ =~= start);
    let t0: u8 = (ttl / 0x100_0000) as u8;
    let t1: u8 = (ttl / 0x1_0000 % 0x100) as u8;
    let t2: u8 = (ttl / 0x100 % 0x100) as u8;
    let t3: u8 = (ttl % 0x100) as u8;
    let mut i: usize = 0;
    while i < ttl_offsets.len()
        invariant
            i <= ttl_offsets@.len(),
            buf@ == with_ttls(start, ttl, ttl_offsets@.take(i as int)),
            buf@.len() == start.len(),
            seq![t0, t1, t2, t3] == ttl_bytes(ttl),
        decreases ttl_offsets@.len() - i,
    {
        let o: usize = ttl_offsets[i] as usize;
        let ghost before = buf@;
        proof {
            let upto = ttl_offsets@.take(i + 1);
            assert(upto.drop_last() =~= ttl_offsets@.take(i as int));
            assert(upto.last() == ttl_offsets@[i as int]);
        }
        if buf.len() >= 4 && o <= buf.len() - 4 {
            buf[o] = t0;
            buf[o + 1] = t1;
            buf[o + 2] = t2;
            buf[o + 3] = t3;
            assert(buf@ =~= overwrite(before, o as int, ttl_bytes(ttl)));
        }
        i = i + 1;
    }
    assert(ttl_offsets@.take(i as int) =~= ttl_offsets@);
}

/// Query fields parsed without decoding a whole message.
#[derive(Debug, Clone)]
pub struct ParsedQuery {
    pub id: u16,
    pub recursion_desired: bool,
    pub checking_disabled: bool,
    pub opcode: u8,
    /// Dot-terminated question name in its wire case.
    pub qname: String,
    pub qtype: u16,
    pub qclass: u16,
    /// Advertised EDNS UDP payload size, if the query carries an OPT record.
    pub edns_payload: Option<u16>,
    /// EDNS DO (DNSSEC OK) bit.
    pub dnssec_ok: bool,
}

/// What a [`ParsedQuery`] says.
pub struct QueryView {
    pub id: int,
    pub recursion_desired: bool,
    pub checking_disabled: bool,
    pub opcode: int,
    pub qname: Seq<char>,
    pub qtype: int,
    pub qclass: int,
    pub edns_payload: Option<int>,
    pub dnssec_ok: bool,
}

impl View for ParsedQuery {
    type V = QueryView;

    open spec fn view(&self) -> QueryView {
        QueryView {
            id: self.id as int,
            recursion_desired: self.recursion_desired,
            checking_disabled: self.checking_disabled,
            opcode: self.opcode as int,
            qname: self.qname@,
            qtype: self.qtype as int,
            qclass: self.qclass as int,
            edns_payload: match self.edns_payload {
                Some(p) => Some(p as int),
                None => None,
            },
            dnssec_ok: self.dnssec_ok,
        }
    }
}

/// A byte that a name's text form shows as itself: letters, digits and `_`
/// anywhere, `-` not at the start of a label, `*` only there.
pub open spec fn plain_name_byte(c: u8, first: bool) -> bool {
    ||| 0x30 <= c <= 0x39
    ||| 0x41 <= c <= 0x5a
    ||| 0x61 <= c <= 0x7a
    ||| c == 0x5f
    ||| c == 0x2d && !first
    ||| c == 0x2a && first
}

/// Whether the `len` bytes from `at` on are plain as a label.
pub open spec fn plain_label(s: Seq<u8>, at: int, len: int) -> bool {
    forall|j: int| 0 <= j < len ==> plain_name_byte(#[trigger] s[at + j], j == 0)
}

/// The labels from `pos` to the root, each followed by a dot, and the offset
/// after the root label. `None` where a label is cut off, is a pointer or a
/// reserved kind, or is not plain.
pub open spec fn labels_text(s: Seq<u8>, pos: int) -> Option<(Seq<char>, int)>
    decreases s.len() - pos,
{
    if pos < 0 || pos >= s.len() || s[pos] >= 64 {
        None
    } else if s[pos] == 0 {
        Some((Seq::empty(), pos + 1))
    } else if pos + 1 + s[pos] <= s.len() && plain_label(s, pos + 1, s[pos] as int) {
        match labels_text(s, pos + 1 + s[pos]) {
            Some((rest, end)) => {
                let label = Seq::new(s[pos] as nat, |j: int| s[pos + 1 + j] as char);
                Some((label.push('.') + rest, end))
            },
            None => None,
        }
    } else {
        None
    }
}

/// The question name at `start` in dotted form (the root is a single dot) and
/// the offset after it. Names over 255 bytes are refused.
pub open spec fn question_name(s: Seq<u8>, start: int) -> Option<(Seq<char>, int)> {
    match labels_text(s, start) {
        Some((text, end)) => if end - start > 255 {
            None
        } else if text.len() == 0 {
            Some((seq!['.'], end))
        } else {
            Some((text, end))
        },
        None => None,
    }
}

/// The OPT records among the records at `fields`.
pub open spec fn opt_fields(s: Seq<u8>, fields: Seq<int>) -> Seq<int> {
    fields.filter(|f: int| is_opt(s, f))
}

/// The query in `s`: exactly one question with a plain name, well-formed
/// records after it, and an OPT record only in the additional section and at
/// most once.
pub open spec fn query_of(s: Seq<u8>) -> Option<QueryView> {
    if s.len() < 12 || be16(s, 4) != 1 {
        None
    } else {
        match question_name(s, 12) {
            Some((qname, e)) => if e + 4 > s.len() {
                None
            } else {
                match records(s, e + 4, record_count(s)) {
                    Some((fields, _)) => {
                        let before_additional = be16(s, 6) + be16(s, 8);
                        let opts = opt_fields(s, fields);
                        if opts.len() > 1 || opt_fields(s, fields.take(before_additional)).len()
                            > 0 {
                            None
                        } else {
                            Some(
                                QueryView {
                                    id: be16(s, 0),
                                    recursion_desired: s[2] % 2 == 1,
                                    checking_disabled: s[3] / 16 % 2 == 1,
                                    opcode: s[2] as int / 8 % 16,
                                    qname,
                                    qtype: be16(s, e),
                                    qclass: be16(s, e + 2),
                                    edns_payload: if opts.len() == 1 {
                                        Some(be16(s, opts[0] + 2))
                                    } else {
                                        None
                                    },
                                    dnssec_ok: opts.len() == 1 && s[opts[0] + 6] >= 128,
                                },
                            )
                        }
                    },
                    None => None,
                }
            },
            None => None,
        }
    }
}

/// Without an OPT record there are no OPT records to list.
proof fn lemma_no_opt(s: Seq<u8>, fields: Seq<int>)
    requires
        forall|i: int| 0 <= i < fields.len() ==> !is_opt(s, #[trigger] fields[i]),
    ensures
        opt_fields(s, fields).len() == 0,
    decreases fields.len(),
{
    reveal(Seq::filter);
    if fields.len() > 0 {
        lemma_no_opt(s, fields.drop_last());
    }
}

/// The first `m` records are a prefix of the first `n`.
proof fn lemma_records_prefix(s: Seq<u8>, pos: int, m: nat, n: nat)
    requires
        m <= n,
        records(s, pos, n) is Some,
    ensures
        records(s, pos, m) is Some,
        (records(s, pos, m)->0).0 == (records(s, pos, n)->0).0.take(m as int),
        (records(s, pos, n)->0).0.len() == n,
    decreases n,
{
    if n > 0 {
        if m < n {
            lemma_records_prefix(s, pos, m, (n - 1) as nat);
        } else {
            lemma_records_prefix(s, pos, (n - 1) as nat, (n - 1) as nat);
        }
        let before = (records(s, pos, (n - 1) as nat)->0).0;
        let all = (records(s, pos, n)->0).0;
        assert(all.take(m as int) =~= if m < n { before.take(m as int) } else { all });
    } else {
        assert((records(s, pos, n)->0).0.take(0) =~= Seq::empty());
    }
}

/// A misplaced or repeated OPT record among the first records makes the query
/// invalid whatever follows.
proof fn lemma_bad_opt(s: Seq<u8>, start: int, seen: Seq<int>, total: nat, additional: int)
    requires
        0 < seen.len() <= total,
        0 <= additional <= total,
        records(s, start, seen.len()) matches Some((fields, _)) && fields == seen,
        is_opt(s, seen.last()),
        seen.len() <= additional || opt_fields(s, seen.drop_last()).len() > 0,
    ensures
        records(s, start, total) matches Some((fields, _)) ==> opt_fields(s, fields).len() > 1
            || opt_fields(s, fields.take(additional)).len() > 0,
{
    if records(s, start, total) is Some {
        let fields = (records(s, start, total)->0).0;
        let pred = |f: int| is_opt(s, f);
        lemma_records_prefix(s, start, seen.len(), total);
        assert(fields.take(seen.len() as int) == seen);
        reveal(Seq::filter);
        assert(opt_fields(s, seen) == opt_fields(s, seen.drop_last()).push(seen.last()));
        if seen.len() <= additional {
            let head = fields.take(additional);
            assert(head =~= seen + fields.subrange(seen.len() as int, additional));
            Seq::filter_distributes_over_add(
                seen,
                fields.subrange(seen.len() as int, additional),
                pred,
            );
        } else {
            assert(fields =~= seen + fields.skip(seen.len() as int));
            Seq::filter_distributes_over_add(seen, fields.skip(seen.len() as int), pred);
        }
    }
}

/// Reads a question name when its text form needs no escaping.
fn read_question_name(buf: &[u8], start: usize) -> (r: Option<(String, usize)>)
    ensures
        match r {
            Some((name, end)) => {
                &&& question_name(buf@, start as int) == Some((name@, end as int))
                &&& start < end <= buf@.len()
            },
            None => question_name(buf@, start as int) is None,
        },
{
    let mut name: String = String::new();
    let mut pos: usize = start;
    loop
        invariant
            start <= pos,
            match labels_text(buf@, pos as int) {
                Some((rest, end)) => labels_text(buf@, start as int) == Some((name@ + rest, end)),
                None => labels_text(buf@, start as int) is None,
            },
        decreases buf@.len() - pos,
    {
        let len: usize = buf.len();
        if pos >= len {
            return None;
        }
        let b: u8 = buf[pos];
        if b >= 64 {
            return None;
        }
        if b == 0 {
            assert(name@ + Seq::<char>::empty() =~= name@);
            if pos + 1 - start > 255 {
                return None;
            }
            if name.as_str().is_empty() {
                name.push('.');
                assert(name@ =~= seq!['.']);
            }
            return Some((name, pos + 1));
        }
        let n: usize = b as usize;
        if len - pos - 1 < n {
            return None;
        }
        let ghost before = name@;
        let ghost label = Seq::new(b as nat, |j: int| buf@[pos + 1 + j] as char);
        let mut j: usize = 0;
        while j < n
            invariant
                j <= n,
                n == b,
                pos < buf@.len(),
                buf@[pos as int] == b,
                0 < b < 64,
                n <= buf@.len() - pos - 1,
                buf@.len() <= usize::MAX,
                label == Seq::new(b as nat, |j: int| buf@[pos + 1 + j] as char),
                name@ == before + label.take(j as int),
                forall|k: int| 0 <= k < j ==> plain_name_byte(#[trigger] buf@[pos + 1 + k], k == 0),
                labels_text(buf@, start as int) is Some ==> labels_text(buf@, pos as int) is Some,
                question_name(buf@, start as int) is Some ==> labels_text(buf@, start as int)
                    is Some,
            decreases n - j,
        {
            let c: u8 = buf[pos + 1 + j];
            let first: bool = j == 0;
            let plain: bool = (0x30 <= c && c <= 0x39) || (0x41 <= c && c <= 0x5a) || (0x61 <= c
                && c <= 0x7a) || c == 0x5f || (c == 0x2d && !first) || (c == 0x2a && first);
            if !plain {
                assert(!plain_name_byte(buf@[pos + 1 + j], j == 0));
                assert(!plain_label(buf@, pos + 1, b as int));
                return None;
            }
            name.push(c as char);
            assert(label.take(j + 1) =~= label.take(j as int).push(c as char));
            assert(name@ =~= before + label.take(j + 1));
            j = j + 1;
        }
        assert(label.take(n as int) =~= label);
        name.push('.');
        proof {
            assert(plain_label(buf@, pos + 1, b as int));
            match labels_text(buf@, pos + 1 + b) {
                Some((rest, end)) => {
                    assert(before + (label.push('.') + rest) =~= name@ + rest);
                },
                None => {},
            }
        }
        pos = pos + 1 + n;
    }
}

/// Parses a strict subset of DNS queries for the hot path.
pub fn parse_query(buf: &[u8]) -> (r: Option<ParsedQuery>)
    ensures
        match r {
            Some(q) => query_of(buf@) == Some(q@),
            None => query_of(buf@) is None,
        },
{
    let len: usize = buf.len();
    if len < 12 {
        return None;
    }
    let id: u16 = read_u16(buf, 0);
    // Header flag bytes: b2 = QR|Opcode(4)|AA|TC|RD, b3 = RA|Z|AD|CD|RCODE(4).
    let b2: u8 = buf[2];
    let recursion_desired: bool = b2 % 2 == 1;
    let opcode: u8 = b2 / 8 % 16;
    let checking_disabled: bool = buf[3] / 16 % 2 == 1;
    let qd: usize = read_u16(buf, 4) as usize;
    let an: usize = read_u16(buf, 6) as usize;
    let ns: usize = read_u16(buf, 8) as usize;
    let ar: usize = read_u16(buf, 10) as usize;
    if qd != 1 {
        return None;
    }
    let (qname, name_end): (String, usize) = match read_question_name(buf, 12) {
        Some(x) => x,
        None => {
            return None;
        },
    };
    if len - name_end < 4 {
        return None;
    }
    let qtype: u16 = read_u16(buf, name_end);
    let qclass: u16 = read_u16(buf, name_end + 2);
    let start: usize = name_end + 4;

    let mut edns_payload: Option<u16> = None;
    let mut dnssec_ok: bool = false;
    let additional_start: usize = an + ns;
    let total: usize = additional_start + ar;
    let ghost mut fields: Seq<int> = Seq::empty();
    let mut pos: usize = start;
    let mut idx: usize = 0;
    while idx < total
        invariant
            idx <= total,
            additional_start <= total,
            buf@.len() >= 12,
            be16(buf@, 4) == 1,
            question_name(buf@, 12) == Some((qname@, start - 4)),
            start <= buf@.len(),
            total == record_count(buf@),
            additional_start == be16(buf@, 6) + be16(buf@, 8),
            fields.len() == idx,
            records(buf@, start as int, idx as nat) == Some((fields, pos as int)),
            forall|i: int| 0 <= i < idx && i < additional_start ==> !is_opt(buf@, #[trigger] fields[i]),
            opt_fields(buf@, fields).len() <= 1,
            match edns_payload {
                Some(p) => {
                    &&& opt_fields(buf@, fields).len() == 1
                    &&& p == be16(buf@, opt_fields(buf@, fields)[0] + 2)
                    &&& dnssec_ok == (buf@[opt_fields(buf@, fields)[0] + 6] >= 128)
                },
                None => opt_fields(buf@, fields).len() == 0 && !dnssec_ok,
            },
        decreases total - idx,
    {
        let (f, e): (usize, usize) = match read_record_at(buf, pos) {
            Some(x) => x,
            None => {
                proof {
                    assert(records(buf@, start as int, (idx + 1) as nat) is None);
                    lemma_records_none(buf@, start as int, (idx + 1) as nat, total as nat);
                }
                return None;
            },
        };
        let ghost before = fields;
        proof {
            reveal(Seq::filter);
            fields = fields.push(f as int);
            assert(fields.drop_last() =~= before);
        }
        if read_u16(buf, f) == TYPE_OPT {
            if idx < additional_start || edns_payload.is_some() {
                proof {
                    lemma_bad_opt(buf@, start as int, fields, total as nat, additional_start as int);
                }
                return None;
            }
            edns_payload = Some(read_u16(buf, f + 2));
            dnssec_ok = buf[f + 6] >= 128;
        }
        pos = e;
        idx = idx + 1;
    }
    proof {
        lemma_no_opt(buf@, fields.take(additional_start as int));
    }
    Some(
        ParsedQuery {
            id,
            recursion_desired,
            checking_disabled,
            opcode,
            qname,
            qtype,
            qclass,
            edns_payload,
            dnssec_ok,
        },
    )
}

/// The big-endian 32-bit number at offset `i`.
pub open spec fn be32(s: Seq<u8>, i: int) -> int {
    s[i] * 0x100_0000 + s[i + 1] * 0x1_0000 + s[i + 2] * 0x100 + s[i + 3]
}

/// Whether `i` lies in the TTL slot at one of `offsets` that fits `len` bytes.
pub open spec fn in_ttl_slot(offsets: Seq<u32>, len: int, i: int) -> bool {
    exists|k: int|
        0 <= k < offsets.len() && #[trigger] offsets[k] <= i < offsets[k] + 4 && offsets[k] + 4 <= len
}

/// Writing TTLs changes nothing outside the slots, and what ends up inside
/// them does not depend on what was there.
proof fn lemma_with_ttls_byte(a: Seq<u8>, b: Seq<u8>, ttl: u32, offsets: Seq<u32>, i: int)
    requires
        a.len() == b.len(),
        0 <= i < a.len(),
        in_ttl_slot(offsets, a.len() as int, i) || a[i] == b[i],
    ensures
        with_ttls(a, ttl, offsets).len() == a.len(),
        with_ttls(b, ttl, offsets).len() == b.len(),
        with_ttls(a, ttl, offsets)[i] == with_ttls(b, ttl, offsets)[i],
        !in_ttl_slot(offsets, a.len() as int, i) ==> with_ttls(a, ttl, offsets)[i] == a[i],
    decreases offsets.len(),
{
    if offsets.len() > 0 {
        let rest = offsets.drop_last();
        let o = offsets.last();
        lemma_with_ttls_len(a, ttl, rest);
        lemma_with_ttls_len(b, ttl, rest);
        if !(o <= i < o + 4 && o + 4 <= a.len()) {
            if in_ttl_slot(offsets, a.len() as int, i) {
                let k = choose|k: int|
                    0 <= k < offsets.len() && #[trigger] offsets[k] <= i < offsets[k] + 4
                        && offsets[k] + 4 <= a.len();
                assert(rest[k] == offsets[k]);
                assert(in_ttl_slot(rest, a.len() as int, i));
            }
            lemma_with_ttls_byte(a, b, ttl, rest, i);
            if in_ttl_slot(rest, a.len() as int, i) {
                let k = choose|k: int|
                    0 <= k < rest.len() && #[trigger] rest[k] <= i < rest[k] + 4 && rest[k] + 4
                        <= a.len();
                assert(offsets[k] == rest[k]);
            }
        } else {
            assert(offsets[offsets.len() - 1] == o);
        }
    }
}

/// Writing TTLs keeps the length.
proof fn lemma_with_ttls_len(s: Seq<u8>, ttl: u32, offsets: Seq<u32>)
    ensures
        with_ttls(s, ttl, offsets).len() == s.len(),
    decreases offsets.len(),
{
    if offsets.len() > 0 {
        lemma_with_ttls_len(s, ttl, offsets.drop_last());
    }
}

/// The last patch wins: patching a patched buffer again, at the same offsets,
/// gives what patching the original would have given.
pub proof fn law_patch_overrides(
    s: Seq<u8>,
    id: u16,
    ttl: u32,
    id2: u16,
    ttl2: u32,
    offsets: Seq<u32>,
)
    ensures
        with_ttls(with_id(with_ttls(with_id(s, id), ttl, offsets), id2), ttl2, offsets)
            == with_ttls(with_id(s, id2), ttl2, offsets),
{
    let once = with_ttls(with_id(s, id), ttl, offsets);
    lemma_with_ttls_len(with_id(s, id), ttl, offsets);
    let a = with_id(once, id2);
    let b = with_id(s, id2);
    lemma_with_ttls_len(a, ttl2, offsets);
    lemma_with_ttls_len(b, ttl2, offsets);
    assert forall|i: int| 0 <= i < s.len() implies with_ttls(a, ttl2, offsets)[i] == with_ttls(
        b,
        ttl2,
        offsets,
    )[i] by {
        lemma_with_ttls_byte(with_id(s, id), with_id(s, id), ttl, offsets, i);
        lemma_with_ttls_byte(a, b, ttl2, offsets, i);
    }
    assert(with_ttls(a, ttl2, offsets) =~= with_ttls(b, ttl2, offsets));
}

/// Whether `i` lies in the TTL field of one of the records at `fields`.
pub open spec fn in_ttl_field(fields: Seq<int>, i: int) -> bool {
    exists|k: int| 0 <= k < fields.len() && #[trigger] fields[k] + 4 <= i < fields[k] + 8
}

/// A name reads the same in two buffers that agree on its bytes.
proof fn lemma_name_end_agree(s: Seq<u8>, t: Seq<u8>, pos: int)
    requires
        s.len() == t.len(),
        name_end(s, pos) is Some,
        forall|i: int| pos <= i < name_end(s, pos)->0 && i < s.len() ==> s[i] == t[i],
    ensures
        name_end(t, pos) == name_end(s, pos),
    decreases s.len() + 64 - pos,
{
    lemma_name_end(s, pos);
    assert(s[pos] == t[pos]);
    if 0 < s[pos] < 64 {
        lemma_name_end_agree(s, t, pos + 1 + s[pos]);
    }
}

/// Questions lie between where they start and where they end.
proof fn lemma_questions_agree(s: Seq<u8>, t: Seq<u8>, pos: int, n: nat)
    requires
        s.len() == t.len(),
        questions_end(s, pos, n) is Some,
        forall|i: int| pos <= i < questions_end(s, pos, n)->0 ==> s[i] == t[i],
    ensures
        questions_end(t, pos, n) == questions_end(s, pos, n),
        pos <= questions_end(s, pos, n)->0,
    decreases n,
{
    if n > 0 {
        let p = questions_end(s, pos, (n - 1) as nat)->0;
        lemma_name_end(s, p);
        lemma_questions_agree(s, t, pos, (n - 1) as nat);
        lemma_name_end_agree(s, t, p);
    }
}

/// Records come one after the other, each with ten bytes of fixed fields.
proof fn lemma_records_spaced(s: Seq<u8>, pos: int, n: nat)
    requires
        records(s, pos, n) is Some,
    ensures
        ({
            let (fields, end) = records(s, pos, n)->0;
            &&& fields.len() == n
            &&& pos <= end
            &&& n > 0 ==> end <= s.len()
            &&& forall|k: int| 0 <= k < n ==> pos < #[trigger] fields[k] && fields[k] + 10 <= end
            &&& forall|j: int, k: int| 0 <= j < k < n ==> #[trigger] fields[j] + 10 < #[trigger] fields[k]
        }),
    decreases n,
{
    if n > 0 {
        lemma_records_spaced(s, pos, (n - 1) as nat);
        let p = (records(s, pos, (n - 1) as nat)->0).1;
        lemma_name_end(s, p);
    }
}

/// Records read the same in two buffers that agree outside the TTL fields.
proof fn lemma_records_agree(s: Seq<u8>, t: Seq<u8>, pos: int, n: nat)
    requires
        s.len() == t.len(),
        records(s, pos, n) is Some,
        forall|i: int|
            pos <= i < (records(s, pos, n)->0).1 && !in_ttl_field((records(s, pos, n)->0).0, i)
                ==> s[i] == t[i],
    ensures
        records(t, pos, n) == records(s, pos, n),
    decreases n,
{
    if n > 0 {
        let (fields, end) = records(s, pos, n)->0;
        let (before, p) = records(s, pos, (n - 1) as nat)->0;
        let f = fields.last();
        lemma_records_spaced(s, pos, n);
        lemma_records_spaced(s, pos, (n - 1) as nat);
        lemma_name_end(s, p);
        assert(fields == before.push(f));
        assert forall|i: int| pos <= i < f + 4 && !in_ttl_field(before, i) implies s[i] == t[i] by {
            if in_ttl_field(fields, i) {
                let k = choose|k: int|
                    0 <= k < fields.len() && #[trigger] fields[k] + 4 <= i < fields[k] + 8;
                assert(before[k] == fields[k]);
            }
        }
        lemma_records_agree(s, t, pos, (n - 1) as nat);
        assert forall|i: int| p <= i < f + 4 implies s[i] == t[i] by {
            if in_ttl_field(before, i) {
                let k = choose|k: int|
                    0 <= k < before.len() && #[trigger] before[k] + 4 <= i < before[k] + 8;
                assert(before[k] + 10 <= p);
            }
        }
        lemma_name_end_agree(s, t, p);
        assert forall|i: int| f + 8 <= i < f + 10 implies s[i] == t[i] by {
            if in_ttl_field(fields, i) {
                let k = choose|k: int|
                    0 <= k < fields.len() && #[trigger] fields[k] + 4 <= i < fields[k] + 8;
                assert(fields[k] + 10 <= end);
                assert(fields[fields.len() - 1] == f);
            }
        }
    }
}

/// Whether `o` is the TTL offset of one of the records at `fields`, OPT apart.
spec fn is_ttl_offset(s: Seq<u8>, fields: Seq<int>, o: int) -> bool {
    exists|j: int|
        0 <= j < fields.len() && #[trigger] fields[j] + 4 == o && !is_opt(s, fields[j])
}

/// Which TTL offsets a message has: one per record that is not OPT, in order.
proof fn lemma_ttl_offsets(s: Seq<u8>, fields: Seq<int>)
    requires
        forall|j: int, k: int|
            0 <= j < k < fields.len() ==> #[trigger] fields[j] + 10 < #[trigger] fields[k],
    ensures
        forall|k: int|
            0 <= k < ttl_offsets(s, fields).len() ==> is_ttl_offset(
                s,
                fields,
                #[trigger] ttl_offsets(s, fields)[k],
            ),
        forall|j: int|
            0 <= j < fields.len() && !is_opt(s, #[trigger] fields[j]) ==> ttl_offsets(
                s,
                fields,
            ).contains(fields[j] + 4),
        forall|j: int, k: int|
            0 <= j < k < ttl_offsets(s, fields).len() ==> #[trigger] ttl_offsets(s, fields)[j] + 10
                < #[trigger] ttl_offsets(s, fields)[k],
    decreases fields.len(),
{
    reveal(Seq::filter);
    if fields.len() > 0 {
        let rest = fields.drop_last();
        lemma_ttl_offsets(s, rest);
        let before = ttl_offsets(s, rest);
        let offsets = ttl_offsets(s, fields);
        let last = fields.last();
        if is_opt(s, last) {
            assert(offsets =~= before);
        } else {
            assert(offsets =~= before.push(last + 4));
            assert(offsets[offsets.len() - 1] == fields[fields.len() - 1] + 4);
        }
        assert forall|k: int| 0 <= k < offsets.len() implies is_ttl_offset(
            s,
            fields,
            #[trigger] offsets[k],
        ) by {
            if k < before.len() {
                assert(is_ttl_offset(s, rest, before[k]));
                let j = choose|j: int|
                    0 <= j < rest.len() && #[trigger] rest[j] + 4 == before[k] && !is_opt(s, rest[j]);
                assert(fields[j] == rest[j]);
            } else {
                assert(fields[fields.len() - 1] + 4 == offsets[k]);
            }
        }
        assert forall|j: int| 0 <= j < fields.len() && !is_opt(s, #[trigger] fields[j]) implies
            offsets.contains(fields[j] + 4) by {
            if j < rest.len() {
                assert(rest[j] == fields[j]);
                let k = choose|k: int| 0 <= k < before.len() && before[k] == fields[j] + 4;
                assert(offsets[k] == fields[j] + 4);
            }
        }
        assert forall|j: int, k: int| 0 <= j < k < offsets.len() implies #[trigger] offsets[j] + 10
            < #[trigger] offsets[k] by {
            if k == before.len() {
                assert(is_ttl_offset(s, rest, before[j]));
                let m = choose|m: int|
                    0 <= m < rest.len() && #[trigger] rest[m] + 4 == before[j] && !is_opt(s, rest[m]);
                assert(fields[m] == rest[m]);
                assert(fields[m] + 10 < fields[fields.len() - 1]);
            }
        }
    }
}

/// A TTL written where no later write overlaps it is read back.
proof fn lemma_ttl_written(s: Seq<u8>, ttl: u32, offsets: Seq<u32>, k: int)
    requires
        0 <= k < offsets.len(),
        offsets[k] + 4 <= s.len(),
        forall|i: int, j: int|
            0 <= i < j < offsets.len() ==> #[trigger] offsets[i] + 4 <= #[trigger] offsets[j],
    ensures
        be32(with_ttls(s, ttl, offsets), offsets[k] as int) == ttl,
    decreases offsets.len(),
{
    let rest = offsets.drop_last();
    lemma_with_ttls_len(s, ttl, rest);
    if k == offsets.len() - 1 {
        let b = ttl_bytes(ttl);
        assert(b[0] * 0x100_0000 + b[1] * 0x1_0000 + b[2] * 0x100 + b[3] == ttl);
    } else {
        assert(rest[k] == offsets[k]);
        lemma_ttl_written(s, ttl, rest, k);
        assert(offsets[k] + 4 <= offsets[offsets.len() - 1]);
    }
}

/// Patching at the scanned offsets rewrites the id and every TTL but OPT's, and
/// nothing else: the message keeps its records, so a later scan finds the same
/// offsets. Offsets are 32 bits wide, so this is about messages that fit.
pub proof fn law_patch_scanned(s: Seq<u8>, id: u16, ttl: u32)
    requires
        message_records(s) is Some,
        s.len() <= u32::MAX,
    ensures
        ({
            let fields = message_records(s)->0;
            let offsets = ttl_offsets(s, fields).map_values(|o: int| o as u32);
            let t = with_ttls(with_id(s, id), ttl, offsets);
            &&& t.len() == s.len()
            &&& be16(t, 0) == id
            &&& message_records(t) == Some(fields)
            &&& ttl_offsets(t, fields) == ttl_offsets(s, fields)
            &&& forall|k: int|
                0 <= k < fields.len() && !is_opt(s, #[trigger] fields[k]) ==> be32(t, fields[k] + 4)
                    == ttl
            &&& forall|i: int|
                2 <= i < s.len() && !in_ttl_field(
                    fields.filter(|f: int| !is_opt(s, f)),
                    i,
                ) ==> #[trigger] t[i] == s[i]
        }),
{
    let fields = message_records(s)->0;
    let wide = ttl_offsets(s, fields);
    let offsets = wide.map_values(|o: int| o as u32);
    let base = with_id(s, id);
    let t = with_ttls(base, ttl, offsets);
    let start = questions_end(s, 12, be16(s, 4) as nat)->0;
    lemma_questions_agree(s, s, 12, be16(s, 4) as nat);
    lemma_records_spaced(s, start, record_count(s));
    lemma_ttl_offsets(s, fields);
    lemma_with_ttls_len(base, ttl, offsets);
    let kept = fields.filter(|f: int| !is_opt(s, f));
    assert forall|k: int| 0 <= k < offsets.len() implies {
        &&& #[trigger] offsets[k] == wide[k]
        &&& wide[k] == kept[k] + 4
        &&& start + 4 < wide[k]
        &&& wide[k] + 4 <= s.len()
    } by {
        assert(is_ttl_offset(s, fields, wide[k]));
        let j = choose|j: int|
            0 <= j < fields.len() && #[trigger] fields[j] + 4 == wide[k] && !is_opt(s, fields[j]);
        assert(fields[j] + 10 <= s.len());
    }
    assert forall|i: int| 0 <= i < s.len() && !in_ttl_field(kept, i) implies #[trigger] t[i]
        == base[i] by {
        if in_ttl_slot(offsets, s.len() as int, i) {
            let k = choose|k: int|
                0 <= k < offsets.len() && #[trigger] offsets[k] <= i < offsets[k] + 4 && offsets[k] + 4
                    <= s.len();
            assert(kept[k] + 4 <= i < kept[k] + 8);
        }
        lemma_with_ttls_byte(base, base, ttl, offsets, i);
    }
    assert forall|i: int| 0 <= i < s.len() && in_ttl_field(kept, i) implies in_ttl_field(
        fields,
        i,
    ) && i >= start by {
        let k = choose|k: int| 0 <= k < kept.len() && #[trigger] kept[k] + 4 <= i < kept[k] + 8;
        assert(offsets[k] == wide[k]);
        assert(is_ttl_offset(s, fields, wide[k]));
        let j = choose|j: int|
            0 <= j < fields.len() && #[trigger] fields[j] + 4 == wide[k] && !is_opt(s, fields[j]);
        assert(fields[j] + 4 <= i < fields[j] + 8);
    }
    assert forall|i: int| 2 <= i < start && i < s.len() implies s[i] == #[trigger] t[i] by {
        assert(!in_ttl_field(kept, i));
    }
    if be16(s, 4) > 0 {
        let p = questions_end(s, 12, (be16(s, 4) - 1) as nat);
        assert(start <= s.len());
    }
    lemma_questions_agree(s, t, 12, be16(s, 4) as nat);
    assert forall|i: int|
        start <= i < (records(s, start, record_count(s))->0).1 && !in_ttl_field(
            fields,
            i,
        ) implies s[i] == t[i] by {
        if record_count(s) == 0 {
        }
        assert(!in_ttl_field(kept, i));
    }
    lemma_records_agree(s, t, start, record_count(s));
    assert forall|k: int| 0 <= k < fields.len() implies is_opt(t, #[trigger] fields[k]) == is_opt(
        s,
        fields[k],
    ) by {
        let f = fields[k];
        assert forall|i: int| f <= i < f + 2 implies t[i] == s[i] by {
            if in_ttl_field(fields, i) {
                let j = choose|j: int|
                    0 <= j < fields.len() && #[trigger] fields[j] + 4 <= i < fields[j] + 8;
                if j < k {
                    assert(fields[j] + 10 < fields[k]);
                } else if k < j {
                    assert(fields[k] + 10 < fields[j]);
                }
            }
            assert(!in_ttl_field(kept, i));
        }
    }
    lemma_filter_same(fields, |f: int| !is_opt(s, f), |f: int| !is_opt(t, f));
    assert forall|k: int| 0 <= k < fields.len() && !is_opt(s, #[trigger] fields[k]) implies be32(
        t,
        fields[k] + 4,
    ) == ttl by {
        let m = choose|m: int| 0 <= m < wide.len() && wide[m] == fields[k] + 4;
        assert(offsets[m] == wide[m]);
        assert forall|i: int, j: int| 0 <= i < j < offsets.len() implies #[trigger] offsets[i] + 4
            <= #[trigger] offsets[j] by {
            assert(wide[i] + 10 < wide[j]);
        }
        lemma_ttl_written(base, ttl, offsets, m);
    }
    assert(be16(t, 0) == id) by {
        assert(!in_ttl_field(kept, 0)) by {
            if in_ttl_field(kept, 0) {
                assert(0 >= start);
            }
        }
        assert(!in_ttl_field(kept, 1)) by {
            if in_ttl_field(kept, 1) {
                assert(1 >= start);
            }
        }
        assert(t[0] == base[0] && t[1] == base[1]);
        assert(base[0] == id_bytes(id)[0] && base[1] == id_bytes(id)[1]);
    }
}

/// Filters that agree on a sequence select the same items of it.
proof fn lemma_filter_same(s: Seq<int>, p: spec_fn(int) -> bool, q: spec_fn(int) -> bool)
    requires
        forall|k: int| 0 <= k < s.len() ==> p(#[trigger] s[k]) == q(s[k]),
    ensures
        s.filter(p) == s.filter(q),
    decreases s.len(),
{
    reveal(Seq::filter);
    if s.len() > 0 {
        let rest = s.drop_last();
        assert forall|k: int| 0 <= k < rest.len() implies p(#[trigger] rest[k]) == q(rest[k]) by {
            assert(rest[k] == s[k]);
        }
        lemma_filter_same(rest, p, q);
        assert(p(s[s.len() - 1]) == q(s[s.len() - 1]));
    }
}

} // verus!
