//! Text as sequences of characters: searching, splitting, trimming, ordering.

use vstd::prelude::*;

verus! {

/// `String::push`: appends one character to the end of the string.
pub assume_specification[ String::push ](s: &mut String, c: char)
    ensures
        final(s)@ == old(s)@.push(c),
;

/// Whether `c` is an ASCII letter or digit.
pub open spec fn is_alphanumeric(c: char) -> bool {
    ||| '0' <= c <= '9'
    ||| 'a' <= c <= 'z'
    ||| 'A' <= c <= 'Z'
}

/// Whether `c` has the Unicode property White_Space.
pub open spec fn is_white(c: char) -> bool {
    ||| 0x9 <= c as u32 <= 0xd
    ||| c as u32 == 0x20
    ||| c as u32 == 0x85
    ||| c as u32 == 0xa0
    ||| c as u32 == 0x1680
    ||| 0x2000 <= c as u32 <= 0x200a
    ||| c as u32 == 0x2028
    ||| c as u32 == 0x2029
    ||| c as u32 == 0x202f
    ||| c as u32 == 0x205f
    ||| c as u32 == 0x3000
}

/// `c` with ASCII capitals made small.
pub open spec fn lower(c: char) -> char {
    if 'A' <= c <= 'Z' {
        (c as u32 + 32) as char
    } else {
        c
    }
}

/// `c` with small ASCII letters made capital.
pub open spec fn upper(c: char) -> char {
    if 'a' <= c <= 'z' {
        (c as u32 - 32) as char
    } else {
        c
    }
}

pub open spec fn lowered(s: Seq<char>) -> Seq<char> {
    s.map_values(|c: char| lower(c))
}

pub open spec fn uppered(s: Seq<char>) -> Seq<char> {
    s.map_values(|c: char| upper(c))
}

/// The texts that a list of strings holds.
pub open spec fn texts(v: Seq<String>) -> Seq<Seq<char>> {
    v.map_values(|s: String| s@)
}

/// The texts that a list of character slices holds.
pub open spec fn slices(v: Seq<&[char]>) -> Seq<Seq<char>> {
    v.map_values(|s: &[char]| s@)
}

/// The first index from `i` on at which `c` stands, or the length of `s`.
pub open spec fn find_from(s: Seq<char>, c: char, i: int) -> int
    decreases s.len() - i,
{
    if i >= s.len() {
        s.len() as int
    } else if s[i] == c {
        i
    } else {
        find_from(s, c, i + 1)
    }
}

/// The first index at which `c` stands, or the length of `s`.
pub open spec fn find(s: Seq<char>, c: char) -> int {
    find_from(s, c, 0)
}

/// The pieces of `s` from `i` on between the occurrences of `sep`.
pub open spec fn split_from(s: Seq<char>, sep: char, i: int) -> Seq<Seq<char>>
    decreases s.len() + 1 - i,
{
    let e = find_from(s, sep, i);
    if i < 0 || i > s.len() || e < i || e >= s.len() {
        seq![s.subrange(i, s.len() as int)]
    } else {
        seq![s.subrange(i, e)] + split_from(s, sep, e + 1)
    }
}

/// The pieces of `s` between the occurrences of `sep`: one more than there are
/// occurrences, empty ones included.
pub open spec fn split(s: Seq<char>, sep: char) -> Seq<Seq<char>> {
    split_from(s, sep, 0)
}

/// The first index from `i` on at which white space (`white`) or its absence
/// begins, or the length of `s`.
pub open spec fn find_white_from(s: Seq<char>, white: bool, i: int) -> int
    decreases s.len() - i,
{
    if i >= s.len() {
        s.len() as int
    } else if is_white(s[i]) == white {
        i
    } else {
        find_white_from(s, white, i + 1)
    }
}

/// The words of `s` from `i` on: its maximal runs without white space.
pub open spec fn words_from(s: Seq<char>, i: int) -> Seq<Seq<char>>
    decreases s.len() - i,
{
    let b = find_white_from(s, false, i);
    let e = find_white_from(s, true, b);
    if b < i || b >= s.len() || e <= b || e > s.len() {
        Seq::empty()
    } else {
        seq![s.subrange(b, e)] + words_from(s, e)
    }
}

/// The words of `s`: its maximal runs without white space.
pub open spec fn words(s: Seq<char>) -> Seq<Seq<char>> {
    words_from(s, 0)
}

/// `s` without its longest suffix of characters `c`.
pub open spec fn strip_end(s: Seq<char>, c: char) -> Seq<char>
    decreases s.len(),
{
    if s.len() > 0 && s.last() == c {
        strip_end(s.drop_last(), c)
    } else {
        s
    }
}

/// `s` without its longest prefix of characters `c`.
pub open spec fn strip_start(s: Seq<char>, c: char) -> Seq<char>
    decreases s.len(),
{
    if s.len() > 0 && s[0] == c {
        strip_start(s.drop_first(), c)
    } else {
        s
    }
}

/// `s` without leading white space.
pub open spec fn trim_start(s: Seq<char>) -> Seq<char>
    decreases s.len(),
{
    if s.len() > 0 && is_white(s[0]) {
        trim_start(s.drop_first())
    } else {
        s
    }
}

/// `s` without trailing white space.
pub open spec fn trim_end(s: Seq<char>) -> Seq<char>
    decreases s.len(),
{
    if s.len() > 0 && is_white(s.last()) {
        trim_end(s.drop_last())
    } else {
        s
    }
}

/// `s` without white space around it.
pub open spec fn trim(s: Seq<char>) -> Seq<char> {
    trim_end(trim_start(s))
}

/// The texts of `parts` one after the other, with `sep` between them.
pub open spec fn join(parts: Seq<Seq<char>>, sep: char) -> Seq<char>
    decreases parts.len(),
{
    if parts.len() == 0 {
        Seq::empty()
    } else if parts.len() == 1 {
        parts[0]
    } else {
        join(parts.drop_last(), sep).push(sep) + parts.last()
    }
}

/// Lexicographic order by code point.
pub open spec fn lex_le(a: Seq<char>, b: Seq<char>) -> bool
    decreases a.len(),
{
    if a.len() == 0 {
        true
    } else if b.len() == 0 {
        false
    } else if a[0] == b[0] {
        lex_le(a.drop_first(), b.drop_first())
    } else {
        a[0] < b[0]
    }
}

/// `parts` in lexicographic order.
pub open spec fn sorted_texts(parts: Seq<Seq<char>>) -> Seq<Seq<char>> {
    parts.sort_by(|a: Seq<char>, b: Seq<char>| lex_le(a, b))
}

/// How many bytes the UTF-8 form of `s` takes.
pub open spec fn utf8_len(s: Seq<char>) -> nat {
    vstd::utf8::encode_utf8(s).len()
}

pub proof fn lemma_find(s: Seq<char>, c: char, i: int)
    requires
        0 <= i <= s.len(),
    ensures
        i <= find_from(s, c, i) <= s.len(),
        find_from(s, c, i) < s.len() ==> s[find_from(s, c, i)] == c,
        forall|j: int| i <= j < find_from(s, c, i) ==> #[trigger] s[j] != c,
    decreases s.len() - i,
{
    if i < s.len() && s[i] != c {
        lemma_find(s, c, i + 1);
    }
}

/// Where the first occurrence is known, `find_from` gives it.
pub proof fn lemma_find_is(s: Seq<char>, c: char, i: int, at: int)
    requires
        0 <= i <= at <= s.len(),
        forall|j: int| i <= j < at ==> #[trigger] s[j] != c,
        at < s.len() ==> s[at] == c,
    ensures
        find_from(s, c, i) == at,
    decreases at - i,
{
    if i < at {
        lemma_find_is(s, c, i + 1, at);
    }
}

proof fn lemma_find_white(s: Seq<char>, white: bool, i: int)
    requires
        0 <= i <= s.len(),
    ensures
        i <= find_white_from(s, white, i) <= s.len(),
    decreases s.len() - i,
{
    if i < s.len() && is_white(s[i]) != white {
        lemma_find_white(s, white, i + 1);
    }
}

/// The characters of a string, one by one.
pub fn chars_of(s: &str) -> (r: Vec<char>)
    ensures
        r@ == s@,
{
    let mut r: Vec<char> = Vec::new();
    for c in it: s.chars()
        invariant
            it.seq() == s@,
            r@ == it.seq().take(it.index() as int),
    {
        assert(it.seq().take(it.index() + 1) =~= it.seq().take(it.index() as int).push(c));
        r.push(c);
    }
    assert(r@ =~= s@);
    r
}

/// The string made of the given characters.
pub fn string_of(s: &[char]) -> (r: String)
    ensures
        r@ == s@,
{
    let mut r: String = String::new();
    let mut i: usize = 0;
    while i < s.len()
        invariant
            i <= s@.len(),
            r@ == s@.take(i as int),
        decreases s@.len() - i,
    {
        r.push(s[i]);
        assert(s@.take(i + 1) =~= s@.take(i as int).push(s@[i as int]));
        i = i + 1;
    }
    assert(r@ =~= s@);
    r
}

/// Whether two character slices hold the same text.
pub fn same_chars(a: &[char], b: &[char]) -> (r: bool)
    ensures
        r == (a@ == b@),
{
    if a.len() != b.len() {
        return false;
    }
    let mut i: usize = 0;
    while i < a.len()
        invariant
            i <= a@.len(),
            a@.len() == b@.len(),
            forall|j: int| 0 <= j < i ==> a@[j] == b@[j],
        decreases a@.len() - i,
    {
        if a[i] != b[i] {
            return false;
        }
        i = i + 1;
    }
    assert(a@ =~= b@);
    true
}

/// Whether a character slice and a string hold the same text.
pub fn is_text(a: &[char], b: &str) -> (r: bool)
    ensures
        r == (a@ == b@),
{
    let b: Vec<char> = chars_of(b);
    same_chars(a, b.as_slice())
}

/// Whether two strings hold the same text.
pub fn same_text(a: &str, b: &str) -> (r: bool)
    ensures
        r == (a@ == b@),
{
    let a: Vec<char> = chars_of(a);
    is_text(a.as_slice(), b)
}

/// Whether `s` begins with `prefix`.
pub open spec fn has_prefix(s: Seq<char>, prefix: Seq<char>) -> bool {
    prefix.len() <= s.len() && s.take(prefix.len() as int) == prefix
}

/// Whether `s` begins with `prefix`.
pub fn starts_with(s: &[char], prefix: &str) -> (r: bool)
    ensures
        r == has_prefix(s@, prefix@),
{
    let p: Vec<char> = chars_of(prefix);
    if s.len() < p.len() {
        return false;
    }
    same_chars(vstd::slice::slice_subrange(s, 0, p.len()), p.as_slice())
}

/// The part of `s` from `i` up to `j`.
pub fn part<'a>(s: &'a [char], i: usize, j: usize) -> (r: &'a [char])
    requires
        i <= j <= s@.len(),
    ensures
        r@ == s@.subrange(i as int, j as int),
{
    vstd::slice::slice_subrange(s, i, j)
}

pub fn is_whitespace(c: char) -> (r: bool)
    ensures
        r == is_white(c),
{
    let u: u32 = c as u32;
    (0x9 <= u && u <= 0xd) || u == 0x20 || u == 0x85 || u == 0xa0 || u == 0x1680 || (0x2000 <= u
        && u <= 0x200a) || u == 0x2028 || u == 0x2029 || u == 0x202f || u == 0x205f || u == 0x3000
}

pub fn is_ascii_alphanumeric(c: char) -> (r: bool)
    ensures
        r == is_alphanumeric(c),
{
    ('0' <= c && c <= '9') || ('a' <= c && c <= 'z') || ('A' <= c && c <= 'Z')
}

/// The first index from `start` on at which `c` stands, or the length.
pub fn find_char(s: &[char], c: char, start: usize) -> (r: usize)
    requires
        start <= s@.len(),
    ensures
        r == find_from(s@, c, start as int),
        start <= r <= s@.len(),
{
    let mut i: usize = start;
    while i < s.len()
        invariant
            start <= i <= s@.len(),
            find_from(s@, c, start as int) == find_from(s@, c, i as int),
        decreases s@.len() - i,
    {
        if s[i] == c {
            return i;
        }
        i = i + 1;
    }
    i
}

/// Whether `c` occurs in `s`.
pub fn has_char(s: &[char], c: char) -> (r: bool)
    ensures
        r == s@.contains(c),
{
    let i: usize = find_char(s, c, 0);
    proof {
        lemma_find(s@, c, 0);
        assert(s@.contains(c) ==> exists|j: int| 0 <= j < s@.len() && s@[j] == c);
    }
    i < s.len()
}

/// The pieces of `s` between the occurrences of `sep`.
pub fn split_chars<'a>(s: &'a [char], sep: char) -> (r: Vec<&'a [char]>)
    ensures
        slices(r@) == split(s@, sep),
        r@.len() > 0,
{
    let mut r: Vec<&'a [char]> = Vec::new();
    let mut start: usize = 0;
    assert(slices(r@) + split_from(s@, sep, 0) =~= split(s@, sep));
    loop
        invariant
            start <= s@.len(),
            slices(r@) + split_from(s@, sep, start as int) == split(s@, sep),
        decreases s@.len() - start,
    {
        let e: usize = find_char(s, sep, start);
        let piece: &'a [char] = part(s, start, e);
        let ghost before = r@;
        r.push(piece);
        assert(slices(r@) =~= slices(before).push(piece@));
        if e == s.len() {
            assert(split_from(s@, sep, start as int) =~= seq![piece@]);
            assert(slices(before).push(piece@) =~= slices(before) + seq![piece@]);
            return r;
        }
        assert(split_from(s@, sep, start as int) =~= seq![piece@] + split_from(
            s@,
            sep,
            e + 1,
        ));
        assert(slices(before) + (seq![piece@] + split_from(s@, sep, e + 1)) =~= slices(r@)
            + split_from(s@, sep, e + 1));
        start = e + 1;
    }
}

/// The first index from `start` on where white space, or its absence, begins.
fn find_whitespace(s: &[char], white: bool, start: usize) -> (r: usize)
    requires
        start <= s@.len(),
    ensures
        r == find_white_from(s@, white, start as int),
        start <= r <= s@.len(),
{
    let mut i: usize = start;
    while i < s.len()
        invariant
            start <= i <= s@.len(),
            find_white_from(s@, white, start as int) == find_white_from(s@, white, i as int),
        decreases s@.len() - i,
    {
        if is_whitespace(s[i]) == white {
            return i;
        }
        i = i + 1;
    }
    i
}

/// The words of `s`: its maximal runs without white space.
pub fn split_words<'a>(s: &'a [char]) -> (r: Vec<&'a [char]>)
    ensures
        slices(r@) == words(s@),
{
    let mut r: Vec<&'a [char]> = Vec::new();
    let mut start: usize = 0;
    assert(slices(r@) + words_from(s@, 0) =~= words(s@));
    loop
        invariant
            start <= s@.len(),
            slices(r@) + words_from(s@, start as int) == words(s@),
        decreases s@.len() - start,
    {
        let b: usize = find_whitespace(s, false, start);
        if b == s.len() {
            assert(words_from(s@, start as int) =~= Seq::empty());
            assert(slices(r@) + Seq::empty() =~= slices(r@));
            return r;
        }
        let e: usize = find_whitespace(s, true, b);
        proof {
            lemma_find_white(s@, true, b as int);
            lemma_white_found(s@, false, start as int);
            assert(!is_white(s@[b as int]));
            lemma_find_white(s@, true, b + 1);
        }
        let word: &'a [char] = part(s, b, e);
        let ghost before = r@;
        r.push(word);
        assert(slices(r@) =~= slices(before).push(word@));
        assert(words_from(s@, start as int) =~= seq![word@] + words_from(s@, e as int));
        assert(slices(before) + (seq![word@] + words_from(s@, e as int)) =~= slices(r@)
            + words_from(s@, e as int));
        start = e;
    }
}

proof fn lemma_white_found(s: Seq<char>, white: bool, i: int)
    requires
        0 <= i <= s.len(),
        find_white_from(s, white, i) < s.len(),
    ensures
        is_white(s[find_white_from(s, white, i)]) == white,
        i <= find_white_from(s, white, i),
    decreases s.len() - i,
{
    if i < s.len() && is_white(s[i]) != white {
        lemma_white_found(s, white, i + 1);
    }
}

/// `s` without trailing characters `c`.
pub fn trim_end_char<'a>(s: &'a [char], c: char) -> (r: &'a [char])
    ensures
        r@ == strip_end(s@, c),
{
    let mut j: usize = s.len();
    assert(s@.subrange(0, j as int) =~= s@);
    while j > 0 && s[j - 1] == c
        invariant
            j <= s@.len(),
            strip_end(s@, c) == strip_end(s@.subrange(0, j as int), c),
        decreases j,
    {
        assert(s@.subrange(0, j as int).drop_last() =~= s@.subrange(0, j - 1));
        j = j - 1;
    }
    part(s, 0, j)
}

/// `s` without leading characters `c`.
pub fn trim_start_char<'a>(s: &'a [char], c: char) -> (r: &'a [char])
    ensures
        r@ == strip_start(s@, c),
{
    let mut i: usize = 0;
    let n: usize = s.len();
    assert(s@.subrange(0, n as int) =~= s@);
    while i < n && s[i] == c
        invariant
            i <= n,
            n == s@.len(),
            strip_start(s@, c) == strip_start(s@.subrange(i as int, n as int), c),
        decreases n - i,
    {
        assert(s@.subrange(i as int, n as int).drop_first() =~= s@.subrange(i + 1, n as int));
        i = i + 1;
    }
    part(s, i, n)
}

/// `s` without white space around it.
pub fn trim_chars<'a>(s: &'a [char]) -> (r: &'a [char])
    ensures
        r@ == trim(s@),
{
    let n: usize = s.len();
    let mut i: usize = 0;
    assert(s@.subrange(0, n as int) =~= s@);
    while i < n && is_whitespace(s[i])
        invariant
            i <= n,
            n == s@.len(),
            trim_start(s@) == trim_start(s@.subrange(i as int, n as int)),
        decreases n - i,
    {
        assert(s@.subrange(i as int, n as int).drop_first() =~= s@.subrange(i + 1, n as int));
        i = i + 1;
    }
    let ghost body = s@.subrange(i as int, n as int);
    let mut j: usize = n;
    while j > i && is_whitespace(s[j - 1])
        invariant
            i <= j <= n,
            n == s@.len(),
            body == s@.subrange(i as int, n as int),
            trim_end(body) == trim_end(s@.subrange(i as int, j as int)),
        decreases j,
    {
        assert(s@.subrange(i as int, j as int).drop_last() =~= s@.subrange(i as int, j - 1));
        j = j - 1;
    }
    part(s, i, j)
}

/// The character with ASCII capitals made small.
pub fn lower_char(c: char) -> (r: char)
    ensures
        r == lower(c),
{
    if 'A' <= c && c <= 'Z' {
        ((c as u8) + 32) as char
    } else {
        c
    }
}

/// The character with small ASCII letters made capital.
pub fn upper_char(c: char) -> (r: char)
    ensures
        r == upper(c),
{
    if 'a' <= c && c <= 'z' {
        ((c as u8) - 32) as char
    } else {
        c
    }
}

/// The text with ASCII capitals made small.
pub fn lower_chars(s: &[char]) -> (r: Vec<char>)
    ensures
        r@ == lowered(s@),
{
    let mut r: Vec<char> = Vec::new();
    let mut i: usize = 0;
    while i < s.len()
        invariant
            i <= s@.len(),
            r@ == lowered(s@.take(i as int)),
        decreases s@.len() - i,
    {
        r.push(lower_char(s[i]));
        assert(r@ =~= lowered(s@.take(i + 1)));
        i = i + 1;
    }
    assert(s@.take(i as int) =~= s@);
    r
}

/// The text with small ASCII letters made capital.
pub fn upper_chars(s: &[char]) -> (r: Vec<char>)
    ensures
        r@ == uppered(s@),
{
    let mut r: Vec<char> = Vec::new();
    let mut i: usize = 0;
    while i < s.len()
        invariant
            i <= s@.len(),
            r@ == uppered(s@.take(i as int)),
        decreases s@.len() - i,
    {
        r.push(upper_char(s[i]));
        assert(r@ =~= uppered(s@.take(i + 1)));
        i = i + 1;
    }
    assert(s@.take(i as int) =~= s@);
    r
}

/// Appends the characters of `s` to `out`.
pub fn append_chars(out: &mut String, s: &[char])
    ensures
        final(out)@ == old(out)@ + s@,
{
    let mut i: usize = 0;
    assert(old(out)@ + s@.take(0) =~= old(out)@);
    while i < s.len()
        invariant
            i <= s@.len(),
            out@ == old(out)@ + s@.take(i as int),
        decreases s@.len() - i,
    {
        out.push(s[i]);
        assert(out@ =~= old(out)@ + s@.take(i + 1));
        i = i + 1;
    }
    assert(s@.take(i as int) =~= s@);
}

proof fn lemma_lex_reflexive(a: Seq<char>)
    ensures
        lex_le(a, a),
    decreases a.len(),
{
    if a.len() > 0 {
        lemma_lex_reflexive(a.drop_first());
    }
}

pub proof fn lemma_lex_antisymmetric(a: Seq<char>, b: Seq<char>)
    requires
        lex_le(a, b),
        lex_le(b, a),
    ensures
        a == b,
    decreases a.len(),
{
    if a.len() > 0 && b.len() > 0 {
        lemma_lex_antisymmetric(a.drop_first(), b.drop_first());
        assert(a =~= seq![a[0]] + a.drop_first());
        assert(b =~= seq![b[0]] + b.drop_first());
    } else {
        assert(a =~= b);
    }
}

pub proof fn lemma_lex_transitive(a: Seq<char>, b: Seq<char>, c: Seq<char>)
    requires
        lex_le(a, b),
        lex_le(b, c),
    ensures
        lex_le(a, c),
    decreases a.len(),
{
    if a.len() > 0 && b.len() > 0 && c.len() > 0 && a[0] == b[0] && b[0] == c[0] {
        lemma_lex_transitive(a.drop_first(), b.drop_first(), c.drop_first());
    }
}

pub proof fn lemma_lex_total(a: Seq<char>, b: Seq<char>)
    ensures
        lex_le(a, b) || lex_le(b, a),
    decreases a.len(),
{
    if a.len() > 0 && b.len() > 0 && a[0] == b[0] {
        lemma_lex_total(a.drop_first(), b.drop_first());
    }
}

/// Lexicographic order is a total order.
pub proof fn lemma_lex_order()
    ensures
        vstd::relations::total_ordering(|a: Seq<char>, b: Seq<char>| lex_le(a, b)),
{
    let le = |a: Seq<char>, b: Seq<char>| lex_le(a, b);
    assert forall|a: Seq<char>| #[trigger] le(a, a) by {
        lemma_lex_reflexive(a);
    }
    assert forall|a: Seq<char>, b: Seq<char>| #[trigger] le(a, b) && #[trigger] le(b, a) implies a
        == b by {
        lemma_lex_antisymmetric(a, b);
    }
    assert forall|a: Seq<char>, b: Seq<char>, c: Seq<char>|
        #[trigger] le(a, b) && #[trigger] le(b, c) implies le(a, c) by {
        lemma_lex_transitive(a, b, c);
    }
    assert forall|a: Seq<char>, b: Seq<char>| #[trigger] le(a, b) || #[trigger] le(b, a) by {
        lemma_lex_total(a, b);
    }
}

/// Whether `a` comes before `b`, or they are equal, in lexicographic order.
pub fn lex_not_after(a: &[char], b: &[char]) -> (r: bool)
    ensures
        r == lex_le(a@, b@),
{
    let mut i: usize = 0;
    let n: usize = a.len();
    let m: usize = b.len();
    assert(a@.skip(0) =~= a@);
    assert(b@.skip(0) =~= b@);
    while i < n && i < m
        invariant
            i <= n,
            i <= m,
            n == a@.len(),
            m == b@.len(),
            lex_le(a@, b@) == lex_le(a@.skip(i as int), b@.skip(i as int)),
        decreases n - i,
    {
        assert(a@.skip(i as int).drop_first() =~= a@.skip(i + 1));
        assert(b@.skip(i as int).drop_first() =~= b@.skip(i + 1));
        if a[i] != b[i] {
            return a[i] < b[i];
        }
        i = i + 1;
    }
    i == n
}

/// The pieces in lexicographic order.
pub fn sort_slices<'a>(parts: &Vec<&'a [char]>) -> (r: Vec<&'a [char]>)
    ensures
        slices(r@) == sorted_texts(slices(parts@)),
{
    let ghost le = |a: Seq<char>, b: Seq<char>| lex_le(a, b);
    let mut r: Vec<&'a [char]> = Vec::new();
    let mut i: usize = 0;
    proof {
        lemma_lex_order();
        assert(slices(r@) =~= slices(parts@.take(0)));
    }
    while i < parts.len()
        invariant
            i <= parts@.len(),
            le == (|a: Seq<char>, b: Seq<char>| lex_le(a, b)),
            vstd::relations::total_ordering(le),
            r@.len() == i,
            vstd::relations::sorted_by(slices(r@), le),
            slices(r@).to_multiset() == slices(parts@.take(i as int)).to_multiset(),
        decreases parts@.len() - i,
    {
        let x: &'a [char] = parts[i];
        let mut at: usize = r.len();
        while at > 0 && !lex_not_after(r[at - 1], x)
            invariant
                at <= r@.len(),
                forall|k: int| at <= k < r@.len() ==> !lex_le(#[trigger] r@[k]@, x@),
            decreases at,
        {
            at = at - 1;
        }
        let ghost before = slices(r@);
        proof {
            assert forall|k: int| at <= k < before.len() implies lex_le(x@, #[trigger] before[k]) by {
                assert(!lex_le(r@[k]@, x@));
                lemma_lex_total(x@, before[k]);
            }
            assert forall|k: int| 0 <= k < at implies lex_le(#[trigger] before[k], x@) by {
                assert(at > 0 && lex_le(before[at - 1], x@));
                if k < at - 1 {
                    assert(le(before[k], before[at - 1]));
                    lemma_lex_transitive(before[k], before[at - 1], x@);
                }
            }
        }
        r.insert(at, x);
        proof {
            let after = slices(r@);
            assert(after =~= before.insert(at as int, x@));
            assert forall|a: int, b: int| 0 <= a < b < after.len() implies #[trigger] le(
                after[a],
                after[b],
            ) by {
                if a < at && b > at {
                    assert(le(before[a], before[b - 1]));
                } else if a < at && b < at {
                    assert(le(before[a], before[b]));
                } else if a > at {
                    assert(le(before[a - 1], before[b - 1]));
                }
            }
            vstd::seq_lib::to_multiset_insert(before, at as int, x@);
            let prefix = slices(parts@.take(i as int));
            assert(slices(parts@.take(i + 1)) =~= prefix.push(x@));
            vstd::seq_lib::to_multiset_build(prefix, x@);
        }
        i = i + 1;
    }
    proof {
        assert(parts@.take(i as int) =~= parts@);
        slices(parts@).lemma_sort_by_ensures(le);
        vstd::seq_lib::lemma_sorted_unique(slices(r@), sorted_texts(slices(parts@)), le);
    }
    r
}

/// The texts of `parts` with `sep` between them, appended to `out`.
pub fn append_joined(out: &mut String, parts: &Vec<&[char]>, sep: char)
    ensures
        final(out)@ == old(out)@ + join(slices(parts@), sep),
{
    let mut i: usize = 0;
    assert(old(out)@ + join(slices(parts@.take(0)), sep) =~= old(out)@);
    while i < parts.len()
        invariant
            i <= parts@.len(),
            out@ == old(out)@ + join(slices(parts@.take(i as int)), sep),
        decreases parts@.len() - i,
    {
        let ghost upto = slices(parts@.take(i + 1));
        assert(upto.drop_last() =~= slices(parts@.take(i as int)));
        if i > 0 {
            out.push(sep);
        }
        append_chars(out, parts[i]);
        assert(out@ =~= old(out)@ + join(upto, sep));
        i = i + 1;
    }
    assert(parts@.take(i as int) =~= parts@);
}

/// The value of a text of decimal digits.
pub open spec fn digits_value(s: Seq<char>) -> nat
    decreases s.len(),
{
    if s.len() == 0 {
        0
    } else {
        digits_value(s.drop_last()) * 10 + (s.last() as u32 - '0' as u32) as nat
    }
}

pub open spec fn all_digits(s: Seq<char>) -> bool {
    forall|i: int| 0 <= i < s.len() ==> '0' <= #[trigger] s[i] <= '9'
}

/// The unsigned number that `s` writes in decimal, with an optional leading
/// `+`, where it is at most `max`.
pub open spec fn number_of_text(s: Seq<char>, max: nat) -> Option<nat> {
    let digits = if s.len() > 0 && s[0] == '+' { s.drop_first() } else { s };
    if digits.len() == 0 || !all_digits(digits) || digits_value(digits) > max {
        None
    } else {
        Some(digits_value(digits))
    }
}

/// The decimal digits of `n`, without leading zeros.
pub open spec fn decimal(n: nat) -> Seq<char>
    decreases n,
{
    if n < 10 {
        seq![(n + 48) as char]
    } else {
        decimal(n / 10).push((n % 10 + 48) as char)
    }
}

proof fn lemma_digits_prefix(s: Seq<char>, i: int)
    requires
        0 <= i <= s.len(),
        all_digits(s),
    ensures
        digits_value(s.take(i)) <= digits_value(s),
    decreases s.len() - i,
{
    if i < s.len() {
        lemma_digits_prefix(s, i + 1);
        assert(s.take(i + 1).drop_last() =~= s.take(i));
        assert('0' <= s[i] <= '9');
    } else {
        assert(s.take(i) =~= s);
    }
}

/// Reads an unsigned decimal number of at most `max`.
pub fn parse_number(s: &[char], max: u64) -> (r: Option<u64>)
    ensures
        match r {
            Some(n) => number_of_text(s@, max as nat) == Some(n as nat),
            None => number_of_text(s@, max as nat) is None,
        },
        r matches Some(n) ==> n <= max,
{
    let start: usize = if s.len() > 0 && s[0] == '+' { 1 } else { 0 };
    let digits: &[char] = part(s, start, s.len());
    proof {
        assert(digits@ =~= if s@.len() > 0 && s@[0] == '+' { s@.drop_first() } else { s@ });
    }
    if digits.len() == 0 {
        return None;
    }
    let mut n: u64 = 0;
    let mut i: usize = 0;
    while i < digits.len()
        invariant
            i <= digits@.len(),
            digits@ == if s@.len() > 0 && s@[0] == '+' { s@.drop_first() } else { s@ },
            n == digits_value(digits@.take(i as int)),
            n <= max,
            forall|j: int| 0 <= j < i ==> '0' <= #[trigger] digits@[j] <= '9',
        decreases digits@.len() - i,
    {
        let c: char = digits[i];
        if c < '0' || c > '9' {
            assert(!all_digits(digits@));
            return None;
        }
        let d: u64 = c as u64 - 48;
        assert(digits@.take(i + 1).drop_last() =~= digits@.take(i as int));
        let wide: u128 = n as u128 * 10 + d as u128;
        if wide > max as u128 {
            proof {
                if all_digits(digits@) {
                    lemma_digits_prefix(digits@, i + 1);
                }
            }
            return None;
        }
        n = wide as u64;
        i = i + 1;
    }
    assert(digits@.take(i as int) =~= digits@);
    Some(n)
}

/// Appends the decimal digits of `n` to `out`.
pub fn append_decimal(out: &mut String, n: u64)
    ensures
        final(out)@ == old(out)@ + decimal(n as nat),
    decreases n,
{
    if n >= 10 {
        append_decimal(out, n / 10);
    }
    out.push(((n % 10) as u8 + 48) as char);
    assert(out@ =~= old(out)@ + decimal(n as nat));
}

/// How many bytes a character takes in UTF-8.
pub open spec fn char_width(c: char) -> nat {
    if c as u32 <= 0x7f {
        1
    } else if c as u32 <= 0x7ff {
        2
    } else if c as u32 <= 0xffff {
        3
    } else {
        4
    }
}

/// One more character takes its own bytes.
pub proof fn lemma_utf8_push(s: Seq<char>, c: char)
    ensures
        utf8_len(s.push(c)) == utf8_len(s) + char_width(c),
    decreases s.len(),
{
    let t = s.push(c);
    reveal_with_fuel(vstd::utf8::encode_utf8, 2);
    if s.len() == 0 {
        assert(t.drop_first() =~= Seq::empty());
        vstd::utf8::char_is_scalar(c);
    } else {
        assert(t.drop_first() =~= s.drop_first().push(c));
        lemma_utf8_push(s.drop_first(), c);
    }
}

/// The longest prefix of `s` that takes at most `max` bytes in UTF-8.
pub open spec fn utf8_prefix(s: Seq<char>, max: nat) -> Seq<char>
    decreases s.len(),
{
    if utf8_len(s) <= max || s.len() == 0 {
        s
    } else {
        utf8_prefix(s.drop_last(), max)
    }
}

/// Where a prefix fits and one more character does not, it is the longest.
proof fn lemma_utf8_prefix(s: Seq<char>, max: nat, n: int)
    requires
        0 <= n <= s.len(),
        utf8_len(s.take(n)) <= max,
        n < s.len() ==> utf8_len(s.take(n + 1)) > max,
    ensures
        utf8_prefix(s, max) == s.take(n),
    decreases s.len(),
{
    if n == s.len() {
        assert(s.take(n) =~= s);
    } else {
        lemma_utf8_prefix_grows(s, n + 1);
        let t = s.drop_last();
        assert(t.take(n) =~= s.take(n));
        if n < t.len() {
            assert(t.take(n + 1) =~= s.take(n + 1));
        }
        lemma_utf8_prefix(t, max, n);
    }
}

proof fn lemma_utf8_prefix_grows(s: Seq<char>, n: int)
    requires
        0 <= n <= s.len(),
    ensures
        utf8_len(s.take(n)) <= utf8_len(s),
    decreases s.len(),
{
    if n == s.len() {
        assert(s.take(n) =~= s);
    } else {
        let t = s.drop_last();
        assert(t.take(n) =~= s.take(n));
        lemma_utf8_prefix_grows(t, n);
        lemma_utf8_push(t, s.last());
        assert(t.push(s.last()) =~= s);
    }
}

/// The longest prefix of a string that takes at most `max` bytes.
pub fn cut_to_bytes(s: &str, max: usize) -> (r: String)
    ensures
        r@ == utf8_prefix(s@, max as nat),
{
    let len: usize = s.as_bytes().len();
    if len <= max {
        return s.to_owned();
    }
    let chars: Vec<char> = chars_of(s);
    let mut out: String = String::new();
    let mut used: usize = 0;
    let mut i: usize = 0;
    proof {
        assert(s@.take(0) =~= Seq::empty());
    }
    while i < chars.len()
        invariant
            i <= chars@.len(),
            chars@ == s@,
            out@ == s@.take(i as int),
            used == utf8_len(s@.take(i as int)),
            used <= max,
        decreases chars@.len() - i,
    {
        let c: char = chars[i];
        let u: u32 = c as u32;
        let width: usize = if u <= 0x7f {
            1
        } else if u <= 0x7ff {
            2
        } else if u <= 0xffff {
            3
        } else {
            4
        };
        proof {
            lemma_utf8_push(s@.take(i as int), c);
            assert(s@.take(i as int).push(c) =~= s@.take(i + 1));
        }
        if width > max - used {
            proof {
                lemma_utf8_prefix(s@, max as nat, i as int);
            }
            return out;
        }
        out.push(c);
        used = used + width;
        i = i + 1;
    }
    proof {
        lemma_utf8_prefix(s@, max as nat, i as int);
    }
    out
}

/// Looking on in the second of two texts.
proof fn lemma_find_shift(a: Seq<char>, x: Seq<char>, c: char, i: int)
    requires
        0 <= i <= x.len(),
    ensures
        find_from(a + x, c, a.len() + i) == a.len() + find_from(x, c, i),
    decreases x.len() - i,
{
    if i < x.len() && x[i] != c {
        lemma_find_shift(a, x, c, i + 1);
    }
}

/// Splitting on in the second of two texts.
proof fn lemma_split_shift(a: Seq<char>, x: Seq<char>, sep: char, i: int)
    requires
        0 <= i <= x.len(),
    ensures
        split_from(a + x, sep, a.len() + i) == split_from(x, sep, i),
    decreases x.len() + 1 - i,
{
    let s = a + x;
    lemma_find_shift(a, x, sep, i);
    lemma_find(x, sep, i);
    let e = find_from(x, sep, i);
    if e < x.len() {
        lemma_split_shift(a, x, sep, e + 1);
        assert(s.subrange(a.len() + i, a.len() + e) =~= x.subrange(i, e));
    } else {
        assert(s.subrange(a.len() + i, s.len() as int) =~= x.subrange(i, x.len() as int));
    }
}

/// A separator between two texts separates their pieces.
pub proof fn lemma_split_join(m: Seq<char>, x: Seq<char>, sep: char)
    ensures
        split(m.push(sep) + x, sep) == split(m, sep) + split(x, sep),
{
    lemma_split_join_from(m, x, sep, 0);
}

proof fn lemma_split_join_from(m: Seq<char>, x: Seq<char>, sep: char, i: int)
    requires
        0 <= i <= m.len(),
    ensures
        split_from(m.push(sep) + x, sep, i) == split_from(m, sep, i) + split(x, sep),
    decreases m.len() + 1 - i,
{
    let s = m.push(sep) + x;
    lemma_find(m, sep, i);
    let e = find_from(m, sep, i);
    lemma_find_is(s, sep, i, e);
    if e < m.len() {
        lemma_split_join_from(m, x, sep, e + 1);
        assert(s.subrange(i, e) =~= m.subrange(i, e));
        assert(split_from(s, sep, i) =~= seq![m.subrange(i, e)] + (split_from(m, sep, e + 1) + split(
            x,
            sep,
        )));
        assert(split_from(s, sep, i) =~= split_from(m, sep, i) + split(x, sep));
    } else {
        lemma_split_shift(m.push(sep), x, sep, 0);
        assert(s.subrange(i, e) =~= m.subrange(i, m.len() as int));
        assert(split_from(s, sep, i) =~= split_from(m, sep, i) + split(x, sep));
    }
}

/// A text without the separator is one piece.
pub proof fn lemma_split_whole(x: Seq<char>, sep: char)
    requires
        !x.contains(sep),
    ensures
        split(x, sep) == seq![x],
{
    lemma_find(x, sep, 0);
    let e = find_from(x, sep, 0);
    if e < x.len() {
        assert(x.contains(sep));
    }
    assert(x.subrange(0, x.len() as int) =~= x);
}

} // verus!
