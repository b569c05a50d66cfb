//! What holds of the forms that texts are brought into.

use vstd::prelude::*;

use crate::text;

verus! {

/// The small and the capital form of a character: 32 code points apart for the 26 letters
/// of ASCII, and the same for anything else.
pub proof fn law_letters(c: char)
    ensures
        65 <= c as u32 <= 90 ==> text::lower(c) == (c as u32 + 32) as char && text::upper(c) == c,
        97 <= c as u32 <= 122 ==> text::upper(c) == (c as u32 - 32) as char && text::lower(c) == c,
        !(65 <= c as u32 <= 90) && !(97 <= c as u32 <= 122) ==> text::lower(c) == c && text::upper(
            c,
        ) == c,
{
}

/// Letters and digits, of ASCII alone.
pub proof fn law_letters_and_digits(c: char)
    ensures
        text::is_alphanumeric(c) <==> 48 <= c as u32 <= 57 || 65 <= c as u32 <= 90 || 97
            <= c as u32 <= 122,
{
}

/// White space: a tab, the line ends, and a space, among others; no character that can be
/// seen in ASCII is.
pub proof fn law_white_space(c: char)
    ensures
        c as u32 == 9 || c as u32 == 10 || c as u32 == 13 || c as u32 == 32 ==> text::is_white(c),
        33 <= c as u32 <= 126 ==> !text::is_white(c),
{
}

/// Whether a text is nothing but white space.
pub open spec fn is_blank(s: Seq<char>) -> bool {
    forall|i: int| 0 <= i < s.len() ==> text::is_white(#[trigger] s[i])
}

/// White space around a text goes, and within it stays.
pub proof fn law_trim(front: Seq<char>, s: Seq<char>, back: Seq<char>)
    requires
        is_blank(front),
        is_blank(back),
        s.len() > 0 ==> !text::is_white(s[0]) && !text::is_white(s.last()),
    ensures
        text::trim(front + s + back) == s,
{
    lemma_front(front, s + back);
    assert(front + s + back =~= front + (s + back));
    if s.len() > 0 {
        assert((s + back)[0] == s[0]);
        lemma_back(s, back);
    } else {
        assert(s + back =~= back);
        lemma_blank(back);
        assert(text::trim_start(back) == s);
    }
}

proof fn lemma_blank(s: Seq<char>)
    requires
        is_blank(s),
    ensures
        text::trim_start(s) == Seq::<char>::empty(),
    decreases s.len(),
{
    if s.len() > 0 {
        let rest = s.drop_first();
        assert(text::is_white(s[0]));
        assert forall|i: int| 0 <= i < rest.len() implies text::is_white(#[trigger] rest[i]) by {
            assert(rest[i] == s[i + 1]);
        }
        lemma_blank(rest);
    } else {
        assert(s =~= Seq::empty());
    }
}

proof fn lemma_front(front: Seq<char>, s: Seq<char>)
    requires
        is_blank(front),
    ensures
        text::trim_start(front + s) == text::trim_start(s),
    decreases front.len(),
{
    if front.len() > 0 {
        let rest = front.drop_first();
        assert(text::is_white(front[0]));
        assert((front + s)[0] == front[0]);
        assert((front + s).drop_first() =~= rest + s);
        assert forall|i: int| 0 <= i < rest.len() implies text::is_white(#[trigger] rest[i]) by {
            assert(rest[i] == front[i + 1]);
        }
        lemma_front(rest, s);
    } else {
        assert(front + s =~= s);
    }
}

proof fn lemma_back(s: Seq<char>, back: Seq<char>)
    requires
        is_blank(back),
        s.len() > 0,
        !text::is_white(s.last()),
    ensures
        text::trim_end(s + back) == s,
    decreases back.len(),
{
    if back.len() > 0 {
        let rest = back.drop_last();
        assert(text::is_white(back[back.len() - 1]));
        assert((s + back).last() == back[back.len() - 1]);
        assert((s + back).drop_last() =~= s + rest);
        assert forall|i: int| 0 <= i < rest.len() implies text::is_white(#[trigger] rest[i]) by {
            assert(rest[i] == back[i]);
        }
        lemma_back(s, rest);
    } else {
        assert(s + back =~= s);
    }
}

/// The pieces of a text: the first one goes up to the first separator, and the others are
/// those of what follows it; without a separator the text is the one piece.
pub proof fn law_split(first: Seq<char>, rest: Seq<char>, sep: char)
    requires
        !first.contains(sep),
    ensures
        text::split(first, sep) == seq![first],
        text::split(first.push(sep) + rest, sep) == seq![first] + text::split(rest, sep),
{
    text::lemma_split_whole(first, sep);
    text::lemma_split_join(first, rest, sep);
}

/// A number and the text that it is written as: digits without leading zeros, read again as
/// the number.
pub proof fn law_decimal(n: nat, max: nat)
    ensures
        n <= max ==> text::number_of_text(text::decimal(n), max) == Some(n),
        n > max ==> text::number_of_text(text::decimal(n), max) is None,
        text::decimal(n).len() > 0,
        n > 0 ==> text::decimal(n)[0] != '0',
        text::decimal(n).last() as int == 48 + n % 10,
        n < 10 ==> text::decimal(n).len() == 1,
{
    lemma_decimal(n);
    let s = text::decimal(n);
    assert('0' <= s[0] <= '9');
}

proof fn lemma_decimal(n: nat)
    ensures
        text::all_digits(text::decimal(n)),
        text::digits_value(text::decimal(n)) == n,
        text::decimal(n).len() > 0,
        n > 0 ==> text::decimal(n)[0] != '0',
        text::decimal(n).last() as int == 48 + n % 10,
    decreases n,
{
    let s = text::decimal(n);
    if n < 10 {
        let c = (n + 48) as char;
        assert(c as int == n + 48);
        assert(s =~= seq![c]);
        assert(s.drop_last() =~= Seq::empty());
        assert(text::digits_value(s.drop_last()) == 0);
        assert(s.last() == c);
        assert(s[0] == c);
    } else {
        lemma_decimal(n / 10);
        let front = text::decimal(n / 10);
        let c = (n % 10 + 48) as char;
        assert(c as int == n % 10 + 48);
        assert(s == front.push(c));
        assert(s.drop_last() =~= front);
        assert(s.last() == c);
        assert(s[0] == front[0]);
        assert forall|i: int| 0 <= i < s.len() implies '0' <= #[trigger] s[i] <= '9' by {
            if i < front.len() {
                assert(s[i] == front[i]);
            }
        }
    }
}

/// The words of a text: the first one, and those of what follows the white space behind it.
pub proof fn law_words(first: Seq<char>, gap: char, rest: Seq<char>)
    requires
        first.len() > 0,
        forall|i: int| 0 <= i < first.len() ==> !text::is_white(#[trigger] first[i]),
        text::is_white(gap),
    ensures
        text::words(first) == seq![first],
        text::words(first.push(gap) + rest) == seq![first] + text::words(rest),
        text::words(seq![gap] + rest) == text::words(rest),
{
    let n = first.len() as int;
    lemma_run(first, 0, n);
    assert(first.subrange(0, n) =~= first);
    assert(text::words_from(first, n) =~= Seq::empty());
    assert(text::words(first) =~= seq![first]);
    let s = first.push(gap) + rest;
    assert forall|j: int| 0 <= j < n implies !text::is_white(#[trigger] s[j]) by {
        assert(s[j] == first[j]);
    }
    assert(s[n] == gap);
    lemma_run(s, 0, n);
    assert(s.subrange(0, n) =~= first);
    assert(text::words(s) =~= seq![first] + text::words_from(s, n));
    lemma_shift(first.push(gap), rest, 0);
    lemma_gap(s, n);
    let t = seq![gap] + rest;
    lemma_shift(seq![gap], rest, 0);
    assert(t[0] == gap);
    lemma_gap(t, 0);
}

/// Words begin behind white space.
proof fn lemma_gap(s: Seq<char>, n: int)
    requires
        0 <= n < s.len(),
        text::is_white(s[n]),
    ensures
        text::words_from(s, n) == text::words_from(s, n + 1),
{
    let b = text::find_white_from(s, false, n);
    assert(b == text::find_white_from(s, false, n + 1));
    lemma_found(s, false, n + 1);
}

proof fn lemma_found(s: Seq<char>, white: bool, i: int)
    requires
        0 <= i <= s.len(),
    ensures
        i <= text::find_white_from(s, white, i) <= s.len(),
    decreases s.len() - i,
{
    if i < s.len() && text::is_white(s[i]) != white {
        lemma_found(s, white, i + 1);
    }
}

/// A run without white space goes up to where it ends.
proof fn lemma_run(s: Seq<char>, i: int, n: int)
    requires
        0 <= i < n <= s.len(),
        forall|j: int| i <= j < n ==> !text::is_white(#[trigger] s[j]),
        n < s.len() ==> text::is_white(s[n]),
    ensures
        text::find_white_from(s, false, i) == i,
        text::find_white_from(s, true, i) == n,
    decreases n - i,
{
    assert(!text::is_white(s[i]));
    if i + 1 < n {
        lemma_run(s, i + 1, n);
    } else {
        assert(text::find_white_from(s, true, n) == n);
    }
}

/// Words in the second of two texts.
proof fn lemma_shift(a: Seq<char>, x: Seq<char>, i: int)
    requires
        0 <= i <= x.len(),
    ensures
        text::words_from(a + x, a.len() + i) == text::words_from(x, i),
    decreases x.len() - i,
{
    let s = a + x;
    let n = a.len() as int;
    lemma_found(x, false, i);
    let b = text::find_white_from(x, false, i);
    lemma_found(x, true, b);
    let e = text::find_white_from(x, true, b);
    lemma_find_shift(a, x, false, i);
    lemma_find_shift(a, x, true, b);
    if b < x.len() && e > b {
        lemma_shift(a, x, e);
        assert(s.subrange(n + b, n + e) =~= x.subrange(b, e));
    }
}

proof fn lemma_find_shift(a: Seq<char>, x: Seq<char>, white: bool, i: int)
    requires
        0 <= i <= x.len(),
    ensures
        text::find_white_from(a + x, white, a.len() + i) == a.len() + text::find_white_from(
            x,
            white,
            i,
        ),
    decreases x.len() - i,
{
    if i < x.len() {
        assert((a + x)[a.len() + i] == x[i]);
        if text::is_white(x[i]) != white {
            lemma_find_shift(a, x, white, i + 1);
        }
    }
}

} // verus!
