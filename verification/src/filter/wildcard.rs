//! What wildcard patterns mean on names.
//!
//! A pattern is compiled to a regex. Here the pattern is given a meaning of its own,
//! the few constructs of regex syntax that are used are given theirs, and the two are
//! shown to be the same.

use vstd::prelude::*;

use crate::filter::engine;
use crate::filter::laws;
use crate::filter::parser;
use crate::filter::regexes;
use crate::filter::rule::{Action, BuildView, ClientView, PatternView};
use crate::filter::token;
use crate::text;

verus! {

/// Whether two characters are the same but for the case of ASCII letters.
pub open spec fn same_letter(a: char, b: char) -> bool {
    ||| a == b
    ||| 'A' <= a <= 'Z' && b as int == a as int + 32
    ||| 'A' <= b <= 'Z' && a as int == b as int + 32
}

/// Whether a character can stand in a host name, so that it does not separate.
pub open spec fn is_name_char(c: char) -> bool {
    'a' <= c <= 'z' || 'A' <= c <= 'Z' || '0' <= c <= '9' || c == '.' || c == '_' || c == '-'
}

/// Whether a pattern matches a name from `p` on: `*` stands for any characters, dots
/// among them, or none; `^` for a character that separates or for the end; any other
/// character for itself. With `end` the match goes to the end of the name.
pub open spec fn stands_at(pattern: Seq<char>, end: bool, name: Seq<char>, p: int) -> bool
    decreases pattern.len(), name.len() - p,
{
    if pattern.len() == 0 {
        end ==> p == name.len()
    } else {
        let rest = pattern.drop_first();
        if pattern[0] == '*' {
            ||| stands_at(rest, end, name, p)
            ||| p < name.len() && stands_at(pattern, end, name, p + 1)
        } else if pattern[0] == '^' {
            ||| p < name.len() && !is_name_char(name[p]) && stands_at(rest, end, name, p + 1)
            ||| p == name.len() && stands_at(rest, end, name, p)
        } else {
            p < name.len() && same_letter(pattern[0], name[p]) && stands_at(
                rest,
                end,
                name,
                p + 1,
            )
        }
    }
}

/// Whether a pattern matches a name: from the start or from behind a dot (`||`), from
/// the start (`|`), or from anywhere.
pub open spec fn matches_name(
    pattern: Seq<char>,
    subdomain: bool,
    start: bool,
    end: bool,
    name: Seq<char>,
) -> bool {
    exists|p: int|
        0 <= p <= name.len() && (subdomain ==> p == 0 || name[p - 1] == '.') && (!subdomain && start
            ==> p == 0) && #[trigger] stands_at(pattern, end, name, p)
}

/// Whether `s` begins with `piece`.
pub open spec fn begins(s: Seq<char>, piece: Seq<char>) -> bool {
    s.len() >= piece.len() && s.take(piece.len() as int) == piece
}

/// What a regex says of a text from `p` on, as far as these constructs go: `.*` (any
/// characters but line ends), `^` and `$` (the start and the end), a character behind a
/// backslash and a plain character (itself, in either case), and two groups of
/// alternatives: the start or a dot, and what is not in a name or the end.
pub open spec fn says_at(re: Seq<char>, text: Seq<char>, p: int) -> bool
    decreases re.len(), text.len() - p,
{
    if re.len() == 0 {
        true
    } else if begins(re, seq!['.', '*']) {
        ||| says_at(re.skip(2), text, p)
        ||| p < text.len() && text[p] != '\n' && says_at(re, text, p + 1)
    } else if re[0] == '^' {
        p == 0 && says_at(re.skip(1), text, p)
    } else if re[0] == '$' {
        p == text.len() && says_at(re.skip(1), text, p)
    } else if re[0] == '\\' {
        re.len() > 1 && p < text.len() && same_letter(re[1], text[p]) && says_at(
            re.skip(2),
            text,
            p + 1,
        )
    } else if begins(re, seq!['(', '?', ':', '^', '|', '\\', '.', ')']) {
        ||| p == 0 && says_at(re.skip(8), text, p)
        ||| p < text.len() && text[p] == '.' && says_at(re.skip(8), text, p + 1)
    } else if begins(
        re,
        seq!['(', '?', ':', '[', '^', 'a', '-', 'z', '0', '-', '9', '.', '_', '-', ']', '|', '$', ')'],
    ) {
        ||| p < text.len() && !is_name_char(text[p]) && says_at(re.skip(18), text, p + 1)
        ||| p == text.len() && says_at(re.skip(18), text, p)
    } else if is_operator(re[0]) {
        false
    } else {
        p < text.len() && same_letter(re[0], text[p]) && says_at(re.skip(1), text, p + 1)
    }
}

/// The characters that do not stand for themselves in a regex.
pub open spec fn is_operator(c: char) -> bool {
    c == '.' || c == '*' || c == '+' || c == '?' || c == '(' || c == ')' || c == '[' || c == ']' || c
        == '{' || c == '}' || c == '|'
}

/// What a regex without regard to case says of a text, somewhere in it.
pub open spec fn says(re: Seq<char>, text: Seq<char>) -> bool {
    begins(re, seq!['(', '?', 'i', ')']) && exists|p: int|
        0 <= p <= text.len() && #[trigger] says_at(re.skip(4), text, p)
}

/// What closes the regex of a pattern.
spec fn tail(end: bool) -> Seq<char> {
    if end {
        "$"@
    } else {
        Seq::empty()
    }
}

proof fn lemma_body_front(body: Seq<char>)
    requires
        body.len() > 0,
    ensures
        parser::wildcard_body(body) == parser::wildcard_piece(body[0]) + parser::wildcard_body(
            body.drop_first(),
        ),
    decreases body.len(),
{
    let none = Seq::<char>::empty();
    if body.len() == 1 {
        assert(body.drop_first() =~= none);
        assert(body.drop_last() =~= none);
        assert(parser::wildcard_body(none) =~= none);
        assert(none + parser::wildcard_piece(body[0]) =~= parser::wildcard_piece(body[0]) + none);
    } else {
        let init = body.drop_last();
        lemma_body_front(init);
        assert(init.drop_first() =~= body.drop_first().drop_last());
        assert(body.drop_first().last() == body.last());
        let a = parser::wildcard_piece(body[0]);
        let b = parser::wildcard_body(init.drop_first());
        let c = parser::wildcard_piece(body.last());
        assert((a + b) + c =~= a + (b + c));
    }
}

/// The regex of a pattern says of a name what the pattern means.
proof fn lemma_says_at(pattern: Seq<char>, end: bool, name: Seq<char>, p: int)
    requires
        0 <= p <= name.len(),
        !name.contains('\n'),
    ensures
        says_at(parser::wildcard_body(pattern) + tail(end), name, p) <==> stands_at(
            pattern,
            end,
            name,
            p,
        ),
    decreases pattern.len(), name.len() - p,
{
    let re = parser::wildcard_body(pattern) + tail(end);
    if pattern.len() == 0 {
        reveal_strlit("$");
        assert(re =~= tail(end));
        if end {
            assert(re[0] == '$');
            assert(re.skip(1) =~= Seq::empty());
            assert(!begins(re, seq!['.', '*']));
            assert(says_at(re.skip(1), name, p));
        }
    } else {
        let c = pattern[0];
        let rest = pattern.drop_first();
        let more = parser::wildcard_body(rest) + tail(end);
        let piece = parser::wildcard_piece(c);
        lemma_body_front(pattern);
        assert(re =~= piece + more);
        if c == '*' {
            reveal_strlit(".*");
            assert(re.take(2) =~= seq!['.', '*']);
            assert(re.skip(2) =~= more);
            lemma_says_at(rest, end, name, p);
            if p < name.len() {
                assert(name[p] != '\n') by {
                    if name[p] == '\n' {
                        assert(name.contains('\n'));
                    }
                }
                lemma_says_at(pattern, end, name, p + 1);
            }
        } else if c == '^' {
            reveal_strlit("(?:[^a-z0-9._-]|$)");
            assert(piece.len() == 18);
            assert(re[0] == '(' && re[3] == '[');
            assert(re.take(18) =~= seq![
                '(',
                '?',
                ':',
                '[',
                '^',
                'a',
                '-',
                'z',
                '0',
                '-',
                '9',
                '.',
                '_',
                '-',
                ']',
                '|',
                '$',
                ')',
            ]);
            assert(re.skip(18) =~= more);
            assert(re.take(2)[0] == '(');
            assert(re.take(8)[3] == '[');
            assert(!begins(re, seq!['.', '*']));
            assert(!begins(re, seq!['(', '?', ':', '^', '|', '\\', '.', ')'])) by {
                assert(seq!['(', '?', ':', '^', '|', '\\', '.', ')'][3] == '^');
            }
            lemma_says_at(rest, end, name, p);
            if p < name.len() {
                lemma_says_at(rest, end, name, p + 1);
            }
        } else if parser::is_regex_special(c) {
            assert(re[0] == '\\' && re[1] == c);
            assert(re.skip(2) =~= more);
            assert(re.take(2)[0] == '\\');
            assert(!begins(re, seq!['.', '*'])) by {
                assert(seq!['.', '*'][0] == '.');
            }
            if p < name.len() {
                lemma_says_at(rest, end, name, p + 1);
            }
        } else {
            assert(re[0] == c);
            assert(re.skip(1) =~= more);
            assert(!begins(re, seq!['.', '*'])) by {
                if re.len() >= 2 {
                    assert(re.take(2)[0] == c);
                }
            }
            let g = seq!['(', '?', ':', '^', '|', '\\', '.', ')'];
            assert(!begins(re, g)) by {
                if re.len() >= 8 {
                    assert(re.take(8)[0] == c && g[0] == '(');
                }
            }
            let h = seq![
                '(',
                '?',
                ':',
                '[',
                '^',
                'a',
                '-',
                'z',
                '0',
                '-',
                '9',
                '.',
                '_',
                '-',
                ']',
                '|',
                '$',
                ')',
            ];
            assert(!begins(re, h)) by {
                if re.len() >= 18 {
                    assert(re.take(18)[0] == c && h[0] == '(');
                }
            }
            if p < name.len() {
                lemma_says_at(rest, end, name, p + 1);
            }
        }
    }
}

/// What a wildcard pattern is compiled to says of a name just what the pattern means: a
/// `*` takes any characters, more labels among them, and every other character takes
/// itself; `||` starts at the name or behind one of its dots, `|` at the name; a closing
/// mark goes to its end.
pub proof fn law_wildcard_meaning(
    pattern: Seq<char>,
    subdomain: bool,
    start: bool,
    end: bool,
    name: Seq<char>,
)
    requires
        !name.contains('\n'),
    ensures
        says(parser::wildcard_source(pattern, subdomain, start, end), name) <==> matches_name(
            pattern,
            subdomain,
            start,
            end,
            name,
        ),
{
    reveal_strlit("(?i)");
    reveal_strlit("(?:^|\\.)");
    reveal_strlit("^");
    let src = parser::wildcard_source(pattern, subdomain, start, end);
    let core = parser::wildcard_body(pattern) + tail(end);
    let head = if subdomain {
        "(?:^|\\.)"@
    } else if start {
        "^"@
    } else {
        Seq::empty()
    };
    assert(src =~= "(?i)"@ + (head + core));
    assert(src.take(4) =~= seq!['(', '?', 'i', ')']);
    assert(src.skip(4) =~= head + core);
    let re = head + core;
    assert forall|p: int| 0 <= p <= name.len() implies #[trigger] says_at(core, name, p)
        == stands_at(pattern, end, name, p) by {
        lemma_says_at(pattern, end, name, p);
    }
    if subdomain {
        let g = seq!['(', '?', ':', '^', '|', '\\', '.', ')'];
        assert(re.take(8) =~= g);
        assert(re.skip(8) =~= core);
        assert(re[0] == '(');
        assert(!begins(re, seq!['.', '*'])) by {
            assert(re.take(2)[0] == '(');
        }
        if says(src, name) {
            let p = choose|p: int| 0 <= p <= name.len() && #[trigger] says_at(re, name, p);
            if p == 0 && says_at(core, name, 0) {
                assert(stands_at(pattern, end, name, 0));
            } else {
                assert(says_at(core, name, p + 1));
                assert(stands_at(pattern, end, name, p + 1));
            }
        }
        if matches_name(pattern, subdomain, start, end, name) {
            let p = choose|p: int|
                0 <= p <= name.len() && (p == 0 || name[p - 1] == '.') && #[trigger] stands_at(
                    pattern,
                    end,
                    name,
                    p,
                );
            assert(says_at(core, name, p));
            if p == 0 {
                assert(says_at(re, name, 0));
            } else {
                assert(says_at(re, name, p - 1));
            }
        }
    } else if start {
        assert(re[0] == '^');
        assert(re.skip(1) =~= core);
        assert(!begins(re, seq!['.', '*'])) by {
            if re.len() >= 2 {
                assert(re.take(2)[0] == '^');
            }
        }
        if says(src, name) {
            assert(says_at(core, name, 0));
            assert(stands_at(pattern, end, name, 0));
        }
        if matches_name(pattern, subdomain, start, end, name) {
            assert(says_at(core, name, 0));
            assert(says_at(re, name, 0));
        }
    } else {
        assert(re =~= core);
        if says(src, name) {
            let p = choose|p: int| 0 <= p <= name.len() && #[trigger] says_at(re, name, p);
            assert(says_at(core, name, p));
            assert(stands_at(pattern, end, name, p));
        }
        if matches_name(pattern, subdomain, start, end, name) {
            let p = choose|p: int|
                0 <= p <= name.len() && #[trigger] stands_at(pattern, end, name, p);
            assert(says_at(core, name, p));
            assert(says_at(re, name, p));
        }
    }
}

/// A `*` takes whatever stands between what comes before it and what comes after it,
/// dots and all: where a name is made of something that is empty or ends in a dot, of
/// the text before the star, of anything, and of the text after the star, the pattern
/// `||before*after^` matches it.
pub proof fn law_star_takes_anything(
    head: Seq<char>,
    before: Seq<char>,
    middle: Seq<char>,
    after: Seq<char>,
)
    requires
        head.len() == 0 || head.last() == '.',
        !before.contains('*') && !before.contains('^'),
        !after.contains('*') && !after.contains('^'),
        !(head + before + middle + after).contains('\n'),
    ensures
        says(
            parser::wildcard_source(before.push('*') + after, true, false, true),
            head + before + middle + after,
        ),
{
    let name = head + before + middle + after;
    let pattern = before.push('*') + after;
    let none = Seq::<char>::empty();
    let last = name.len() - after.len();
    assert(name.skip(last) =~= after);
    assert(after + none =~= after);
    lemma_literal(after, none, true, name, last as int);
    let starred = seq!['*'] + after;
    assert(starred.drop_first() =~= after);
    lemma_star(after, true, name, (head.len() + before.len()) as int, last as int);
    assert(before + starred =~= pattern);
    assert(name.subrange(head.len() as int, (head.len() + before.len()) as int) =~= before);
    lemma_literal(before, starred, true, name, head.len() as int);
    if head.len() > 0 {
        assert(name[head.len() - 1] == head.last());
    }
    assert(stands_at(pattern, true, name, head.len() as int));
    assert(matches_name(pattern, true, false, true, name));
    law_wildcard_meaning(pattern, true, false, true, name);
}

/// Plain characters take themselves.
proof fn lemma_literal(plain: Seq<char>, rest: Seq<char>, end: bool, name: Seq<char>, p: int)
    requires
        !plain.contains('*') && !plain.contains('^'),
        0 <= p,
        p + plain.len() <= name.len(),
        name.subrange(p, p + plain.len()) == plain,
        rest.len() > 0 ==> stands_at(rest, end, name, p + plain.len()),
        rest.len() == 0 ==> p + plain.len() == name.len(),
    ensures
        stands_at(plain + rest, end, name, p),
    decreases plain.len(),
{
    if plain.len() == 0 {
        assert(plain + rest =~= rest);
    } else {
        let more = plain.drop_first();
        assert(plain.contains(plain[0]));
        assert forall|c: char| more.contains(c) implies plain.contains(c) by {
            let k = choose|k: int| 0 <= k < more.len() && more[k] == c;
            assert(plain[k + 1] == c);
        }
        assert(name.subrange(p, p + plain.len())[0] == name[p]);
        assert(name.subrange(p + 1, p + plain.len()) =~= name.subrange(
            p,
            p + plain.len(),
        ).drop_first());
        lemma_literal(more, rest, end, name, p + 1);
        assert((plain + rest).drop_first() =~= more + rest);
        assert((plain + rest)[0] == plain[0]);
    }
}

/// A star takes the characters up to where the rest stands.
proof fn lemma_star(rest: Seq<char>, end: bool, name: Seq<char>, p: int, q: int)
    requires
        0 <= p <= q <= name.len(),
        stands_at(rest, end, name, q),
    ensures
        stands_at(seq!['*'] + rest, end, name, p),
    decreases q - p,
{
    let starred = seq!['*'] + rest;
    assert(starred.drop_first() =~= rest);
    assert(starred[0] == '*');
    if p < q {
        lemma_star(rest, end, name, p + 1, q);
    }
}

/// What is written as a rule's pattern means what it says: `||text^` and `||text` are
/// about names and what is below them, `|text|` and `|text` about names from their
/// start, and a mark at the end goes to the end.
pub proof fn law_wildcard_rules(text: Seq<char>, name: Seq<char>)
    requires
        text.contains('*'),
        text[0] != '|' && text[0] != '/',
        text.last() != '|' && text.last() != '^',
        !name.contains('\n'),
    ensures
        means_as(seq!['|', '|'] + text.push('^'), text, true, false, true, name),
        means_as(seq!['|', '|'] + text, text, true, false, false, name),
        means_as(seq!['|'] + text.push('|'), text, false, true, true, name),
        means_as(seq!['|'] + text, text, false, true, false, name),
        means_as(text.push('^'), text, false, false, true, name),
        means_as(text, text, false, false, false, name),
{
    lemma_means_as(seq!['|', '|'] + text.push('^'), text, true, false, true, name);
    lemma_means_as(seq!['|', '|'] + text, text, true, false, false, name);
    lemma_means_as(seq!['|'] + text.push('|'), text, false, true, true, name);
    lemma_means_as(seq!['|'] + text, text, false, true, false, name);
    lemma_means_as(text.push('^'), text, false, false, true, name);
    lemma_means_as(text, text, false, false, false, name);
}

/// Whether a written pattern, where it compiles at all, gives a wildcard that says of a
/// name what `text` means with these anchors.
pub open spec fn means_as(
    written: Seq<char>,
    text: Seq<char>,
    subdomain: bool,
    start: bool,
    end: bool,
    name: Seq<char>,
) -> bool {
    parser::pattern_of(written) matches Ok((pattern, _)) ==> (
    pattern matches PatternView::Wildcard(src) && (says(src, name) <==> matches_name(
        text,
        subdomain,
        start,
        end,
        name,
    )))
}

proof fn lemma_means_as(
    written: Seq<char>,
    text: Seq<char>,
    subdomain: bool,
    start: bool,
    end: bool,
    name: Seq<char>,
)
    requires
        text.contains('*'),
        text[0] != '|' && text[0] != '/',
        text.last() != '|' && text.last() != '^',
        !name.contains('\n'),
        !(subdomain && start),
        ({
            let front = if subdomain {
                seq!['|', '|']
            } else if start {
                seq!['|']
            } else {
                Seq::empty()
            };
            ||| !end && written == front + text
            ||| end && written == front + text.push('^')
            ||| end && written == front + text.push('|')
        }),
    ensures
        means_as(written, text, subdomain, start, end, name),
{
    reveal_strlit("||");
    let front = if subdomain {
        seq!['|', '|']
    } else if start {
        seq!['|']
    } else {
        Seq::empty()
    };
    assert(text.len() > 0);
    let body = if end {
        written.skip(front.len() as int).drop_last()
    } else {
        written.skip(front.len() as int)
    };
    assert(body =~= text);
    assert(written[front.len() as int] == text[0]);
    assert(subdomain ==> written.take(2) =~= "||"@);
    if !subdomain && written.len() >= 2 {
        assert(written.take(2)[0] == written[0]);
        assert(written.take(2)[1] == written[1]);
    }
    let rest = written.skip(front.len() as int);
    assert(rest.last() == if end {
        written.last()
    } else {
        text.last()
    });
    let a = parser::anchors_of(written);
    assert(a.body == text && a.subdomain == subdomain && a.start == start && a.end == end);
    law_wildcard_meaning(text, subdomain, start, end, name);
}

/// A wildcard rule matches a name where its pattern does, given that the compiled regex
/// matches what it says.
pub proof fn law_wildcard_matches(
    pattern: Seq<char>,
    subdomain: bool,
    start: bool,
    end: bool,
    name: Seq<char>,
)
    requires
        !name.contains('\n'),
        ({
            let src = parser::wildcard_source(pattern, subdomain, start, end);
            regexes::regex_matches(src, name) == says(src, name)
        }),
    ensures
        laws::pattern_matches(
            PatternView::Wildcard(parser::wildcard_source(pattern, subdomain, start, end)),
            name,
        ) <==> matches_name(pattern, subdomain, start, end, name),
{
    law_wildcard_meaning(pattern, subdomain, start, end, name);
}

/// Letters are the same but for their case where they are the same in small.
pub proof fn lemma_same_letter(a: char, b: char)
    ensures
        same_letter(a, b) <==> text::lower(a) == text::lower(b),
{
    if 'A' <= a <= 'Z' {
        assert(text::lower(a) as int == a as int + 32);
    }
    if 'A' <= b <= 'Z' {
        assert(text::lower(b) as int == b as int + 32);
    }
}

/// A pattern that matches a name is one under whose tokens it is found.
proof fn lemma_glob(pattern: Seq<char>, i: int, end: bool, name: Seq<char>, p: int)
    requires
        0 <= i <= pattern.len(),
        0 <= p <= name.len(),
    ensures
        stands_at(pattern.skip(i), end, name, p) <==> token::glob_at(pattern, i, name, p, end),
    decreases pattern.len() - i, name.len() - p,
{
    let rest = pattern.skip(i);
    if i < pattern.len() {
        assert(rest[0] == pattern[i]);
        assert(rest.drop_first() =~= pattern.skip(i + 1));
        lemma_glob(pattern, i + 1, end, name, p);
        if p < name.len() {
            lemma_glob(pattern, i + 1, end, name, p + 1);
            if pattern[i] == '*' {
                lemma_glob(pattern, i, end, name, p + 1);
            }
            lemma_same_letter(pattern[i], name[p]);
        }
    }
}

/// A wildcard block is found for every name that its pattern matches, and for no other,
/// given that the compiled regex matches what it says.
pub proof fn law_wildcard_block(
    b: BuildView,
    pattern: Seq<char>,
    subdomain: bool,
    start: bool,
    end: bool,
    name: Seq<char>,
    rtype: Seq<char>,
    client: ClientView,
)
    requires
        b.rule.action == Action::Block,
        b.rule.mods is None,
        b.rule.pattern == PatternView::Wildcard(
            parser::wildcard_source(pattern, subdomain, start, end),
        ),
        forall|t: u32| #[trigger]
            b.index_tokens.contains(t) ==> token::pattern_tokens(text::lowered(pattern)).contains(
                t,
            ),
        !name.contains('\n'),
        ({
            let src = parser::wildcard_source(pattern, subdomain, start, end);
            regexes::regex_matches(src, name) == says(src, name)
        }),
    ensures
        matches_name(pattern, subdomain, start, end, name) ==> engine::deciding(
            seq![b],
            name,
            rtype,
            client,
        ) == Some(0usize),
        !matches_name(pattern, subdomain, start, end, name) ==> engine::deciding(
            seq![b],
            name,
            rtype,
            client,
        ) is None,
{
    let rules = seq![b];
    assert(rules[0] == b);
    law_wildcard_matches(pattern, subdomain, start, end, name);
    laws::law_decider_ranks_highest(rules, name, rtype, client);
    if matches_name(pattern, subdomain, start, end, name) {
        let p = choose|p: int|
            0 <= p <= name.len() && (subdomain ==> p == 0 || name[p - 1] == '.') && (!subdomain
                && start ==> p == 0) && #[trigger] stands_at(pattern, end, name, p);
        lemma_glob(pattern, 0, end, name, p);
        assert(pattern.skip(0) =~= pattern);
        assert(token::glob_matches(pattern, subdomain, start, end, name));
        assert forall|t: u32| #[trigger] b.index_tokens.contains(t) implies token::query_tokens(
            name,
        ).contains(t) by {
            token::law_bounded_tokens(pattern, subdomain, start, end, name, t);
        }
        assert(laws::has_tokens_of(b, name));
        assert(laws::acts(rules[0].rule, name, rtype, client));
    }
}

} // verus!
