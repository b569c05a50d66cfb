//! What the lines of a filter list mean.

use vstd::prelude::*;

use crate::filter::parser;
use crate::filter::parser::{ErrorView, ModsOutcome, ModsState, ParsedView};
use crate::filter::rule;
use crate::filter::rule::{
    Action, ClientFilterView, ClientMatchView, ListsView, ModsView, PatternView,
    RewriteRcode, RewriteView, RuleView,
};
use crate::net;
use crate::net::{IpAddr, Ipv4Addr, Ipv6Addr};
use crate::text;

verus! {

/// A letter, a digit, `-` or `_`.
pub open spec fn is_host_char(c: char) -> bool {
    ||| 'a' <= c <= 'z'
    ||| 'A' <= c <= 'Z'
    ||| '0' <= c <= '9'
    ||| c == '-'
    ||| c == '_'
}

/// Whether `h` is a host name: at most 253 characters; a dot neither at its ends nor
/// beside another; and never 64 characters without one.
#[verifier::opaque]
pub open spec fn is_host(h: Seq<char>) -> bool {
    &&& 1 <= h.len() <= 253
    &&& forall|i: int| 0 <= i < h.len() ==> is_host_char(#[trigger] h[i]) || h[i] == '.'
    &&& h[0] != '.' && h.last() != '.'
    &&& forall|i: int, j: int|
        0 <= i < h.len() && j == i + 1 && j < h.len() && #[trigger] h[i] == '.' ==> #[trigger] h[j]
            != '.'
    &&& forall|i: int, j: int|
        0 <= i && j == i + 63 && j < h.len() ==> has_dot(h, i, j)
}

/// Whether a dot stands between two places, or at one of them.
pub open spec fn has_dot(h: Seq<char>, i: int, j: int) -> bool {
    exists|k: int| i <= k <= j && #[trigger] h[k] == '.'
}

/// Whether `d` is `h` with its capitals made small.
pub open spec fn is_small(d: Seq<char>, h: Seq<char>) -> bool {
    &&& d.len() == h.len()
    &&& forall|i: int|
        0 <= i < h.len() ==> #[trigger] d[i] == if 'A' <= h[i] <= 'Z' {
            (h[i] as u32 + 32) as char
        } else {
            h[i]
        }
}

/// Whether nothing in `s` has a meaning of its own in a line: white space and the
/// characters of comments, cosmetic rules and modifier lists.
pub open spec fn is_plain(s: Seq<char>) -> bool {
    forall|i: int|
        0 <= i < s.len() ==> ' ' < #[trigger] s[i] <= '~' && s[i] != '#' && s[i] != '$' && s[i]
            != ','
}

/// Whether `s` is a plain text, but for commas.
pub open spec fn is_listing(s: Seq<char>) -> bool {
    forall|i: int| 0 <= i < s.len() ==> ' ' < #[trigger] s[i] <= '~' && s[i] != '#' && s[i] != '$'
}

/// Whether a line gives just this rule.
#[verifier::opaque]
pub open spec fn gives(
    line: Seq<char>,
    action: Action,
    pattern: PatternView,
    mods: Option<ModsView>,
    badfilter: bool,
) -> bool {
    parser::parsed(line) matches Ok(ParsedView::Rules(rules)) && rules.len() == 1 && rules[0].rule
        == (RuleView { raw: line, action, pattern, mods, list_id: 0 }) && rules[0].badfilter
        == badfilter
}

/// Small letters of a host name are the host name in small letters.
pub proof fn lemma_small(h: Seq<char>)
    ensures
        is_small(text::lowered(h), h),
        forall|d: Seq<char>| is_small(d, h) ==> d == text::lowered(h),
{
    let l = text::lowered(h);
    assert forall|i: int| 0 <= i < h.len() implies #[trigger] l[i] == text::lower(h[i]) by {
    }
    assert forall|d: Seq<char>| is_small(d, h) implies d == l by {
        assert(d =~= l);
    }
}

/// The labels of a host name are in order.
proof fn lemma_labels(h: Seq<char>, d: Seq<char>, i: int)
    requires
        is_host(h),
        is_small(d, h),
        0 <= i < h.len(),
        i == 0 || h[i - 1] == '.',
    ensures
        forall|k: int|
            0 <= k < text::split_from(d, '.', i).len() ==> parser::is_label(
                #[trigger] text::split_from(d, '.', i)[k],
            ),
    decreases h.len() - i,
{
    reveal(is_host);
    text::lemma_find(d, '.', i);
    let e = text::find_from(d, '.', i);
    assert(d[i] != '.') by {
        assert(h[i] != '.') by {
            if i > 0 {
                assert(h[i - 1] == '.');
            }
        }
    }
    assert(e > i);
    if e - i > 63 {
        assert(has_dot(h, i, i + 63));
        let k = choose|k: int| i <= k <= i + 63 && #[trigger] h[k] == '.';
        assert(d[k] == '.');
    }
    let first = d.subrange(i, e);
    assert forall|j: int| 0 <= j < first.len() implies parser::is_label_char(#[trigger] first[j]) by {
        assert(first[j] == d[i + j]);
        assert(h[i + j] == '.' ==> d[i + j] == '.');
        assert(is_host_char(h[i + j]));
        let c = h[i + j];
        if 'A' <= c <= 'Z' {
            assert('a' <= (c as u32 + 32) as char <= 'z');
        }
    }
    if e < d.len() {
        assert(h[e] == '.') by {
            assert(is_host_char(h[e]) || h[e] == '.');
        }
        assert(e + 1 < h.len()) by {
            assert(h.last() == h[h.len() - 1]);
        }
        lemma_labels(h, d, e + 1);
        let rest = text::split_from(d, '.', e + 1);
        assert(text::split_from(d, '.', i) == seq![first] + rest);
    } else {
        assert(text::split_from(d, '.', i) == seq![d.subrange(i, d.len() as int)]);
    }
}

/// A host name in normal form, and what it is not.
pub proof fn lemma_host(h: Seq<char>, d: Seq<char>)
    requires
        is_host(h),
        is_small(d, h),
    ensures
        parser::norm(h) == d,
        parser::dns_hostname(d),
        is_plain(h),
        !h.contains('*') && !h.contains('^') && !h.contains('/') && !h.contains('@'),
        text::trim(h) == h,
{
    reveal(is_host);
    lemma_small(h);
    assert forall|i: int| 0 <= i < h.len() implies ' ' < #[trigger] h[i] <= '~' && h[i] != '#'
        && h[i] != '$' && h[i] != ',' && h[i] != '*' && h[i] != '^' && h[i] != '/' && h[i] != '@' by {
        assert(is_host_char(h[i]) || h[i] == '.');
    }
    assert(text::trim_start(h) == h);
    assert(text::trim_end(h) == h);
    assert(text::strip_end(h, '.') == h);
    lemma_labels(h, d, 0);
}

/// A plain text is one word.
pub proof fn lemma_one_word(s: Seq<char>)
    requires
        s.len() > 0,
        forall|i: int| 0 <= i < s.len() ==> !text::is_white(#[trigger] s[i]),
    ensures
        text::words(s) == seq![s],
        text::trim(s) == s,
{
    assert(text::find_white_from(s, false, 0) == 0);
    lemma_no_white(s, 0);
    assert(text::words_from(s, s.len() as int) =~= Seq::empty());
    assert(s.subrange(0, s.len() as int) =~= s);
    assert(text::words(s) =~= seq![s]);
}

proof fn lemma_no_white(s: Seq<char>, i: int)
    requires
        0 <= i <= s.len(),
        forall|j: int| i <= j < s.len() ==> !text::is_white(#[trigger] s[j]),
    ensures
        text::find_white_from(s, true, i) == s.len(),
    decreases s.len() - i,
{
    if i < s.len() {
        lemma_no_white(s, i + 1);
    }
}

/// A line without white space and without anything cosmetic is an AdBlock-style one.
pub proof fn lemma_adblock(line: Seq<char>)
    requires
        line.len() > 0,
        line[0] != '!' && line[0] != '[',
        forall|i: int| 0 <= i < line.len() ==> ' ' < #[trigger] line[i] <= '~' && line[i] != '#',
        forall|i: int, j: int|
            0 <= i < j < line.len() && #[trigger] line[i] == '$' ==> #[trigger] line[j] != '$',
    ensures
        parser::parsed(line) == parser::adblock_of(line),
{
    lemma_one_word(line);
    let words = text::words(line);
    assert(words.drop_first() =~= Seq::empty());
    assert(parser::hosts_of(line) is None);
    assert(!parser::cosmetic(line)) by {
        if parser::cosmetic(line) {
            let i = choose|i: int| 0 <= i < line.len() && #[trigger] parser::marker_at(line, i);
            assert(line[i] != '#');
        }
    }
}

/// The pattern of a host name with these anchors.
pub proof fn lemma_host_pattern(front: Seq<char>, h: Seq<char>, d: Seq<char>, back: Seq<char>)
    requires
        is_host(h),
        is_small(d, h),
        net::ip_of_text(h) is None,
        front == seq!['|', '|'] || front == seq!['|'] || front.len() == 0,
        back == seq!['^'] || back == seq!['|'] || back.len() == 0,
    ensures
        parser::pattern_of(front + h + back) == Ok::<(PatternView, Seq<u32>), ErrorView>(
            (
                if front.len() == 1 {
                    PatternView::Exact(d)
                } else {
                    PatternView::Subdomain(d)
                },
                Seq::empty(),
            ),
        ),
{
    reveal(is_host);
    lemma_host(h, d);
    reveal_strlit("||");
    let p = front + h + back;
    assert(is_host_char(h[0]));
    assert(is_host_char(h.last())) by {
        assert(h.last() == h[h.len() - 1]);
    }
    let bars = "||"@;
    assert(bars =~= seq!['|', '|']);
    if front.len() == 2 {
        assert(p.take(2) =~= bars);
    } else if front.len() == 1 {
        assert(p.take(2)[1] == h[0]);
    } else if p.len() >= 2 {
        assert(p.take(2)[0] == h[0]);
    }
    assert(text::has_prefix(p, bars) == (front.len() == 2));
    let a = parser::anchors_of(p);
    let s = h + back;
    assert(p.skip(front.len() as int) =~= s);
    assert(front.len() == 0 ==> p =~= s);
    if back.len() == 1 {
        assert(s.last() == back[0]);
        assert(s.drop_last() =~= h);
    } else {
        assert(s =~= h);
    }
    assert(text::strip_end(h, '^') == h);
    assert(a.body == h);
    assert(a.start == (front.len() == 1));
}

/// A host name as a line of its own blocks the name and what is below it, as `||h^` and
/// `||h` do. `|h^`, `|h|` and `|h` block just the name, and `@@` makes any of these an
/// exception.
pub proof fn law_host_lines(h: Seq<char>, d: Seq<char>)
    requires
        is_host(h),
        is_small(d, h),
        net::ip_of_text(h) is None,
    ensures
        gives(h, Action::Block, PatternView::Subdomain(d), None, false),
        gives(seq!['|', '|'] + h, Action::Block, PatternView::Subdomain(d), None, false),
        gives(seq!['|', '|'] + h.push('^'), Action::Block, PatternView::Subdomain(d), None, false),
        gives(seq!['|'] + h, Action::Block, PatternView::Exact(d), None, false),
        gives(seq!['|'] + h.push('^'), Action::Block, PatternView::Exact(d), None, false),
        gives(seq!['|'] + h.push('|'), Action::Block, PatternView::Exact(d), None, false),
        gives(
            seq!['@', '@', '|', '|'] + h.push('^'),
            Action::Allow,
            PatternView::Subdomain(d),
            None,
            false,
        ),
        gives(
            seq!['@', '@', '|'] + h.push('^'),
            Action::Allow,
            PatternView::Exact(d),
            None,
            false,
        ),
        gives(seq!['@', '@'] + h, Action::Allow, PatternView::Subdomain(d), None, false),
{
    let none = Seq::<char>::empty();
    let bars = seq!['|', '|'];
    let bar = seq!['|'];
    let hat = seq!['^'];
    lemma_line(false, none, h, d, none);
    lemma_line(false, bars, h, d, none);
    lemma_line(false, bars, h, d, hat);
    lemma_line(false, bar, h, d, none);
    lemma_line(false, bar, h, d, hat);
    lemma_line(false, bar, h, d, bar);
    lemma_line(true, bars, h, d, hat);
    lemma_line(true, bar, h, d, hat);
    lemma_line(true, none, h, d, none);
    assert(none + h + none =~= h);
    assert(bars + h + none =~= bars + h);
    assert(bars + h + hat =~= bars + h.push('^'));
    assert(bar + h + none =~= bar + h);
    assert(bar + h + hat =~= bar + h.push('^'));
    assert(bar + h + bar =~= bar + h.push('|'));
    let at = seq!['@', '@'];
    assert(at + (bars + h + hat) =~= seq!['@', '@', '|', '|'] + h.push('^'));
    assert(at + (bar + h + hat) =~= seq!['@', '@', '|'] + h.push('^'));
    assert(at + (none + h + none) =~= at + h);
}

/// A rule body: the pattern, and the modifier where there is one.
spec fn body_of(p: Seq<char>, m: Option<Seq<char>>) -> Seq<char> {
    match m {
        Some(m) => p.push('$') + m,
        None => p,
    }
}

/// A line: the body, behind `@@` in an exception.
spec fn line_of(allow: bool, body: Seq<char>) -> Seq<char> {
    if allow {
        seq!['@', '@'] + body
    } else {
        body
    }
}

/// A rule before its modifiers are read.
spec fn first_state(allow: bool) -> ModsState {
    ModsState {
        action: if allow {
            Action::Allow
        } else {
            Action::Block
        },
        badfilter: false,
        mods: rule::no_mods(),
    }
}

/// What the modifiers, where there are any, make of the rule.
#[verifier::opaque]
spec fn modified(allow: bool, m: Option<Seq<char>>) -> ModsOutcome {
    parser::apply_modifiers(first_state(allow), parser::modifier_list(m))
}

/// A body comes apart again at the first `$`.
proof fn lemma_body(p: Seq<char>, m: Option<Seq<char>>)
    requires
        p.len() > 0 && p[0] != '/',
        !p.contains('$'),
    ensures
        parser::modifiers_of(body_of(p, m)) == (p, m),
{
    let b = body_of(p, m);
    text::lemma_find_is(b, '$', 0, p.len() as int);
    assert(b.take(p.len() as int) =~= p);
    if let Some(x) = m {
        assert(b.skip(p.len() as int + 1) =~= x);
    }
}

/// One modifier is a list of one.
proof fn lemma_one_modifier(m: Seq<char>)
    requires
        m.len() > 0,
        is_plain(m),
    ensures
        parser::modifier_list(Some(m)) == seq![m],
{
    assert(!m.contains(','));
    text::lemma_split_whole(m, ',');
    assert forall|i: int| 0 <= i < m.len() implies !text::is_white(#[trigger] m[i]) by {
        assert(' ' < m[i] <= '~');
    }
    lemma_one_word(m);
    let parts = text::split(m, ',').map_values(|t: Seq<char>| text::trim(t));
    assert(parts =~= seq![m]);
    assert(parts.filter(|t: Seq<char>| t.len() > 0) =~= seq![m]) by {
        reveal(Seq::filter);
        assert(parts.drop_last() =~= Seq::empty());
        assert(parts.drop_last().filter(|t: Seq<char>| t.len() > 0) =~= Seq::empty());
    }
}

/// The outcome of a list of at most one modifier.
proof fn lemma_apply_one(st: ModsState, m: Option<Seq<char>>)
    requires
        m matches Some(x) ==> x.len() > 0 && is_plain(x),
    ensures
        parser::apply_modifiers(st, parser::modifier_list(m)) == match m {
            Some(x) => parser::apply_modifier(st, x),
            None => ModsOutcome::Read(st),
        },
{
    if let Some(x) = m {
        lemma_one_modifier(x);
        let list = seq![x];
        assert(list.drop_last() =~= Seq::empty());
        assert(list.last() == x);
        assert(parser::apply_modifiers(st, list.drop_last()) == ModsOutcome::Read(st));
    }
}

/// What an AdBlock-style line with a known pattern gives.
proof fn lemma_adblock_line(
    allow: bool,
    p: Seq<char>,
    view: PatternView,
    tokens: Seq<u32>,
    m: Option<Seq<char>>,
)
    requires
        p.len() > 0 && p[0] != '/' && p[0] != '@' && p[0] != '!' && p[0] != '[',
        is_plain(p),
        m matches Some(x) ==> is_listing(x),
        parser::pattern_of(p) == Ok::<(PatternView, Seq<u32>), ErrorView>((view, tokens)),
        modified(allow, m) is Read,
    ensures
        ({
            let st = modified(allow, m)->Read_0;
            gives(
                line_of(allow, body_of(p, m)),
                st.action,
                view,
                if st.mods == rule::no_mods() {
                    None
                } else {
                    Some(st.mods)
                },
                st.badfilter,
            )
        }),
{
    let body = body_of(p, m);
    let line = line_of(allow, body);
    let n = if allow {
        2int
    } else {
        0int
    };
    assert forall|i: int| 0 <= i < line.len() implies ' ' < #[trigger] line[i] <= '~' && line[i]
        != '#' && (line[i] == '$' ==> i == n + p.len()) by {
        if n <= i < n + p.len() {
            assert(line[i] == p[i - n]);
        } else if i > n + p.len() {
            assert(line[i] == (m->0)[i - n - p.len() - 1]);
        }
    }
    lemma_adblock(line);
    reveal_strlit("@@");
    let at = "@@"@;
    assert(at =~= seq!['@', '@']);
    if allow {
        assert(line.take(2) =~= at);
        assert(line.skip(2) =~= body);
    } else {
        if line.len() >= 2 {
            assert(line.take(2)[0] == p[0]);
        }
    }
    assert(text::has_prefix(line, at) == allow);
    assert(!p.contains('$'));
    lemma_body(p, m);
    assert forall|i: int| 0 <= i < p.len() implies !text::is_white(#[trigger] p[i]) by {
        assert(' ' < p[i] <= '~');
    }
    lemma_one_word(p);
    reveal(modified);
    reveal(gives);
}

/// A line with a host name, without modifiers.
proof fn lemma_line(allow: bool, front: Seq<char>, h: Seq<char>, d: Seq<char>, back: Seq<char>)
    requires
        is_host(h),
        is_small(d, h),
        net::ip_of_text(h) is None,
        front == seq!['|', '|'] || front == seq!['|'] || front.len() == 0,
        back == seq!['^'] || back == seq!['|'] || back.len() == 0,
    ensures
        gives(
            line_of(allow, front + h + back),
            if allow {
                Action::Allow
            } else {
                Action::Block
            },
            if front.len() == 1 {
                PatternView::Exact(d)
            } else {
                PatternView::Subdomain(d)
            },
            None,
            false,
        ),
{
    let p = front + h + back;
    lemma_host_pattern(front, h, d, back);
    lemma_front(front, h, d, back);
    reveal(modified);
    let view = if front.len() == 1 {
        PatternView::Exact(d)
    } else {
        PatternView::Subdomain(d)
    };
    lemma_apply_one(first_state(allow), None);
    lemma_adblock_line(allow, p, view, Seq::empty(), None);
}

/// A host name with anchors is a plain text.
pub proof fn lemma_front(front: Seq<char>, h: Seq<char>, d: Seq<char>, back: Seq<char>)
    requires
        is_host(h),
        is_small(d, h),
        front == seq!['|', '|'] || front == seq!['|'] || front.len() == 0,
        back == seq!['^'] || back == seq!['|'] || back.len() == 0,
    ensures
        ({
            let p = front + h + back;
            p.len() > 0 && is_plain(p) && p[0] != '/' && p[0] != '@' && p[0] != '!' && p[0] != '['
        }),
{
    reveal(is_host);
    lemma_host(h, d);
    let p = front + h + back;
    assert(is_host_char(h[0]));
    assert(p[0] == '|' || p[0] == h[0]);
    assert forall|i: int| 0 <= i < p.len() implies ' ' < #[trigger] p[i] <= '~' && p[i] != '#'
        && p[i] != '$' && p[i] != ',' by {
        if front.len() <= i < front.len() + h.len() {
            assert(p[i] == h[i - front.len()]);
        }
    }
}

/// Whether `v` can be an entry of a modifier's value: a plain text without `|` and `=`,
/// and without a `~` in front.
pub open spec fn is_entry(v: Seq<char>) -> bool {
    v.len() > 0 && is_plain(v) && !v.contains('|') && !v.contains('=') && v[0] != '~'
}

/// The modifier `key=value`.
pub open spec fn setting(key: Seq<char>, value: Seq<char>) -> Seq<char> {
    key.push('=') + value
}

/// A modifier comes apart at its first `=`.
proof fn lemma_setting(key: Seq<char>, value: Seq<char>)
    requires
        !key.contains('='),
    ensures
        parser::modifier_key(setting(key, value)) == key,
        parser::modifier_value(setting(key, value)) == value,
        parser::modifier_key(key) == key,
        parser::modifier_value(key) == Seq::<char>::empty(),
{
    let s = setting(key, value);
    text::lemma_find_is(s, '=', 0, key.len() as int);
    text::lemma_find_is(key, '=', 0, key.len() as int);
    assert(s.take(key.len() as int) =~= key);
    assert(s.skip(key.len() as int + 1) =~= value);
    assert(key.take(key.len() as int) =~= key);
}

/// The keys are all different.
proof fn lemma_keys()
    ensures
        forall|a: int, b: int| 0 <= a < b < 7 ==> #[trigger] keys()[a] != #[trigger] keys()[b],
        forall|a: int| 0 <= a < 7 ==> is_plain(#[trigger] keys()[a]) && !keys()[a].contains('=')
            && keys()[a].len() > 0,
{
    reveal_strlit("important");
    reveal_strlit("badfilter");
    reveal_strlit("dnstype");
    reveal_strlit("client");
    reveal_strlit("ctag");
    reveal_strlit("denyallow");
    reveal_strlit("dnsrewrite");
    assert(keys()[0][0] == 'i');
    assert(keys()[1][0] == 'b');
    assert(keys()[2].len() == 7);
    assert(keys()[3].len() == 6);
    assert(keys()[4].len() == 4);
    assert(keys()[5][0] == 'd' && keys()[5].len() == 9);
    assert(keys()[6].len() == 10);
}

/// The keys of the modifiers.
spec fn keys() -> Seq<Seq<char>> {
    seq![
        "important"@,
        "badfilter"@,
        "dnstype"@,
        "client"@,
        "ctag"@,
        "denyallow"@,
        "dnsrewrite"@,
    ]
}

/// The one entry of a value with one entry.
proof fn lemma_one_entry(v: Seq<char>)
    requires
        v.len() > 0,
        !v.contains('|'),
    ensures
        parser::entries(v) == seq![v],
{
    text::lemma_split_whole(v, '|');
    let parts = seq![v];
    let keep = |t: Seq<char>| t.len() > 0;
    reveal(Seq::filter);
    assert(parts.drop_last() =~= Seq::empty());
    assert(parts.drop_last().filter(keep) =~= Seq::empty());
    assert(parts.filter(keep) =~= seq![v]);
}

/// The entries on either side of a `|`.
proof fn lemma_more_entries(v: Seq<char>, w: Seq<char>)
    ensures
        parser::entries(v.push('|') + w) == parser::entries(v) + parser::entries(w),
{
    text::lemma_split_join(v, w, '|');
    Seq::filter_distributes_over_add(
        text::split(v, '|'),
        text::split(w, '|'),
        |t: Seq<char>| t.len() > 0,
    );
}

/// What is taken in and what is left out, of one entry.
proof fn lemma_sides(v: Seq<char>)
    requires
        v.len() > 0,
    ensures
        parser::in_and_out(seq![v]).included == if v[0] == '~' {
            Seq::empty()
        } else {
            seq![v]
        },
        parser::in_and_out(seq![v]).excluded == if v[0] == '~' {
            seq![v.drop_first()]
        } else {
            Seq::empty()
        },
{
    let list = seq![v];
    let inn = |t: Seq<char>| !parser::is_negated(t);
    let out = |t: Seq<char>| parser::is_negated(t);
    reveal(Seq::filter);
    assert(list.drop_last() =~= Seq::empty());
    assert(list.drop_last().filter(inn) =~= Seq::empty());
    assert(list.drop_last().filter(out) =~= Seq::empty());
    if v[0] == '~' {
        assert(list.filter(inn) =~= Seq::empty());
        assert(list.filter(out) =~= seq![v]);
        assert(seq![v].map_values(|t: Seq<char>| t.drop_first()) =~= seq![v.drop_first()]);
    } else {
        assert(list.filter(inn) =~= seq![v]);
        assert(list.filter(out) =~= Seq::empty());
        assert(Seq::<Seq<char>>::empty().map_values(|t: Seq<char>| t.drop_first())
            =~= Seq::empty());
    }
}

/// An entry with a `~` or without: how it is read.
proof fn lemma_entry(v: Seq<char>)
    requires
        is_entry(v),
    ensures
        ({
            let w = seq!['~'] + v;
            &&& is_plain(w) && parser::entries(w) == seq![w] && w.drop_first() == v
            &&& parser::entries(v) == seq![v]
            &&& parser::in_and_out(seq![v]) == (ListsView {
                included: seq![v],
                excluded: Seq::empty(),
            })
            &&& parser::in_and_out(seq![w]) == (ListsView {
                included: Seq::empty(),
                excluded: seq![v],
            })
        }),
{
    let w = seq!['~'] + v;
    assert(w.drop_first() =~= v);
    assert(!w.contains('|')) by {
        if w.contains('|') {
            let i = choose|i: int| 0 <= i < w.len() && w[i] == '|';
            assert(v[i - 1] == '|');
        }
    }
    assert forall|i: int| 0 <= i < w.len() implies ' ' < #[trigger] w[i] <= '~' && w[i] != '#'
        && w[i] != '$' && w[i] != ',' by {
        if i > 0 {
            assert(w[i] == v[i - 1]);
        }
    }
    lemma_one_entry(v);
    lemma_one_entry(w);
    lemma_sides(v);
    lemma_sides(w);
}

/// The value of a setting, read under its key.
proof fn lemma_modified(k: int, value: Seq<char>)
    requires
        2 <= k < 7,
        is_plain(value),
    ensures
        ({
            let m = setting(keys()[k], value);
            let none = rule::no_mods();
            let st = |mods: ModsView| ModsState { action: Action::Block, badfilter: false, mods };
            &&& is_plain(m) && m.len() > 0
            &&& k == 2 ==> modified(false, Some(m)) == match parser::dnstype_of(value) {
                Ok(f) => ModsOutcome::Read(st(ModsView { dnstype: Some(f), ..none })),
                Err(e) => ModsOutcome::Failed(e),
            }
            &&& k == 3 ==> modified(false, Some(m)) == match parser::client_filter_of(value) {
                Ok(f) => ModsOutcome::Read(st(ModsView { client: Some(f), ..none })),
                Err(e) => ModsOutcome::Failed(e),
            }
            &&& k == 4 ==> modified(false, Some(m)) == match parser::ctag_of(value) {
                Ok(f) => ModsOutcome::Read(st(ModsView { ctag: Some(f), ..none })),
                Err(e) => ModsOutcome::Failed(e),
            }
            &&& k == 5 ==> modified(false, Some(m)) == match parser::denyallow_of(value) {
                Ok(f) => ModsOutcome::Read(st(ModsView { denyallow: f, ..none })),
                Err(e) => ModsOutcome::Failed(e),
            }
            &&& k == 6 ==> modified(false, Some(m)) == match parser::rewrite_of(value) {
                Ok(f) => ModsOutcome::Read(
                    ModsState {
                        action: Action::Rewrite,
                        badfilter: false,
                        mods: ModsView { rewrite: Some(f), ..none },
                    },
                ),
                Err(e) => ModsOutcome::Failed(e),
            }
        }),
{
    reveal(modified);
    lemma_keys();
    lemma_setting(keys()[k], value);
    lemma_plain_setting(keys()[k], value);
    lemma_apply_one(first_state(false), Some(setting(keys()[k], value)));
    assert(keys()[0] == "important"@);
    assert(keys()[1] == "badfilter"@);
    assert(keys()[2] == "dnstype"@);
    assert(keys()[3] == "client"@);
    assert(keys()[4] == "ctag"@);
    assert(keys()[5] == "denyallow"@);
    assert(keys()[6] == "dnsrewrite"@);
}

/// What `||h^` with one modifier gives.
#[verifier::opaque]
pub open spec fn host_gives(
    h: Seq<char>,
    d: Seq<char>,
    modifier: Seq<char>,
    action: Action,
    mods: Option<ModsView>,
    badfilter: bool,
) -> bool {
    gives(
        seq!['|', '|'] + h + seq!['^', '$'] + modifier,
        action,
        PatternView::Subdomain(d),
        mods,
        badfilter,
    )
}

/// The line of `||h^` with a modifier that can be read.
proof fn lemma_host_modifier(h: Seq<char>, d: Seq<char>, m: Seq<char>)
    requires
        is_host(h),
        is_small(d, h),
        net::ip_of_text(h) is None,
        is_listing(m),
        modified(false, Some(m)) is Read,
    ensures
        ({
            let st = modified(false, Some(m))->Read_0;
            host_gives(
                h,
                d,
                m,
                st.action,
                if st.mods == rule::no_mods() {
                    None
                } else {
                    Some(st.mods)
                },
                st.badfilter,
            )
        }),
{
    let bars = seq!['|', '|'];
    let hat = seq!['^'];
    lemma_host_pattern(bars, h, d, hat);
    lemma_front(bars, h, d, hat);
    let p = bars + h + hat;
    lemma_adblock_line(false, p, PatternView::Subdomain(d), Seq::empty(), Some(m));
    assert(line_of(false, body_of(p, Some(m))) =~= bars + h + seq!['^', '$'] + m);
    reveal(host_gives);
}

/// `$important` and `$badfilter` mark a rule as such, and change nothing else of it.
pub proof fn law_mark_modifiers(h: Seq<char>, d: Seq<char>)
    requires
        is_host(h),
        is_small(d, h),
        net::ip_of_text(h) is None,
    ensures
        host_gives(
            h,
            d,
            "important"@,
            Action::Block,
            Some(
                ModsView {
                    important: true,
                    dnstype: None,
                    client: None,
                    ctag: None,
                    denyallow: Seq::empty(),
                    rewrite: None,
                },
            ),
            false,
        ),
        host_gives(h, d, "badfilter"@, Action::Block, None, true),
{
    reveal(modified);
    lemma_keys();
    assert(keys()[0] == "important"@ && keys()[1] == "badfilter"@);
    lemma_setting("important"@, Seq::empty());
    lemma_setting("badfilter"@, Seq::empty());
    lemma_apply_one(first_state(false), Some("important"@));
    lemma_apply_one(first_state(false), Some("badfilter"@));
    lemma_host_modifier(h, d, "important"@);
    lemma_host_modifier(h, d, "badfilter"@);
}

/// A setting of plain texts is a plain text.
proof fn lemma_plain_setting(key: Seq<char>, value: Seq<char>)
    requires
        is_plain(key),
        is_plain(value),
    ensures
        is_plain(setting(key, value)),
        setting(key, value).len() > 0,
{
    let s = setting(key, value);
    assert forall|i: int| 0 <= i < s.len() implies ' ' < #[trigger] s[i] <= '~' && s[i] != '#'
        && s[i] != '$' && s[i] != ',' by {
        if i < key.len() {
            assert(s[i] == key[i]);
        } else if i > key.len() {
            assert(s[i] == value[i - key.len() - 1]);
        }
    }
}

/// The line with the dnstype modifier of a value that reads as `f`.
proof fn lemma_types(h: Seq<char>, d: Seq<char>, value: Seq<char>, f: ListsView)
    requires
        is_host(h),
        is_small(d, h),
        net::ip_of_text(h) is None,
        is_plain(value),
        parser::dnstype_of(value) == Ok::<ListsView, ErrorView>(f),
    ensures
        host_gives(
            h,
            d,
            setting("dnstype"@, value),
            Action::Block,
            Some(ModsView { dnstype: Some(f), ..rule::no_mods() }),
            false,
        ),
{
    lemma_modified(2, value);
    assert(keys()[2] == "dnstype"@);
    lemma_host_modifier(h, d, setting("dnstype"@, value));
}

/// The line with the client modifier of a value that reads as `f`.
proof fn lemma_clients(h: Seq<char>, d: Seq<char>, value: Seq<char>, f: ClientFilterView)
    requires
        is_host(h),
        is_small(d, h),
        net::ip_of_text(h) is None,
        is_plain(value),
        parser::client_filter_of(value) == Ok::<ClientFilterView, ErrorView>(f),
    ensures
        host_gives(
            h,
            d,
            setting("client"@, value),
            Action::Block,
            Some(ModsView { client: Some(f), ..rule::no_mods() }),
            false,
        ),
{
    lemma_modified(3, value);
    assert(keys()[3] == "client"@);
    lemma_host_modifier(h, d, setting("client"@, value));
}

/// The line with the ctag modifier of a value that reads as `f`.
proof fn lemma_tags(h: Seq<char>, d: Seq<char>, value: Seq<char>, f: ListsView)
    requires
        is_host(h),
        is_small(d, h),
        net::ip_of_text(h) is None,
        is_plain(value),
        parser::ctag_of(value) == Ok::<ListsView, ErrorView>(f),
    ensures
        host_gives(
            h,
            d,
            setting("ctag"@, value),
            Action::Block,
            Some(ModsView { ctag: Some(f), ..rule::no_mods() }),
            false,
        ),
{
    lemma_modified(4, value);
    assert(keys()[4] == "ctag"@);
    lemma_host_modifier(h, d, setting("ctag"@, value));
}

/// The line with the dnsrewrite modifier of a value that reads as `f`.
proof fn lemma_rewrite(h: Seq<char>, d: Seq<char>, value: Seq<char>, f: RewriteView)
    requires
        is_host(h),
        is_small(d, h),
        net::ip_of_text(h) is None,
        is_plain(value),
        parser::rewrite_of(value) == Ok::<RewriteView, ErrorView>(f),
    ensures
        host_gives(
            h,
            d,
            setting("dnsrewrite"@, value),
            Action::Rewrite,
            Some(ModsView { rewrite: Some(f), ..rule::no_mods() }),
            false,
        ),
{
    lemma_modified(6, value);
    assert(keys()[6] == "dnsrewrite"@);
    lemma_host_modifier(h, d, setting("dnsrewrite"@, value));
}

/// How a record type is read, with a `~` and without.
proof fn lemma_type_value(v: Seq<char>)
    requires
        is_entry(v),
        text::uppered(v) == v,
    ensures
        is_plain(seq!['~'] + v),
        parser::dnstype_of(v) == Ok::<ListsView, ErrorView>(
            ListsView { included: seq![v], excluded: Seq::empty() },
        ),
        parser::dnstype_of(seq!['~'] + v) == Ok::<ListsView, ErrorView>(
            ListsView { included: Seq::empty(), excluded: seq![v] },
        ),
{
    lemma_entry(v);
    lemma_uppered_one(v);
}

proof fn lemma_uppered_one(v: Seq<char>)
    requires
        text::uppered(v) == v,
    ensures
        seq![v].map_values(|t: Seq<char>| text::uppered(t)) == seq![v],
        Seq::<Seq<char>>::empty().map_values(|t: Seq<char>| text::uppered(t)) == Seq::<
            Seq<char>,
        >::empty(),
{
    let up = seq![v].map_values(|t: Seq<char>| text::uppered(t));
    assert(up.len() == 1 && up[0] == v);
    assert(up =~= seq![v]);
    assert(Seq::<Seq<char>>::empty().map_values(|t: Seq<char>| text::uppered(t)) =~= Seq::empty());
}

/// How a client is read, with a `~` and without.
proof fn lemma_client_value(t: Seq<char>, m: ClientMatchView)
    requires
        is_entry(t),
        parser::client_of_text(t) == m,
    ensures
        is_plain(seq!['~'] + t),
        parser::client_filter_of(t) == Ok::<ClientFilterView, ErrorView>(
            ClientFilterView { included: seq![m], excluded: Seq::empty() },
        ),
        parser::client_filter_of(seq!['~'] + t) == Ok::<ClientFilterView, ErrorView>(
            ClientFilterView { included: Seq::empty(), excluded: seq![m] },
        ),
{
    lemma_entry(t);
    let read = |t: Seq<char>| parser::client_of_text(t);
    assert(seq![t].map_values(read) =~= seq![m]);
    assert(Seq::<Seq<char>>::empty().map_values(read) =~= Seq::empty());
}

/// `$dnstype=v` narrows a rule to the record type `v`, in capitals, and `$dnstype=~v` to
/// all others.
pub proof fn law_type_modifier(h: Seq<char>, d: Seq<char>, v: Seq<char>)
    requires
        is_host(h),
        is_small(d, h),
        net::ip_of_text(h) is None,
        is_entry(v),
        forall|i: int| 0 <= i < v.len() ==> 'A' <= #[trigger] v[i] <= 'Z',
    ensures
        host_gives(
            h,
            d,
            setting("dnstype"@, v),
            Action::Block,
            Some(
                ModsView {
                    important: false,
                    dnstype: Some(ListsView { included: seq![v], excluded: Seq::empty() }),
                    client: None,
                    ctag: None,
                    denyallow: Seq::empty(),
                    rewrite: None,
                },
            ),
            false,
        ),
        host_gives(
            h,
            d,
            setting("dnstype"@, seq!['~'] + v),
            Action::Block,
            Some(
                ModsView {
                    important: false,
                    dnstype: Some(ListsView { included: Seq::empty(), excluded: seq![v] }),
                    client: None,
                    ctag: None,
                    denyallow: Seq::empty(),
                    rewrite: None,
                },
            ),
            false,
        ),
{
    assert(text::uppered(v) =~= v);
    lemma_type_value(v);
    let w = seq!['~'] + v;
    lemma_types(h, d, v, ListsView { included: seq![v], excluded: Seq::empty() });
    lemma_types(h, d, w, ListsView { included: Seq::empty(), excluded: seq![v] });
}

/// The client that an entry of `$client` stands for.
pub open spec fn is_client(v: Seq<char>, m: ClientMatchView) -> bool {
    match m {
        ClientMatchView::Net(n) => net::net_of_text(v) matches Some((addr, len)) && n.addr == addr
            && n.prefix_len == len,
        ClientMatchView::Ip(ip) => net::net_of_text(v) is None && net::ip_of_text(v) == Some(ip),
        ClientMatchView::Name(n) => net::net_of_text(v) is None && net::ip_of_text(v) is None && n
            == v,
    }
}

/// `$client=v` narrows a rule to the network, the address or the client name `v`, and
/// `$client=~v` to all other clients. Quotes around it do not count.
pub proof fn law_client_modifier(h: Seq<char>, d: Seq<char>, v: Seq<char>, m: ClientMatchView)
    requires
        is_host(h),
        is_small(d, h),
        net::ip_of_text(h) is None,
        is_entry(v),
        v[0] != '"' && v[0] != '\'' && v.last() != '"' && v.last() != '\'',
        is_client(v, m),
    ensures
        host_gives(
            h,
            d,
            setting("client"@, v),
            Action::Block,
            Some(
                ModsView {
                    important: false,
                    dnstype: None,
                    client: Some(ClientFilterView { included: seq![m], excluded: Seq::empty() }),
                    ctag: None,
                    denyallow: Seq::empty(),
                    rewrite: None,
                },
            ),
            false,
        ),
        host_gives(
            h,
            d,
            setting("client"@, seq!['~'] + v),
            Action::Block,
            Some(
                ModsView {
                    important: false,
                    dnstype: None,
                    client: Some(ClientFilterView { included: Seq::empty(), excluded: seq![m] }),
                    ctag: None,
                    denyallow: Seq::empty(),
                    rewrite: None,
                },
            ),
            false,
        ),
        host_gives(
            h,
            d,
            setting("client"@, seq!['\''] + v.push('\'')),
            Action::Block,
            Some(
                ModsView {
                    important: false,
                    dnstype: None,
                    client: Some(ClientFilterView { included: seq![m], excluded: Seq::empty() }),
                    ctag: None,
                    denyallow: Seq::empty(),
                    rewrite: None,
                },
            ),
            false,
        ),
{
    let w = seq!['~'] + v;
    let q = seq!['\''] + v.push('\'');
    assert(is_entry(q)) by {
        assert forall|i: int| 0 <= i < q.len() implies ' ' < #[trigger] q[i] <= '~' && q[i] != '#'
            && q[i] != '$' && q[i] != ',' && q[i] != '|' && q[i] != '=' by {
            if 0 < i <= v.len() {
                assert(q[i] == v[i - 1]);
                assert(v.contains(v[i - 1]));
            }
        }
    }
    lemma_unquoted(v);
    lemma_client_value(v, m);
    lemma_client_value(q, m);
    lemma_clients(h, d, v, ClientFilterView { included: seq![m], excluded: Seq::empty() });
    lemma_clients(h, d, w, ClientFilterView { included: Seq::empty(), excluded: seq![m] });
    lemma_clients(h, d, q, ClientFilterView { included: seq![m], excluded: Seq::empty() });
}

/// Quotes are taken away, and nothing else.
proof fn lemma_unquoted(v: Seq<char>)
    requires
        v.len() > 0,
        v[0] != '"' && v[0] != '\'' && v.last() != '"' && v.last() != '\'',
    ensures
        parser::unquoted(v) == v,
        parser::unquoted(seq!['\''] + v.push('\'')) == v,
{
    let q = seq!['\''] + v.push('\'');
    assert(text::strip_start(v, '\'') == v && text::strip_end(v, '\'') == v);
    assert(text::strip_start(v, '"') == v && text::strip_end(v, '"') == v);
    assert(q.last() == '\'');
    assert(text::strip_start(q, '"') == q && text::strip_end(q, '"') == q);
    let a = v.push('\'');
    assert(q.drop_first() =~= a);
    assert(text::strip_start(a, '\'') == a);
    assert(text::strip_start(q, '\'') == a);
    assert(a.drop_last() =~= v);
    assert(text::strip_end(a, '\'') == v);
}

/// `$ctag=v` narrows a rule to the clients with the tag `v`, and `$ctag=~v` to those
/// without it.
pub proof fn law_tag_modifier(h: Seq<char>, d: Seq<char>, v: Seq<char>)
    requires
        is_host(h),
        is_small(d, h),
        net::ip_of_text(h) is None,
        is_entry(v),
    ensures
        host_gives(
            h,
            d,
            setting("ctag"@, v),
            Action::Block,
            Some(
                ModsView {
                    important: false,
                    dnstype: None,
                    client: None,
                    ctag: Some(ListsView { included: seq![v], excluded: Seq::empty() }),
                    denyallow: Seq::empty(),
                    rewrite: None,
                },
            ),
            false,
        ),
        host_gives(
            h,
            d,
            setting("ctag"@, seq!['~'] + v),
            Action::Block,
            Some(
                ModsView {
                    important: false,
                    dnstype: None,
                    client: None,
                    ctag: Some(ListsView { included: Seq::empty(), excluded: seq![v] }),
                    denyallow: Seq::empty(),
                    rewrite: None,
                },
            ),
            false,
        ),
{
    let w = seq!['~'] + v;
    lemma_entry(v);
    lemma_tags(h, d, v, ListsView { included: seq![v], excluded: Seq::empty() });
    lemma_tags(h, d, w, ListsView { included: Seq::empty(), excluded: seq![v] });
}

/// `$denyallow=x` leaves the domain `x` out of a rule.
pub proof fn law_denyallow_modifier(h: Seq<char>, d: Seq<char>, x: Seq<char>, e: Seq<char>)
    requires
        is_host(h),
        is_small(d, h),
        net::ip_of_text(h) is None,
        is_host(x),
        is_small(e, x),
    ensures
        host_gives(
            h,
            d,
            setting("denyallow"@, x),
            Action::Block,
            Some(
                ModsView {
                    important: false,
                    dnstype: None,
                    client: None,
                    ctag: None,
                    denyallow: seq![e],
                    rewrite: None,
                },
            ),
            false,
        ),
{
    reveal(is_host);
    lemma_host(x, e);
    assert(!x.contains('|')) by {
        if x.contains('|') {
            let i = choose|i: int| 0 <= i < x.len() && x[i] == '|';
            assert(is_host_char(x[i]) || x[i] == '.');
        }
    }
    lemma_one_entry(x);
    lemma_modified(5, x);
    assert(keys()[5] == "denyallow"@);
    assert(seq![x].map_values(|t: Seq<char>| parser::norm(t)) =~= seq![e]);
    assert(seq![e].len() == 1);
    lemma_host_modifier(h, d, setting("denyallow"@, x));
}

/// `$dnsrewrite=v` makes a rule answer with what the value stands for.
pub proof fn law_rewrite_modifier(h: Seq<char>, d: Seq<char>, v: Seq<char>, f: RewriteView)
    requires
        is_host(h),
        is_small(d, h),
        net::ip_of_text(h) is None,
        is_plain(v),
        parser::rewrite_of(v) == Ok::<RewriteView, ErrorView>(f),
    ensures
        host_gives(
            h,
            d,
            setting("dnsrewrite"@, v),
            Action::Rewrite,
            Some(
                ModsView {
                    important: false,
                    dnstype: None,
                    client: None,
                    ctag: None,
                    denyallow: Seq::empty(),
                    rewrite: Some(f),
                },
            ),
            false,
        ),
{
    lemma_rewrite(h, d, v, f);
}

/// A text in capitals is no other text in capitals.
proof fn lemma_capitals(v: Seq<char>)
    requires
        forall|i: int| 0 <= i < v.len() ==> 'A' <= #[trigger] v[i] <= 'Z',
    ensures
        text::uppered(v) == v,
        text::trim(v) == v,
{
    assert(text::uppered(v) =~= v);
    assert(v.len() > 0 ==> !text::is_white(v[0]) && !text::is_white(v.last()));
}

/// A response code as the value of `$dnsrewrite`.
pub proof fn law_rewrite_to_code()
    ensures
        parser::rewrite_of("NOERROR"@) == Ok::<RewriteView, ErrorView>(
            RewriteView::Rcode(RewriteRcode::NoError),
        ),
        parser::rewrite_of("NXDOMAIN"@) == Ok::<RewriteView, ErrorView>(
            RewriteView::Rcode(RewriteRcode::NxDomain),
        ),
        parser::rewrite_of("REFUSED"@) == Ok::<RewriteView, ErrorView>(
            RewriteView::Rcode(RewriteRcode::Refused),
        ),
        parser::rewrite_of("SERVFAIL"@) == Ok::<RewriteView, ErrorView>(
            RewriteView::Rcode(RewriteRcode::ServFail),
        ),
{
    reveal_strlit("NOERROR");
    reveal_strlit("NXDOMAIN");
    reveal_strlit("REFUSED");
    reveal_strlit("SERVFAIL");
    lemma_capitals("NOERROR"@);
    lemma_capitals("NXDOMAIN"@);
    lemma_capitals("REFUSED"@);
    lemma_capitals("SERVFAIL"@);
    assert("NOERROR"@[0] == 'N' && "NOERROR"@.len() == 7);
    assert("REFUSED"@[0] == 'R' && "REFUSED"@.len() == 7);
    assert("NXDOMAIN"@[0] == 'N' && "NXDOMAIN"@.len() == 8);
    assert("SERVFAIL"@[0] == 'S' && "SERVFAIL"@.len() == 8);
}

/// A text with a mark that no response code has in it is none.
proof fn lemma_no_code(v: Seq<char>, c: char)
    requires
        v.contains(c),
        c == '.' || c == ':' || c == ';',
    ensures
        parser::rcode_of(v) is None,
{
    let i = choose|i: int| 0 <= i < v.len() && v[i] == c;
    let u = text::uppered(v);
    assert(u[i] == c);
    reveal_strlit("NOERROR");
    reveal_strlit("NXDOMAIN");
    reveal_strlit("REFUSED");
    reveal_strlit("SERVFAIL");
    lemma_not_word(u, i, "NOERROR"@);
    lemma_not_word(u, i, "NXDOMAIN"@);
    lemma_not_word(u, i, "REFUSED"@);
    lemma_not_word(u, i, "SERVFAIL"@);
}

/// A text with something else than a capital in it is no word in capitals.
proof fn lemma_not_word(u: Seq<char>, i: int, word: Seq<char>)
    requires
        0 <= i < u.len(),
        !('A' <= u[i] <= 'Z'),
        forall|k: int| 0 <= k < word.len() ==> 'A' <= #[trigger] word[k] <= 'Z',
    ensures
        u != word,
{
    if u == word {
        assert('A' <= word[i] <= 'Z');
    }
}

/// An address as the value of `$dnsrewrite` is answered as it is, in the record type of
/// its family; a name as the name that it stands for.
pub proof fn law_rewrite_to_address_or_name(v: Seq<char>, d: Seq<char>, a: Ipv4Addr, b: Ipv6Addr)
    requires
        is_plain(v),
        v.contains('.') || v.contains(':'),
    ensures
        net::ip_of_text(v) == Some(IpAddr::V4(a)) ==> parser::rewrite_of(v) == Ok::<
            RewriteView,
            ErrorView,
        >(RewriteView::A(a)),
        net::ip_of_text(v) == Some(IpAddr::V6(b)) ==> parser::rewrite_of(v) == Ok::<
            RewriteView,
            ErrorView,
        >(RewriteView::Aaaa(b)),
        is_host(v) && v.contains('.') && is_small(d, v) && net::ip_of_text(v) is None
            ==> parser::rewrite_of(v) == Ok::<RewriteView, ErrorView>(RewriteView::Cname(d)),
{
    assert forall|i: int| 0 <= i < v.len() implies !text::is_white(#[trigger] v[i]) by {
        assert(' ' < v[i] <= '~');
    }
    lemma_one_word(v);
    if v.contains('.') {
        lemma_no_code(v, '.');
    } else {
        lemma_no_code(v, ':');
    }
    if is_host(v) && is_small(d, v) {
        lemma_host(v, d);
        assert(!v.contains(';')) by {
            reveal(is_host);
            if v.contains(';') {
                let i = choose|i: int| 0 <= i < v.len() && v[i] == ';';
                assert(is_host_char(v[i]) || v[i] == '.');
            }
        }
        text::lemma_find_is(v, ';', 0, v.len() as int);
        assert(text::find(v, ';') == v.len());
    }
}

/// The value `code;type;data`.
pub open spec fn full(code: Seq<char>, rtype: Seq<char>, data: Seq<char>) -> Seq<char> {
    code.push(';') + rtype.push(';') + data
}

/// The full form of a value comes apart at its first two `;`.
proof fn lemma_full(code: Seq<char>, rtype: Seq<char>, data: Seq<char>)
    requires
        is_plain(full(code, rtype, data)),
        !code.contains(';') && !rtype.contains(';'),
        net::ip_of_text(full(code, rtype, data)) is None,
        text::uppered(rtype) == rtype,
        parser::typed_rewrite(rtype, data) is Some,
    ensures
        parser::rewrite_of(full(code, rtype, data)) == parser::typed_rewrite(rtype, data)->0,
{
    let v = full(code, rtype, data);
    assert forall|i: int| 0 <= i < v.len() implies !text::is_white(#[trigger] v[i]) by {
        assert(' ' < v[i] <= '~');
    }
    lemma_one_word(v);
    let i = code.len() as int;
    let j = code.len() as int + 1 + rtype.len() as int;
    assert(v[i] == ';');
    assert(v[j] == ';');
    assert(v.contains(';'));
    lemma_no_code(v, ';');
    assert forall|k: int| 0 <= k < i implies #[trigger] v[k] != ';' by {
        assert(v[k] == code[k]);
        assert(code.contains(code[k]));
    }
    assert forall|k: int| i + 1 <= k < j implies #[trigger] v[k] != ';' by {
        assert(v[k] == rtype[k - i - 1]);
        assert(rtype.contains(rtype[k - i - 1]));
    }
    text::lemma_find_is(v, ';', 0, i);
    text::lemma_find_is(v, ';', i + 1, j);
    assert(v.subrange(i + 1, j) =~= rtype);
    assert(v.skip(j + 1) =~= data);
}

/// The full form of a value: the data is answered in the record type that is named.
pub proof fn law_rewrite_in_full(code: Seq<char>, data: Seq<char>, x: Seq<char>)
    requires
        is_plain(code) && is_plain(data),
        !code.contains(';'),
        is_host(data) ==> is_small(x, data),
        net::ip_of_text(full(code, "A"@, data)) is None,
        net::ip_of_text(full(code, "AAAA"@, data)) is None,
        net::ip_of_text(full(code, "CNAME"@, data)) is None,
        net::ip_of_text(full(code, "PTR"@, data)) is None,
        net::ip_of_text(full(code, "TXT"@, data)) is None,
    ensures
        net::ipv4_of_text(data) matches Some(bits) ==> parser::rewrite_of(full(code, "A"@, data))
            == Ok::<RewriteView, ErrorView>(RewriteView::A(Ipv4Addr { bits })),
        net::ipv6_of_text(data) matches Some(bits) ==> parser::rewrite_of(full(code, "AAAA"@, data))
            == Ok::<RewriteView, ErrorView>(RewriteView::Aaaa(Ipv6Addr { bits })),
        is_host(data) ==> parser::rewrite_of(full(code, "CNAME"@, data)) == Ok::<
            RewriteView,
            ErrorView,
        >(RewriteView::Cname(x)),
        is_host(data) ==> parser::rewrite_of(full(code, "PTR"@, data)) == Ok::<
            RewriteView,
            ErrorView,
        >(RewriteView::Ptr(x)),
        data.len() > 0 && data[0] != '"' && data.last() != '"' ==> parser::rewrite_of(
            full(code, "TXT"@, data),
        ) == Ok::<RewriteView, ErrorView>(RewriteView::Txt(data)),
{
    reveal_strlit("A");
    reveal_strlit("AAAA");
    reveal_strlit("CNAME");
    reveal_strlit("PTR");
    reveal_strlit("TXT");
    assert("PTR"@[0] == 'P' && "TXT"@[0] == 'T');
    lemma_full_type(code, "A"@, data);
    lemma_full_type(code, "AAAA"@, data);
    lemma_full_type(code, "CNAME"@, data);
    lemma_full_type(code, "PTR"@, data);
    lemma_full_type(code, "TXT"@, data);
    lemma_full(code, "A"@, data);
    lemma_full(code, "AAAA"@, data);
    lemma_full(code, "CNAME"@, data);
    lemma_full(code, "PTR"@, data);
    lemma_full(code, "TXT"@, data);
    if is_host(data) {
        lemma_host(data, x);
    }
}

/// A full form of plain texts is a plain text.
proof fn lemma_full_type(code: Seq<char>, rtype: Seq<char>, data: Seq<char>)
    requires
        is_plain(code) && is_plain(data),
        forall|i: int| 0 <= i < rtype.len() ==> 'A' <= #[trigger] rtype[i] <= 'Z',
    ensures
        is_plain(full(code, rtype, data)),
        !rtype.contains(';'),
        text::uppered(rtype) == rtype,
{
    lemma_capitals(rtype);
    let v = full(code, rtype, data);
    assert forall|i: int| 0 <= i < v.len() implies ' ' < #[trigger] v[i] <= '~' && v[i] != '#'
        && v[i] != '$' && v[i] != ',' by {
        let n = code.len();
        if i < n {
            assert(v[i] == code[i]);
        } else if n < i < n + 1 + rtype.len() {
            assert(v[i] == rtype[i - n - 1]);
        } else if i > n + 1 + rtype.len() {
            assert(v[i] == data[i - n - rtype.len() - 2]);
        }
    }
}

/// A line of a hosts file: the address and a name. An unspecified or a loopback address
/// blocks just that name; any other is answered for it.
pub proof fn law_hosts_line(first: Seq<char>, ip: IpAddr, h: Seq<char>, d: Seq<char>)
    requires
        net::ip_of_text(first) == Some(ip),
        first.len() > 0 && is_plain(first) && first[0] != '!' && first[0] != '[',
        is_host(h),
        is_small(d, h),
        !parser::is_noise(d),
    ensures
        ({
            let line = first.push(' ') + h;
            let blocks = match ip {
                IpAddr::V4(a) => a.bits == 0 || 0x7f00_0000 <= a.bits <= 0x7fff_ffff,
                IpAddr::V6(a) => a.bits == 0 || a.bits == 1,
            };
            let answer = match ip {
                IpAddr::V4(a) => RewriteView::A(a),
                IpAddr::V6(a) => RewriteView::Aaaa(a),
            };
            &&& blocks ==> gives(line, Action::Block, PatternView::Exact(d), None, false)
            &&& !blocks ==> gives(
                line,
                Action::Rewrite,
                PatternView::Exact(d),
                Some(
                    ModsView {
                        important: false,
                        dnstype: None,
                        client: None,
                        ctag: None,
                        denyallow: Seq::empty(),
                        rewrite: Some(answer),
                    },
                ),
                false,
            )
        }),
{
    reveal(gives);
    lemma_host(h, d);
    let line = first.push(' ') + h;
    let n = first.len() as int;
    assert forall|i: int| 0 <= i < line.len() implies text::is_white(#[trigger] line[i]) == (i
        == n) by {
        if i < n {
            assert(line[i] == first[i]);
        } else if i > n {
            assert(line[i] == h[i - n - 1]);
        }
    }
    assert(h.len() > 0) by {
        reveal(is_host);
    }
    lemma_two_words(line, n);
    assert(line.subrange(0, n) =~= first);
    assert(line.subrange(n + 1, line.len() as int) =~= h);
    let words = text::words(line);
    assert(text::trim_start(line) == line);
    assert(text::trim_end(line) == line);
    let rest = words.drop_first();
    assert(rest =~= seq![h]);
    assert(h[0] != '#') by {
        reveal(is_host);
        assert(is_host_char(h[0]));
    }
    assert(rest.drop_first() =~= Seq::empty());
    assert(parser::before_comment(rest.drop_first()) =~= Seq::empty());
    let hosts = parser::before_comment(rest);
    assert(hosts =~= seq![h]);
    let keep = |h: Seq<char>| parser::is_usable_host(h);
    let kept = hosts.filter(keep);
    assert(kept =~= seq![h]) by {
        reveal(Seq::filter);
        assert(hosts.drop_last() =~= Seq::empty());
        assert(hosts.drop_last().filter(keep) =~= Seq::empty());
        assert(hosts.last() == h);
    }
    let rules = kept.map_values(|h: Seq<char>| parser::host_rule(words[0], ip, h));
    assert(rules.len() == 1 && rules[0] == parser::host_rule(first, ip, h));
    assert(parser::hosts_of(line) == Some(rules));
}

/// A text with white space at one place in it is two words.
proof fn lemma_two_words(s: Seq<char>, n: int)
    requires
        0 < n < s.len() - 1,
        forall|i: int| 0 <= i < s.len() ==> text::is_white(#[trigger] s[i]) == (i == n),
    ensures
        text::words(s) == seq![s.subrange(0, n), s.subrange(n + 1, s.len() as int)],
{
    assert(text::find_white_from(s, false, 0) == 0);
    lemma_white_at(s, 0, n);
    assert(text::find_white_from(s, false, n + 1) == n + 1);
    assert(text::find_white_from(s, false, n) == n + 1);
    lemma_no_white(s, n + 1);
    assert(text::words_from(s, s.len() as int) =~= Seq::empty());
    assert(text::words_from(s, n) =~= seq![s.subrange(n + 1, s.len() as int)]);
    assert(text::words(s) =~= seq![s.subrange(0, n)] + text::words_from(s, n));
}

proof fn lemma_white_at(s: Seq<char>, i: int, n: int)
    requires
        0 <= i <= n < s.len(),
        text::is_white(s[n]),
        forall|j: int| i <= j < n ==> !text::is_white(#[trigger] s[j]),
    ensures
        text::find_white_from(s, true, i) == n,
    decreases n - i,
{
    if i < n {
        lemma_white_at(s, i + 1, n);
    }
}

/// Modifiers on either side of a comma are read one after the other.
proof fn lemma_two_modifiers(a: Seq<char>, b: Seq<char>)
    requires
        a.len() > 0 && is_plain(a),
        b.len() > 0 && is_plain(b),
    ensures
        parser::modifier_list(Some(a.push(',') + b)) == seq![a, b],
        is_listing(a.push(',') + b),
{
    let m = a.push(',') + b;
    lemma_one_modifier(a);
    lemma_one_modifier(b);
    text::lemma_split_join(a, b, ',');
    let trim = |t: Seq<char>| text::trim(t);
    let keep = |t: Seq<char>| t.len() > 0;
    let x = text::split(a, ',');
    let y = text::split(b, ',');
    assert((x + y).map_values(trim) =~= x.map_values(trim) + y.map_values(trim));
    Seq::filter_distributes_over_add(x.map_values(trim), y.map_values(trim), keep);
    assert(parser::modifier_list(Some(m)) =~= seq![a, b]);
    assert forall|i: int| 0 <= i < m.len() implies ' ' < #[trigger] m[i] <= '~' && m[i] != '#'
        && m[i] != '$' by {
        if i < a.len() {
            assert(m[i] == a[i]);
        } else if i > a.len() {
            assert(m[i] == b[i - a.len() - 1]);
        }
    }
}

/// The outcome of two modifiers is that of the second after the first.
proof fn lemma_apply_two(st: ModsState, a: Seq<char>, b: Seq<char>)
    ensures
        parser::apply_modifiers(st, seq![a, b]) == match parser::apply_modifier(st, a) {
            ModsOutcome::Read(mid) => parser::apply_modifier(mid, b),
            other => other,
        },
{
    let list = seq![a, b];
    let one = list.drop_last();
    assert(one =~= seq![a]);
    assert(one.drop_last() =~= Seq::empty());
    assert(parser::apply_modifiers(st, one.drop_last()) == ModsOutcome::Read(st));
    assert(parser::apply_modifiers(st, one) == parser::apply_modifier(st, a));
    assert(list.last() == b);
}

/// Modifiers add up: a rule with `$important` and a record type has both, in whichever
/// order they are written.
pub proof fn law_modifiers_add_up(h: Seq<char>, d: Seq<char>, v: Seq<char>)
    requires
        is_host(h),
        is_small(d, h),
        net::ip_of_text(h) is None,
        is_entry(v),
        forall|i: int| 0 <= i < v.len() ==> 'A' <= #[trigger] v[i] <= 'Z',
    ensures
        ({
            let both = ModsView {
                important: true,
                dnstype: Some(ListsView { included: seq![v], excluded: Seq::empty() }),
                client: None,
                ctag: None,
                denyallow: Seq::empty(),
                rewrite: None,
            };
            let mark = "important"@;
            let types = setting("dnstype"@, v);
            &&& host_gives(h, d, mark.push(',') + types, Action::Block, Some(both), false)
            &&& host_gives(h, d, types.push(',') + mark, Action::Block, Some(both), false)
        }),
{
    let mark = "important"@;
    let types = setting("dnstype"@, v);
    assert(text::uppered(v) =~= v);
    lemma_type_value(v);
    lemma_keys();
    assert(keys()[0] == mark);
    assert(keys()[1] == "badfilter"@);
    assert(keys()[2] == "dnstype"@);
    lemma_setting("dnstype"@, v);
    lemma_setting(mark, Seq::empty());
    lemma_plain_setting("dnstype"@, v);
    lemma_two_modifiers(mark, types);
    lemma_two_modifiers(types, mark);
    let st = first_state(false);
    lemma_apply_two(st, mark, types);
    lemma_apply_two(st, types, mark);
    reveal(modified);
    lemma_host_modifier(h, d, mark.push(',') + types);
    lemma_host_modifier(h, d, types.push(',') + mark);
}

/// Record types on either side of a `|` are both in a rule's list; a `~` leaves out the
/// one that it stands before.
pub proof fn law_two_types(v: Seq<char>, w: Seq<char>)
    requires
        is_entry(v) && is_entry(w),
        forall|i: int| 0 <= i < v.len() ==> 'A' <= #[trigger] v[i] <= 'Z',
        forall|i: int| 0 <= i < w.len() ==> 'A' <= #[trigger] w[i] <= 'Z',
    ensures
        parser::dnstype_of(v.push('|') + w) matches Ok(f) && f.included == seq![v, w]
            && f.excluded.len() == 0,
        parser::dnstype_of(v.push('|') + (seq!['~'] + w)) matches Ok(f) && f.included == seq![v]
            && f.excluded == seq![w],
{
    let x = seq!['~'] + w;
    assert(parser::entries(v.push('|') + w) == seq![v] + seq![w] && parser::entries(
        v.push('|') + x,
    ) == seq![v] + seq![x]) by {
        lemma_entry(v);
        lemma_entry(w);
        lemma_more_entries(v, w);
        lemma_more_entries(v, x);
    }
    assert(x.drop_first() =~= w);
    assert(text::uppered(v) == v && text::uppered(w) == w) by {
        lemma_capitals(v);
        lemma_capitals(w);
    }
    lemma_types_of_two(v.push('|') + w, v, w, v, w);
    lemma_types_of_two(v.push('|') + x, v, x, v, w);
}

/// How a value with two entries is read, where what is in them is in capitals.
proof fn lemma_types_of_two(
    value: Seq<char>,
    a: Seq<char>,
    b: Seq<char>,
    v: Seq<char>,
    w: Seq<char>,
)
    requires
        parser::entries(value) == seq![a] + seq![b],
        a == v && v.len() > 0 && v[0] != '~',
        b.len() > 0,
        if b[0] == '~' {
            b.drop_first() == w
        } else {
            b == w
        },
        text::uppered(v) == v,
        text::uppered(w) == w,
    ensures
        parser::dnstype_of(value) matches Ok(f) && f.included == (if b[0] == '~' {
            seq![v]
        } else {
            seq![v, w]
        }) && f.excluded == (if b[0] == '~' {
            seq![w]
        } else {
            Seq::empty()
        }),
{
    lemma_read_types(value, a, b);
    lemma_two_sides(a, b);
    lemma_uppered_one(v);
    lemma_uppered_one(w);
    lemma_uppered_two(v, w);
}

/// How a value with two entries is read.
proof fn lemma_read_types(value: Seq<char>, a: Seq<char>, b: Seq<char>)
    requires
        parser::entries(value) == seq![a] + seq![b],
    ensures
        ({
            let lists = parser::in_and_out(seq![a, b]);
            parser::dnstype_of(value) matches Ok(f) && f.included == lists.included.map_values(
                |t: Seq<char>| text::uppered(t),
            ) && f.excluded == lists.excluded.map_values(|t: Seq<char>| text::uppered(t))
        }),
{
    assert(seq![a] + seq![b] =~= seq![a, b]);
}

proof fn lemma_uppered_two(v: Seq<char>, w: Seq<char>)
    requires
        text::uppered(v) == v,
        text::uppered(w) == w,
    ensures
        seq![v, w].map_values(|t: Seq<char>| text::uppered(t)) == seq![v, w],
{
    let up = seq![v, w].map_values(|t: Seq<char>| text::uppered(t));
    assert(up.len() == 2 && up[0] == v && up[1] == w);
    assert(up =~= seq![v, w]);
}

/// What is taken in and what is left out, of two entries.
proof fn lemma_two_sides(a: Seq<char>, b: Seq<char>)
    requires
        a.len() > 0 && a[0] != '~',
        b.len() > 0,
    ensures
        parser::in_and_out(seq![a, b]).included == if b[0] == '~' {
            seq![a]
        } else {
            seq![a, b]
        },
        parser::in_and_out(seq![a, b]).excluded == if b[0] == '~' {
            seq![b.drop_first()]
        } else {
            Seq::empty()
        },
{
    let inn = |t: Seq<char>| !parser::is_negated(t);
    let out = |t: Seq<char>| parser::is_negated(t);
    let drop = |t: Seq<char>| t.drop_first();
    lemma_sides(a);
    lemma_sides(b);
    Seq::filter_distributes_over_add(seq![a], seq![b], inn);
    Seq::filter_distributes_over_add(seq![a], seq![b], out);
    assert(seq![a] + seq![b] =~= seq![a, b]);
    let left = seq![a].filter(out);
    let right = seq![b].filter(out);
    assert((left + right).map_values(drop) =~= left.map_values(drop) + right.map_values(drop));
    assert(parser::in_and_out(seq![a, b]).included =~= if b[0] == '~' {
        seq![a]
    } else {
        seq![a, b]
    });
    assert(left.map_values(drop) == Seq::<Seq<char>>::empty());
    assert(parser::in_and_out(seq![a, b]).excluded =~= if b[0] == '~' {
        seq![b.drop_first()]
    } else {
        Seq::empty()
    });
}

/// The line of `||h^` with a modifier under another key.
pub proof fn lemma_set_aside(h: Seq<char>, d: Seq<char>, key: Seq<char>, value: Seq<char>)
    requires
        is_host(h),
        is_small(d, h),
        net::ip_of_text(h) is None,
        key.len() > 0 && is_plain(key) && !key.contains('='),
        is_plain(value),
        key != "important"@ && key != "badfilter"@ && key != "dnstype"@ && key != "client"@ && key
            != "ctag"@ && key != "denyallow"@ && key != "dnsrewrite"@,
    ensures
        ({
            let line = seq!['|', '|'] + h + seq!['^', '$'] + setting(key, value);
            parser::parsed(line) == Ok::<ParsedView, ErrorView>(ParsedView::Unsupported(line))
        }),
{
    let bars = seq!['|', '|'];
    let hat = seq!['^'];
    let m = setting(key, value);
    lemma_host_pattern(bars, h, d, hat);
    lemma_front(bars, h, d, hat);
    let p = bars + h + hat;
    let body = body_of(p, Some(m));
    let line = bars + h + seq!['^', '$'] + m;
    assert(body =~= line);
    lemma_setting(key, value);
    lemma_plain_setting(key, value);
    lemma_apply_one(first_state(false), Some(m));
    assert forall|i: int| 0 <= i < line.len() implies ' ' < #[trigger] line[i] <= '~' && line[i]
        != '#' && (line[i] == '$' ==> i == p.len()) by {
        if i < p.len() {
            assert(line[i] == p[i]);
        } else if i > p.len() {
            assert(line[i] == m[i - p.len() - 1]);
        }
    }
    lemma_adblock(line);
    reveal_strlit("@@");
    assert(line.take(2)[0] == '|');
    assert("@@"@[0] == '@');
    assert(!text::has_prefix(line, "@@"@));
    assert(!p.contains('$'));
    lemma_body(p, Some(m));
    assert forall|i: int| 0 <= i < p.len() implies !text::is_white(#[trigger] p[i]) by {
        assert(' ' < p[i] <= '~');
    }
    lemma_one_word(p);
}

/// What the pattern between anchors comes to where it is neither a regex nor a wildcard.
proof fn lemma_plain_pattern(front: Seq<char>, h: Seq<char>, back: Seq<char>)
    requires
        h.len() > 0,
        h[0] != '|' && h[0] != '/' && h[0] != '[',
        h.last() != '|' && h.last() != '^',
        !h.contains('*') && !h.contains('^'),
        front == seq!['|', '|'] || front == seq!['|'] || front.len() == 0,
        back == seq!['^'] || back == seq!['|'] || back.len() == 0,
    ensures
        parser::pattern_of(front + h + back) == match net::ip_of_text(h) {
            Some(ip) => Ok::<(PatternView, Seq<u32>), ErrorView>(
                (PatternView::Exact(net::ip_text(ip)), Seq::empty()),
            ),
            None => if parser::norm(h).len() == 0 {
                Err(ErrorView::Invalid("empty domain"@))
            } else if !parser::dns_hostname(parser::norm(h)) {
                Err(ErrorView::Invalid("not a DNS hostname: "@ + parser::norm(h)))
            } else if front.len() == 1 {
                Ok((PatternView::Exact(parser::norm(h)), Seq::empty()))
            } else {
                Ok((PatternView::Subdomain(parser::norm(h)), Seq::empty()))
            },
        },
{
    reveal_strlit("||");
    let p = front + h + back;
    let bars = "||"@;
    assert(bars =~= seq!['|', '|']);
    if front.len() == 2 {
        assert(p.take(2) =~= bars);
    } else if front.len() == 1 {
        assert(p.take(2)[1] == h[0]);
    } else if p.len() >= 2 {
        assert(p.take(2)[0] == h[0]);
    }
    assert(text::has_prefix(p, bars) == (front.len() == 2));
    let a = parser::anchors_of(p);
    let s = h + back;
    assert(p.skip(front.len() as int) =~= s);
    assert(front.len() == 0 ==> p =~= s);
    if back.len() == 1 {
        assert(s.last() == back[0]);
        assert(s.drop_last() =~= h);
    } else {
        assert(s =~= h);
    }
    assert(text::strip_end(h, '^') == h);
    assert(a.body == h);
    assert(a.start == (front.len() == 1));
    assert(p[0] == '|' || p[0] == h[0]);
}

/// An address as a rule is about just that address, in its usual form, whatever the anchors.
pub proof fn law_address_lines(h: Seq<char>, ip: IpAddr)
    requires
        h.len() > 0,
        is_plain(h),
        net::ip_of_text(h) == Some(ip),
        h[0] != '|' && h[0] != '/' && h[0] != '[' && h[0] != '@' && h[0] != '!',
        h.last() != '|' && h.last() != '^',
        !h.contains('*') && !h.contains('^'),
    ensures
        gives(h, Action::Block, PatternView::Exact(net::ip_text(ip)), None, false),
        gives(
            seq!['|', '|'] + h + seq!['^'],
            Action::Block,
            PatternView::Exact(net::ip_text(ip)),
            None,
            false,
        ),
        gives(
            seq!['@', '@'] + (seq!['|', '|'] + h + seq!['^']),
            Action::Allow,
            PatternView::Exact(net::ip_text(ip)),
            None,
            false,
        ),
{
    let none = Seq::<char>::empty();
    let bars = seq!['|', '|'];
    let hat = seq!['^'];
    let view = PatternView::Exact(net::ip_text(ip));
    lemma_plain_pattern(none, h, none);
    lemma_plain_pattern(bars, h, hat);
    assert(none + h + none =~= h);
    let p = bars + h + hat;
    assert(is_plain(p)) by {
        assert forall|i: int| 0 <= i < p.len() implies ' ' < #[trigger] p[i] <= '~' && p[i] != '#'
            && p[i] != '$' && p[i] != ',' by {
            if 2 <= i < 2 + h.len() {
                assert(p[i] == h[i - 2]);
            }
        }
    }
    lemma_apply_one(first_state(false), None);
    lemma_apply_one(first_state(true), None);
    reveal(modified);
    lemma_adblock_line(false, h, view, Seq::empty(), None);
    lemma_adblock_line(false, p, view, Seq::empty(), None);
    lemma_adblock_line(true, p, view, Seq::empty(), None);
}

/// A pattern with something in it that no host name has is an error.
pub proof fn law_bad_names(h: Seq<char>, k: int)
    requires
        0 <= k < h.len(),
        is_plain(h),
        net::ip_of_text(h) is None,
        h[0] != '|' && h[0] != '/' && h[0] != '[',
        h.last() != '|' && h.last() != '^' && h.last() != '.',
        !h.contains('*') && !h.contains('^'),
        !is_host_char(h[k]) && h[k] != '.',
    ensures
        parser::pattern_of(seq!['|', '|'] + h + seq!['^']) matches Err(ErrorView::Invalid(_)),
{
    lemma_plain_pattern(seq!['|', '|'], h, seq!['^']);
    assert forall|i: int| 0 <= i < h.len() implies !text::is_white(#[trigger] h[i]) by {
        assert(' ' < h[i] <= '~');
    }
    lemma_one_word(h);
    assert(text::strip_end(h, '.') == h);
    let d = text::lowered(h);
    assert(parser::norm(h) == d);
    assert(d[k] == h[k]);
    if parser::dns_hostname(d) {
        lemma_all_in_labels(d, 0, k);
    }
}

/// What is in a host name is in one of its labels, or parts them.
proof fn lemma_all_in_labels(d: Seq<char>, i: int, k: int)
    requires
        0 <= i <= k < d.len(),
        forall|n: int|
            0 <= n < text::split_from(d, '.', i).len() ==> parser::is_label(
                #[trigger] text::split_from(d, '.', i)[n],
            ),
    ensures
        parser::is_label_char(d[k]) || d[k] == '.',
    decreases d.len() - i,
{
    text::lemma_find(d, '.', i);
    let e = text::find_from(d, '.', i);
    let all = text::split_from(d, '.', i);
    if e < d.len() {
        let rest = text::split_from(d, '.', e + 1);
        assert(all == seq![d.subrange(i, e)] + rest);
        if k < e {
            assert(parser::is_label(all[0]));
            assert(all[0][k - i] == d[k]);
        } else if k > e {
            assert forall|n: int| 0 <= n < rest.len() implies parser::is_label(
                #[trigger] rest[n],
            ) by {
                assert(all[n + 1] == rest[n]);
            }
            lemma_all_in_labels(d, e + 1, k);
        }
    } else {
        assert(all == seq![d.subrange(i, d.len() as int)]);
        assert(parser::is_label(all[0]));
        assert(all[0][k - i] == d[k]);
    }
}

/// A regex of more than 1000 bytes is an error.
pub proof fn law_long_regex(re: Seq<char>)
    requires
        text::utf8_len(re) > 1000,
    ensures
        parser::pattern_of(seq!['/'] + re + seq!['/']) matches Err(ErrorView::Regex(_)),
{
    let p = seq!['/'] + re + seq!['/'];
    assert(p.subrange(1, p.len() - 1) =~= re);
    assert(p.last() == '/');
}

/// A preference and a host make an MX record, and quotes around a text do not count.
pub proof fn law_rewrite_with_parts(
    pref: Seq<char>,
    n: nat,
    x: Seq<char>,
    e: Seq<char>,
    words: Seq<char>,
)
    requires
        pref.len() > 0 && is_plain(pref),
        text::number_of_text(pref, 65535) == Some(n),
        is_host(x),
        is_small(e, x),
        words.len() > 0 && words[0] != '"' && words.last() != '"',
    ensures
        parser::typed_rewrite("MX"@, pref.push(' ') + x) == Some(
            Ok::<RewriteView, ErrorView>(RewriteView::Mx(n as int, e)),
        ),
        parser::typed_rewrite("TXT"@, seq!['"'] + words.push('"')) == Some(
            Ok::<RewriteView, ErrorView>(RewriteView::Txt(words)),
        ),
{
    reveal_strlit("A");
    reveal_strlit("AAAA");
    reveal_strlit("CNAME");
    reveal_strlit("PTR");
    reveal_strlit("TXT");
    reveal_strlit("MX");
    lemma_capitals("MX"@);
    lemma_capitals("TXT"@);
    assert("PTR"@[0] == 'P' && "TXT"@[0] == 'T');
    lemma_host(x, e);
    let s = pref.push(' ') + x;
    let k = pref.len() as int;
    assert(x.len() > 0) by {
        reveal(is_host);
    }
    assert forall|i: int| 0 <= i < s.len() implies text::is_white(#[trigger] s[i]) == (i == k) by {
        if i < k {
            assert(s[i] == pref[i]);
        } else if i > k {
            assert(s[i] == x[i - k - 1]);
        }
    }
    lemma_two_words(s, k);
    assert(s.subrange(0, k) =~= pref);
    assert(s.subrange(k + 1, s.len() as int) =~= x);
    let w = text::words(s);
    assert(w[0] == pref && w[1] == x);
    let q = seq!['"'] + words.push('"');
    let inner = words.push('"');
    assert(q.drop_first() =~= inner);
    assert(text::strip_start(inner, '"') == inner);
    assert(text::strip_start(q, '"') == inner);
    assert(inner.drop_last() =~= words);
    assert(text::strip_end(words, '"') == words);
    assert(text::strip_end(inner, '"') == words);
}

/// A dot at the end of a host name does not count.
pub proof fn law_final_dot(h: Seq<char>, d: Seq<char>)
    requires
        is_host(h),
        is_small(d, h),
        net::ip_of_text(h.push('.')) is None,
    ensures
        parser::norm(h.push('.')) == d,
        parser::pattern_of(seq!['|', '|'] + h.push('.') + seq!['^']) == Ok::<
            (PatternView, Seq<u32>),
            ErrorView,
        >((PatternView::Subdomain(d), Seq::empty())),
        parser::pattern_of(seq!['|'] + h.push('.') + seq!['^']) == Ok::<
            (PatternView, Seq<u32>),
            ErrorView,
        >((PatternView::Exact(d), Seq::empty())),
{
    let dotted = h.push('.');
    lemma_host(h, d);
    assert(h.len() > 0 && h[0] != '|' && h[0] != '[') by {
        reveal(is_host);
        assert(is_host_char(h[0]));
    }
    assert(dotted[0] == h[0]);
    assert(h[0] != '/') by {
        assert(h.contains(h[0]));
    }
    assert(!dotted.contains('*') && !dotted.contains('^')) by {
        if dotted.contains('*') {
            let i = choose|i: int| 0 <= i < dotted.len() && dotted[i] == '*';
            assert(h[i] == '*');
        }
        if dotted.contains('^') {
            let i = choose|i: int| 0 <= i < dotted.len() && dotted[i] == '^';
            assert(h[i] == '^');
        }
    }
    assert(' ' < h[0] <= '~');
    assert(text::trim_start(dotted) == dotted);
    assert(text::trim_end(dotted) == dotted);
    assert(dotted.drop_last() =~= h);
    assert(text::strip_end(h, '.') == h) by {
        reveal(is_host);
    }
    assert(text::strip_end(dotted, '.') == h);
    lemma_small(h);
    assert(d.len() > 0);
    lemma_plain_pattern(seq!['|', '|'], dotted, seq!['^']);
    lemma_plain_pattern(seq!['|'], dotted, seq!['^']);
}

} // verus!
