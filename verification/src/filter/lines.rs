//! What holds of the lines that are no plain rules, and of hosts files.

use vstd::prelude::*;

use crate::filter::parser;
use crate::filter::parser::{ErrorView, ModsOutcome, ModsState, ParsedView};
use crate::filter::rule;
use crate::filter::rule::{Action, PatternView, RewriteView, RuleView};
use crate::filter::written;
use crate::forms;
use crate::net;
use crate::net::IpAddr;
use crate::text;

verus! {

/// A line of white space, a comment and a header are passed over.
pub proof fn law_passed_over(front: Seq<char>, s: Seq<char>, back: Seq<char>)
    requires
        forms::is_blank(front),
        forms::is_blank(back),
        s.len() > 0 ==> (s[0] == '!' || s[0] == '#' || s[0] == '[') && !text::is_white(s.last()),
    ensures
        parser::parsed(front + s + back) == Ok::<ParsedView, ErrorView>(ParsedView::Ignored),
{
    forms::law_trim(front, s, back);
}

/// White space around a line does not count.
pub proof fn law_line_is_trimmed(front: Seq<char>, s: Seq<char>, back: Seq<char>)
    requires
        forms::is_blank(front),
        forms::is_blank(back),
        s.len() > 0 ==> !text::is_white(s[0]) && !text::is_white(s.last()),
    ensures
        parser::parsed(front + s + back) == parser::parsed(s),
{
    let none = Seq::<char>::empty();
    forms::law_trim(front, s, back);
    forms::law_trim(none, s, none);
    assert(none + s + none =~= s);
}

/// A cosmetic rule, which has `##` in it, is none for DNS.
pub proof fn law_cosmetic_line(front: Seq<char>, back: Seq<char>)
    requires
        front.len() > 0,
        front[0] != '!' && front[0] != '[' && front[0] != '#',
        forall|i: int| 0 <= i < front.len() ==> ' ' < #[trigger] front[i] <= '~',
        forall|i: int| 0 <= i < back.len() ==> ' ' < #[trigger] back[i] <= '~',
    ensures
        parser::parsed(front + seq!['#', '#'] + back) == Ok::<ParsedView, ErrorView>(
            ParsedView::Unsupported(front + seq!['#', '#'] + back),
        ),
{
    let line = front + seq!['#', '#'] + back;
    let n = front.len() as int;
    assert forall|i: int| 0 <= i < line.len() implies !text::is_white(#[trigger] line[i]) by {
        if i < n {
            assert(line[i] == front[i]);
        } else if i >= n + 2 {
            assert(line[i] == back[i - n - 2]);
        }
    }
    written::lemma_one_word(line);
    let words = text::words(line);
    assert(words.drop_first() =~= Seq::empty());
    assert(parser::hosts_of(line) is None);
    assert(line[0] == front[0]);
    assert(line[n] == '#' && line[n + 1] == '#');
    assert(parser::marker_at(line, n));
}

/// A text between slashes is a regex, without regard to case, that blocks what it matches;
/// one that does not compile is an error.
pub proof fn law_regex_line(re: Seq<char>)
    requires
        written::is_plain(re),
        text::utf8_len(re) <= 1000,
    ensures
        ({
            let line = seq!['/'] + re + seq!['/'];
            let src = seq!['(', '?', 'i', ')'] + re;
            match parser::regex_error(src) {
                None => written::gives(line, Action::Block, PatternView::Regex(src), None, false),
                Some(e) => parser::parsed(line) == Err::<ParsedView, ErrorView>(ErrorView::Regex(e)),
            }
        }),
{
    let line = seq!['/'] + re + seq!['/'];
    reveal_strlit("(?i)");
    assert("(?i)"@ =~= seq!['(', '?', 'i', ')']);
    assert forall|i: int| 0 <= i < line.len() implies ' ' < #[trigger] line[i] <= '~' && line[i]
        != '#' && line[i] != '$' by {
        if 0 < i <= re.len() {
            assert(line[i] == re[i - 1]);
        }
    }
    written::lemma_adblock(line);
    reveal_strlit("@@");
    assert(line.take(2)[0] == '/');
    assert("@@"@[0] == '@');
    assert(!text::has_prefix(line, "@@"@));
    lemma_no_slash_dollar(line, 0);
    assert(parser::modifiers_of(line) == (line, None::<Seq<char>>));
    assert forall|i: int| 0 <= i < line.len() implies !text::is_white(#[trigger] line[i]) by {
        assert(' ' < line[i] <= '~');
    }
    written::lemma_one_word(line);
    assert(line.subrange(1, line.len() - 1) =~= re);
    assert(line.last() == '/');
    let st = ModsState { action: Action::Block, badfilter: false, mods: rule::no_mods() };
    let none = parser::modifier_list(None::<Seq<char>>);
    assert(none =~= Seq::empty());
    assert(parser::apply_modifiers(st, none) == ModsOutcome::Read(st));
    reveal(written::gives);
}

proof fn lemma_no_slash_dollar(s: Seq<char>, i: int)
    requires
        0 <= i <= s.len(),
        forall|j: int| 0 <= j < s.len() ==> #[trigger] s[j] != '$',
    ensures
        parser::find_slash_dollar(s, i) == s.len(),
    decreases s.len() - i,
{
    if i + 1 < s.len() {
        assert(s[i + 1] != '$');
        lemma_no_slash_dollar(s, i + 1);
    }
}

/// Whether a word of a hosts line names a host that counts: `d` in small letters.
pub open spec fn names(word: Seq<char>, d: Seq<char>) -> bool {
    written::is_host(word) && written::is_small(d, word) && !parser::is_noise(d)
}

/// Whether a rule is that for a host of a hosts line: a block where the address is
/// unspecified or a loopback one, or else a rewrite to the address.
pub open spec fn is_for_host(r: RuleView, ip: IpAddr, d: Seq<char>) -> bool {
    let blocks = match ip {
        IpAddr::V4(a) => a.bits == 0 || 0x7f00_0000 <= a.bits <= 0x7fff_ffff,
        IpAddr::V6(a) => a.bits == 0 || a.bits == 1,
    };
    &&& r.pattern == PatternView::Exact(d)
    &&& blocks ==> r.action == Action::Block && r.mods is None
    &&& !blocks ==> r.action == Action::Rewrite && (r.mods matches Some(m) && m.rewrite == Some(
        match ip {
            IpAddr::V4(a) => RewriteView::A(a),
            IpAddr::V6(a) => RewriteView::Aaaa(a),
        },
    ) && !m.important && m.dnstype is None && m.client is None && m.ctag is None)
}

/// Each name of a hosts line, up to a comment, gives a rule of its own: a block where the
/// address is unspecified or a loopback one, or else a rewrite to the address.
pub proof fn law_hosts_words(line: Seq<char>, ip: IpAddr, k: int, d: Seq<char>)
    requires
        ({
            let words = text::words(line);
            &&& 1 <= k < words.len()
            &&& net::ip_of_text(words[0]) == Some(ip)
            &&& names(words[k], d)
            &&& forall|j: int|
                1 <= j <= k ==> (#[trigger] words[j]).len() > 0 && words[j][0] != '#'
        }),
    ensures
        parser::hosts_of(line) matches Some(rules) && exists|i: int|
            0 <= i < rules.len() && is_for_host((#[trigger] rules[i]).rule, ip, d),
{
    let words = text::words(line);
    let rest = words.drop_first();
    assert(rest[k - 1] == words[k]);
    assert forall|j: int| 0 <= j <= k - 1 implies (#[trigger] rest[j]).len() > 0 && rest[j][0]
        != '#' by {
        assert(rest[j] == words[j + 1]);
    }
    lemma_before_comment(rest, k - 1);
    let hosts = parser::before_comment(rest);
    let h = words[k];
    written::lemma_host(h, d);
    let usable = |h: Seq<char>| parser::is_usable_host(h);
    assert(d.len() > 0) by {
        reveal(written::is_host);
    }
    lemma_kept(hosts, usable, h);
    let kept = hosts.filter(usable);
    let m = choose|m: int| 0 <= m < kept.len() && kept[m] == h;
    let rules = kept.map_values(|h: Seq<char>| parser::host_rule(words[0], ip, h));
    assert(rules[m] == parser::host_rule(words[0], ip, h));
    assert(parser::hosts_of(line) == Some(rules));
    let got = parser::hosts_of(line)->0;
    assert(got =~= rules);
    assert(got[m] == rules[m]);
    assert(is_for_host(got[m].rule, ip, d));
}

/// What stands before a comment is read.
proof fn lemma_before_comment(words: Seq<Seq<char>>, k: int)
    requires
        0 <= k < words.len(),
        forall|j: int| 0 <= j <= k ==> (#[trigger] words[j]).len() > 0 && words[j][0] != '#',
    ensures
        parser::before_comment(words).contains(words[k]),
        parser::before_comment(words).len() > 0,
    decreases words.len(),
{
    assert(words[0].len() > 0 && words[0][0] != '#');
    let all = parser::before_comment(words);
    let rest = words.drop_first();
    assert(all == seq![words[0]] + parser::before_comment(rest));
    if k > 0 {
        assert(rest[k - 1] == words[k]);
        assert forall|j: int| 0 <= j <= k - 1 implies (#[trigger] rest[j]).len() > 0 && rest[j][0]
            != '#' by {
            assert(rest[j] == words[j + 1]);
        }
        lemma_before_comment(rest, k - 1);
        let more = parser::before_comment(rest);
        let m = choose|m: int| 0 <= m < more.len() && more[m] == words[k];
        assert(all[m + 1] == words[k]);
    } else {
        assert(all[0] == words[0]);
    }
}

proof fn lemma_kept(s: Seq<Seq<char>>, p: spec_fn(Seq<char>) -> bool, x: Seq<char>)
    requires
        s.contains(x),
        p(x),
    ensures
        s.filter(p).contains(x),
    decreases s.len(),
{
    reveal(Seq::filter);
    let rest = s.drop_last();
    if s.last() == x {
        assert(s.filter(p)[s.filter(p).len() - 1] == x);
    } else {
        let k = choose|k: int| 0 <= k < s.len() && s[k] == x;
        assert(rest[k] == x);
        lemma_kept(rest, p, x);
        let m = choose|m: int| 0 <= m < rest.filter(p).len() && rest.filter(p)[m] == x;
        assert(s.filter(p)[m] == x);
    }
}

/// The names that stand in hosts files for the machine itself and its neighbours give no
/// rule; every other name does.
pub proof fn law_own_names(d: Seq<char>)
    ensures
        parser::is_noise(d) <==> seq![
            "localhost"@,
            "localhost.localdomain"@,
            "local"@,
            "broadcasthost"@,
            "ip6-localhost"@,
            "ip6-loopback"@,
            "ip6-localnet"@,
            "ip6-mcastprefix"@,
            "ip6-allnodes"@,
            "ip6-allrouters"@,
            "ip6-allhosts"@,
            "0.0.0.0"@,
        ].contains(d),
{
    let all = seq![
        "localhost"@,
        "localhost.localdomain"@,
        "local"@,
        "broadcasthost"@,
        "ip6-localhost"@,
        "ip6-loopback"@,
        "ip6-localnet"@,
        "ip6-mcastprefix"@,
        "ip6-allnodes"@,
        "ip6-allrouters"@,
        "ip6-allhosts"@,
        "0.0.0.0"@,
    ];
    assert(all[0] == "localhost"@ && all[1] == "localhost.localdomain"@ && all[2] == "local"@);
    assert(all[3] == "broadcasthost"@ && all[4] == "ip6-localhost"@ && all[5] == "ip6-loopback"@);
    assert(all[6] == "ip6-localnet"@ && all[7] == "ip6-mcastprefix"@ && all[8] == "ip6-allnodes"@);
    assert(all[9] == "ip6-allrouters"@ && all[10] == "ip6-allhosts"@ && all[11] == "0.0.0.0"@);
}

/// A rule with a modifier that DNS filtering has no use for is set aside, whatever its
/// value is.
pub proof fn law_foreign_modifier(h: Seq<char>, d: Seq<char>, key: Seq<char>, value: Seq<char>)
    requires
        written::is_host(h),
        written::is_small(d, h),
        net::ip_of_text(h) is None,
        key.len() > 0 && written::is_plain(key) && !key.contains('='),
        written::is_plain(value),
        key != "important"@ && key != "badfilter"@ && key != "dnstype"@ && key != "client"@ && key
            != "ctag"@ && key != "denyallow"@ && key != "dnsrewrite"@,
    ensures
        ({
            let line = seq!['|', '|'] + h + seq!['^', '$'] + written::setting(key, value);
            parser::parsed(line) == Ok::<ParsedView, ErrorView>(ParsedView::Unsupported(line))
        }),
{
    written::lemma_set_aside(h, d, key, value);
}

/// What follows a comment on a hosts line gives no rule: there are no more rules than names
/// before it.
pub proof fn law_hosts_comment(line: Seq<char>, k: int)
    requires
        ({
            let words = text::words(line);
            1 <= k < words.len() && words[k].len() > 0 && words[k][0] == '#'
        }),
    ensures
        parser::hosts_of(line) matches Some(rules) ==> rules.len() <= k - 1,
{
    let words = text::words(line);
    let rest = words.drop_first();
    assert(rest[k - 1] == words[k]);
    lemma_comment_ends(rest, k - 1);
    let usable = |h: Seq<char>| parser::is_usable_host(h);
    parser::before_comment(rest).lemma_filter_len(usable);
}

proof fn lemma_comment_ends(words: Seq<Seq<char>>, k: int)
    requires
        0 <= k < words.len(),
        words[k].len() > 0 && words[k][0] == '#',
    ensures
        parser::before_comment(words).len() <= k,
    decreases words.len(),
{
    if k > 0 && !(words[0].len() > 0 && words[0][0] == '#') {
        let rest = words.drop_first();
        assert(rest[k - 1] == words[k]);
        lemma_comment_ends(rest, k - 1);
    }
}

/// The modifiers of a regex rule follow its closing slash.
pub proof fn law_regex_modifiers(re: Seq<char>, m: Seq<char>)
    requires
        written::is_plain(re),
    ensures
        parser::modifiers_of(seq!['/'] + re + seq!['/', '$'] + m) == (
            seq!['/'] + re + seq!['/'],
            Some(m),
        ),
{
    let s = seq!['/'] + re + seq!['/', '$'] + m;
    let k = re.len() as int + 1;
    assert forall|j: int| 0 <= j < k implies #[trigger] s[j + 1] != '$' by {
        if j + 1 < k {
            assert(s[j + 1] == re[j]);
        }
    }
    assert(s[k] == '/' && s[k + 1] == '$');
    lemma_slash_dollar(s, 0, k);
    assert(s.take(k + 1) =~= seq!['/'] + re + seq!['/']);
    assert(s.skip(k + 2) =~= m);
}

proof fn lemma_slash_dollar(s: Seq<char>, i: int, k: int)
    requires
        0 <= i <= k,
        k + 1 < s.len(),
        forall|j: int| i <= j < k ==> #[trigger] s[j + 1] != '$',
        s[k] == '/' && s[k + 1] == '$',
    ensures
        parser::find_slash_dollar(s, i) == k,
    decreases k - i,
{
    if i < k {
        assert(s[i + 1] != '$');
        lemma_slash_dollar(s, i + 1, k);
    }
}

} // verus!
