//! What holds of the upstream list when it is tidied.

use vstd::prelude::*;

use crate::config::settings;
use crate::text;

verus! {

/// Lines one after another, each with its end.
pub open spec fn flat(lines: Seq<Seq<char>>) -> Seq<char>
    decreases lines.len(),
{
    if lines.len() == 0 {
        Seq::empty()
    } else {
        flat(lines.drop_last()) + lines.last().push('\n')
    }
}

/// Whether lines are trimmed and hold no line end.
spec fn clean(lines: Seq<Seq<char>>) -> bool {
    forall|i: int|
        0 <= i < lines.len() ==> text::trim(#[trigger] lines[i]) == lines[i] && !lines[i].contains(
            '\n',
        )
}

/// Whether no blank line follows another.
spec fn sparse(lines: Seq<Seq<char>>) -> bool {
    forall|i: int, j: int|
        0 <= i && j == i + 1 && j < lines.len() ==> (#[trigger] lines[i]).len() > 0 || (
        #[trigger] lines[j]).len() > 0
}

/// Whether lines are tidy: trimmed, without a blank line at the start or the end, and
/// without two in a row.
pub open spec fn tidy(lines: Seq<Seq<char>>) -> bool {
    &&& forall|i: int|
        0 <= i < lines.len() ==> text::trim(#[trigger] lines[i]) == lines[i] && !lines[i].contains(
            '\n',
        )
    &&& lines.len() > 0 ==> lines[0].len() > 0 && lines.last().len() > 0
    &&& forall|i: int, j: int|
        0 <= i && j == i + 1 && j < lines.len() ==> (#[trigger] lines[i]).len() > 0 || (
        #[trigger] lines[j]).len() > 0
}

/// The lines that are not blank, trimmed, in order; comments are among them.
pub open spec fn written(lines: Seq<Seq<char>>) -> Seq<Seq<char>>
    decreases lines.len(),
{
    if lines.len() == 0 {
        Seq::empty()
    } else {
        let before = written(lines.drop_last());
        let line = text::trim(lines.last());
        if line.len() == 0 {
            before
        } else {
            before.push(line)
        }
    }
}

/// The lines that stay, trimmed: of blank lines in a row the first.
spec fn kept(lines: Seq<Seq<char>>) -> Seq<Seq<char>>
    decreases lines.len(),
{
    if lines.len() == 0 {
        Seq::empty()
    } else {
        let before = kept(lines.drop_last());
        let line = text::trim(lines.last());
        if line.len() == 0 && lines.len() > 1 && text::trim(lines[lines.len() - 2]).len() == 0 {
            before
        } else {
            before.push(line)
        }
    }
}

proof fn lemma_trim_end(s: Seq<char>)
    ensures
        text::trim_end(s).len() <= s.len(),
        forall|i: int| 0 <= i < text::trim_end(s).len() ==> #[trigger] text::trim_end(s)[i] == s[i],
        text::trim_end(s).len() > 0 ==> !text::is_white(text::trim_end(s).last()),
        s.len() > 0 && !text::is_white(s[0]) ==> text::trim_end(s).len() > 0,
    decreases s.len(),
{
    if s.len() > 0 && text::is_white(s.last()) {
        lemma_trim_end(s.drop_last());
    }
}

proof fn lemma_trim_start(s: Seq<char>)
    ensures
        text::trim_start(s).len() > 0 ==> !text::is_white(text::trim_start(s)[0]),
        forall|c: char| #[trigger] text::trim_start(s).contains(c) ==> s.contains(c),
    decreases s.len(),
{
    if s.len() > 0 && text::is_white(s[0]) {
        let rest = s.drop_first();
        lemma_trim_start(rest);
        assert forall|c: char| #[trigger] text::trim_start(s).contains(c) implies s.contains(c) by {
            assert(rest.contains(c));
            let i = choose|i: int| 0 <= i < rest.len() && rest[i] == c;
            assert(s[i + 1] == c);
        }
    }
}

/// A trimmed text stays as it is, and holds nothing new.
proof fn lemma_trim(s: Seq<char>)
    ensures
        text::trim(text::trim(s)) == text::trim(s),
        forall|c: char| #[trigger] text::trim(s).contains(c) ==> s.contains(c),
{
    let a = text::trim_start(s);
    let t = text::trim(s);
    lemma_trim_start(s);
    lemma_trim_end(a);
    assert forall|c: char| #[trigger] t.contains(c) implies s.contains(c) by {
        let i = choose|i: int| 0 <= i < t.len() && t[i] == c;
        assert(a[i] == c);
        assert(a.contains(c));
    }
    if t.len() > 0 {
        assert(t[0] == a[0]);
        assert(text::trim_start(t) == t);
        assert(text::trim_end(t) == t);
    }
}

proof fn lemma_tidied(lines: Seq<Seq<char>>)
    ensures
        settings::tidied(lines) == flat(kept(lines)),
    decreases lines.len(),
{
    if lines.len() > 0 {
        lemma_tidied(lines.drop_last());
        let before = kept(lines.drop_last());
        let line = text::trim(lines.last());
        assert(before.push(line).drop_last() =~= before);
    }
}

proof fn lemma_kept(lines: Seq<Seq<char>>)
    requires
        forall|i: int| 0 <= i < lines.len() ==> !(#[trigger] lines[i]).contains('\n'),
    ensures
        clean(kept(lines)),
        sparse(kept(lines)),
        lines.len() > 0 ==> kept(lines).len() > 0 && (kept(lines).last().len() == 0) == (text::trim(
            lines.last(),
        ).len() == 0),
        settings::specs_in(kept(lines)) == settings::specs_in(lines),
        written(kept(lines)) == written(lines),
    decreases lines.len(),
{
    if lines.len() > 0 {
        let init = lines.drop_last();
        assert forall|i: int| 0 <= i < init.len() implies !(#[trigger] init[i]).contains('\n') by {
            assert(init[i] == lines[i]);
        }
        lemma_kept(init);
        let before = kept(init);
        let line = text::trim(lines.last());
        let after = kept(lines);
        lemma_trim(lines.last());
        assert(!lines[lines.len() - 1].contains('\n'));
        if init.len() > 0 {
            assert(init.last() == lines[lines.len() - 2]);
        }
        if after.len() > before.len() {
            assert(after == before.push(line));
            assert(after.drop_last() =~= before);
            assert forall|i: int| 0 <= i < after.len() implies text::trim(#[trigger] after[i])
                == after[i] && !after[i].contains('\n') by {
                if i < before.len() {
                    assert(after[i] == before[i]);
                }
            }
            assert forall|i: int, j: int|
                0 <= i && j == i + 1 && j < after.len() implies (#[trigger] after[i]).len() > 0 || (
            #[trigger] after[j]).len() > 0 by {
                if j < before.len() {
                    assert(after[i] == before[i] && after[j] == before[j]);
                } else {
                    assert(after[i] == before.last());
                }
            }
        }
    }
}

/// The pieces of a text hold no separator.
proof fn lemma_pieces(s: Seq<char>, sep: char, at: int)
    requires
        0 <= at <= s.len(),
    ensures
        forall|i: int|
            0 <= i < text::split_from(s, sep, at).len() ==> !(#[trigger] text::split_from(
                s,
                sep,
                at,
            )[i]).contains(sep),
    decreases s.len() + 1 - at,
{
    text::lemma_find(s, sep, at);
    let e = text::find_from(s, sep, at);
    let first = s.subrange(at, e);
    assert(!first.contains(sep)) by {
        if first.contains(sep) {
            let i = choose|i: int| 0 <= i < first.len() && first[i] == sep;
            assert(s[at + i] == sep);
        }
    }
    if e < s.len() {
        lemma_pieces(s, sep, e + 1);
        let rest = text::split_from(s, sep, e + 1);
        let all = text::split_from(s, sep, at);
        assert forall|i: int| 0 <= i < all.len() implies !(#[trigger] all[i]).contains(sep) by {
            if i > 0 {
                assert(all[i] == rest[i - 1]);
            }
        }
    } else {
        assert(first =~= s.subrange(at, s.len() as int));
    }
}

proof fn lemma_specs_concat(a: Seq<Seq<char>>, b: Seq<Seq<char>>)
    ensures
        settings::specs_in(a + b) == settings::specs_in(a) + settings::specs_in(b),
    decreases b.len(),
{
    if b.len() == 0 {
        assert(a + b =~= a);
        assert(settings::specs_in(a) + settings::specs_in(b) =~= settings::specs_in(a));
    } else {
        lemma_specs_concat(a, b.drop_last());
        assert((a + b).drop_last() =~= a + b.drop_last());
        assert((a + b).last() == b.last());
        let x = settings::specs_in(a);
        let y = settings::specs_in(b.drop_last());
        let line = text::trim(b.last());
        assert((x + y).push(line) =~= x + y.push(line));
    }
}

proof fn lemma_written_concat(a: Seq<Seq<char>>, b: Seq<Seq<char>>)
    ensures
        written(a + b) == written(a) + written(b),
    decreases b.len(),
{
    if b.len() == 0 {
        assert(a + b =~= a);
        assert(written(a) + written(b) =~= written(a));
    } else {
        lemma_written_concat(a, b.drop_last());
        assert((a + b).drop_last() =~= a + b.drop_last());
        assert((a + b).last() == b.last());
        let x = written(a);
        let y = written(b.drop_last());
        let line = text::trim(b.last());
        assert((x + y).push(line) =~= x + y.push(line));
    }
}

/// The lines without a blank one at the end.
spec fn without_tail(lines: Seq<Seq<char>>) -> Seq<Seq<char>> {
    if lines.len() > 0 && lines.last().len() == 0 {
        lines.drop_last()
    } else {
        lines
    }
}

/// The lines without a blank one at the start.
spec fn without_head(lines: Seq<Seq<char>>) -> Seq<Seq<char>> {
    if lines.len() > 0 && lines[0].len() == 0 {
        lines.drop_first()
    } else {
        lines
    }
}

/// The lines of a tidied list.
pub closed spec fn tidy_lines(servers: Seq<char>) -> Seq<Seq<char>> {
    without_head(without_tail(kept(text::split(servers, '\n'))))
}

proof fn lemma_flat_front(lines: Seq<Seq<char>>)
    requires
        lines.len() > 0,
    ensures
        flat(lines) == lines[0].push('\n') + flat(lines.drop_first()),
    decreases lines.len(),
{
    if lines.len() == 1 {
        assert(lines.drop_last() =~= Seq::empty());
        assert(lines.drop_first() =~= Seq::empty());
        assert(flat(lines) =~= lines[0].push('\n') + flat(lines.drop_first()));
    } else {
        let init = lines.drop_last();
        lemma_flat_front(init);
        assert(init.drop_first() =~= lines.drop_first().drop_last());
        assert(lines.drop_first().last() == lines.last());
        let tail = lines.last().push('\n');
        assert((init[0].push('\n') + flat(init.drop_first())) + tail =~= init[0].push('\n') + (flat(
            init.drop_first(),
        ) + tail));
    }
}

proof fn lemma_not_newline(line: Seq<char>, i: int)
    requires
        0 <= i < line.len(),
        !line.contains('\n'),
    ensures
        line[i] != '\n',
{
    if line[i] == '\n' {
        assert(line.contains('\n'));
    }
}

/// Stripping the line ends of lines strips the blank ones at both ends, and the end
/// of the last.
proof fn lemma_strip(lines: Seq<Seq<char>>)
    requires
        clean(lines),
        sparse(lines),
    ensures
        ({
            let rest = without_head(without_tail(lines));
            let body = text::strip_start(text::strip_end(flat(lines), '\n'), '\n');
            &&& tidy(rest)
            &&& rest.len() == 0 ==> body.len() == 0
            &&& rest.len() > 0 ==> body.len() > 0 && body.push('\n') == flat(rest)
            &&& settings::specs_in(rest) == settings::specs_in(lines)
            &&& written(rest) == written(lines)
        }),
{
    let most = without_tail(lines);
    let rest = without_head(most);
    // The blank line at the end.
    if most.len() < lines.len() {
        assert(lines =~= most.push(lines.last()));
        assert(flat(lines) =~= flat(most).push('\n'));
        assert(flat(lines).drop_last() =~= flat(most));
        assert(text::trim(Seq::<char>::empty()) =~= Seq::empty());
        assert(lines.last() =~= Seq::empty());
        if most.len() > 0 {
            assert(most.last() == lines[lines.len() - 2]);
            assert(lines[lines.len() - 2].len() > 0 || lines[lines.len() - 1].len() > 0);
        }
    }
    assert(text::strip_end(flat(lines), '\n') == text::strip_end(flat(most), '\n'));
    assert(settings::specs_in(most) == settings::specs_in(lines));
    assert(written(most) == written(lines));
    if most.len() == 0 {
        assert(flat(most) =~= Seq::empty());
    } else {
        let last = most.last();
        assert(most[most.len() - 1] == last);
        assert(lines[most.len() - 1] == last);
        lemma_not_newline(last, last.len() - 1);
        let whole = flat(most);
        let cut = flat(most.drop_last()) + last;
        assert(whole =~= cut.push('\n'));
        assert(whole.drop_last() =~= cut);
        assert(cut.last() == last.last());
        assert(whole.last() == '\n');
        assert(text::strip_end(cut, '\n') == cut);
        assert(text::strip_end(whole, '\n') == cut);
        // The blank line at the start.
        if rest.len() < most.len() {
            assert(most.len() > 1);
            assert(most[0] == lines[0] && most[1] == lines[1]);
            assert(rest[0] == most[1]);
            lemma_flat_front(most);
            assert(most[0] =~= Seq::<char>::empty());
            assert(whole =~= seq!['\n'] + flat(rest));
            lemma_specs_concat(seq![most[0]], rest);
            assert(seq![most[0]] + rest =~= most);
            assert(seq![most[0]].drop_last() =~= Seq::<Seq<char>>::empty());
            assert(text::trim(most[0]) =~= Seq::<char>::empty());
            assert(settings::specs_in(Seq::<Seq<char>>::empty()) =~= Seq::<Seq<char>>::empty());
            assert(settings::specs_in(seq![most[0]]) =~= Seq::<Seq<char>>::empty());
            assert(Seq::<Seq<char>>::empty() + settings::specs_in(rest) =~= settings::specs_in(rest));
            lemma_written_concat(seq![most[0]], rest);
            assert(written(Seq::<Seq<char>>::empty()) =~= Seq::<Seq<char>>::empty());
            assert(written(seq![most[0]]) =~= Seq::<Seq<char>>::empty());
            assert(Seq::<Seq<char>>::empty() + written(rest) =~= written(rest));
            assert(cut =~= seq!['\n'] + flat(rest).drop_last());
            assert(cut.drop_first() =~= flat(rest).drop_last());
        } else {
            assert(rest[0] == lines[0]);
        }
        assert(rest.last() == last);
        lemma_flat_front(rest);
        lemma_not_newline(rest[0], 0);
        let body = flat(rest).drop_last();
        assert(flat(rest).last() == '\n') by {
            assert(flat(rest) =~= flat(rest.drop_last()) + rest.last().push('\n'));
        }
        assert(body[0] == rest[0][0]);
        assert(text::strip_start(body, '\n') == body);
        assert(text::strip_start(cut, '\n') == body) by {
            if rest.len() == most.len() {
                assert(cut =~= body);
            }
        }
        assert(body.push('\n') =~= flat(rest));
    }
    assert forall|i: int| 0 <= i < rest.len() implies text::trim(#[trigger] rest[i]) == rest[i]
        && !rest[i].contains('\n') by {
        let off = if rest.len() < most.len() {
            1int
        } else {
            0int
        };
        assert(rest[i] == lines[i + off]);
    }
    assert forall|i: int, j: int| 0 <= i && j == i + 1 && j < rest.len() implies (
    #[trigger] rest[i]).len() > 0 || (#[trigger] rest[j]).len() > 0 by {
        let off = if rest.len() < most.len() {
            1int
        } else {
            0int
        };
        assert(rest[i] == lines[i + off] && rest[j] == lines[j + off]);
    }
}

/// A normalized list is made of tidy lines, each with one line end: it ends in a
/// single line end, or is empty.
pub proof fn law_normalized_is_tidy(servers: Seq<char>)
    ensures
        tidy(tidy_lines(servers)),
        settings::normalized(servers) == flat(tidy_lines(servers)),
{
    let lines = text::split(servers, '\n');
    lemma_pieces(servers, '\n', 0);
    lemma_kept(lines);
    lemma_tidied(lines);
    lemma_strip(kept(lines));
    let rest = tidy_lines(servers);
    if rest.len() == 0 {
        assert(settings::normalized(servers) =~= flat(rest));
    }
}

/// The lines of a text that is made of lines.
proof fn lemma_split_flat(lines: Seq<Seq<char>>)
    requires
        forall|i: int| 0 <= i < lines.len() ==> !(#[trigger] lines[i]).contains('\n'),
    ensures
        text::split(flat(lines), '\n') == lines.push(Seq::empty()),
    decreases lines.len(),
{
    let none = Seq::<char>::empty();
    text::lemma_split_whole(none, '\n');
    if lines.len() == 0 {
        assert(lines.push(none) =~= seq![none]);
    } else {
        let init = lines.drop_last();
        let last = lines.last();
        assert forall|i: int| 0 <= i < init.len() implies !(#[trigger] init[i]).contains('\n') by {
            assert(init[i] == lines[i]);
        }
        lemma_split_flat(init);
        assert(!lines[lines.len() - 1].contains('\n'));
        text::lemma_split_whole(last, '\n');
        text::lemma_split_join(last, none, '\n');
        assert(last.push('\n') + none =~= last.push('\n'));
        assert(text::split(last.push('\n'), '\n') =~= seq![last, none]);
        if init.len() == 0 {
            assert(flat(lines) =~= last.push('\n'));
            assert(lines.push(none) =~= seq![last, none]);
        } else {
            let y = flat(init.drop_last()) + init.last();
            assert(flat(init) =~= y.push('\n'));
            text::lemma_split_join(y, none, '\n');
            assert(y.push('\n') + none =~= y.push('\n'));
            assert(text::split(y, '\n') + seq![none] == init.push(none));
            assert(text::split(y, '\n') =~= init) by {
                let left = text::split(y, '\n');
                assert(left =~= (left + seq![none]).drop_last());
                assert(init =~= init.push(none).drop_last());
            }
            text::lemma_split_join(y, last.push('\n'), '\n');
            assert(flat(lines) =~= y.push('\n') + last.push('\n'));
            assert(init + seq![last, none] =~= lines.push(none));
        }
    }
}

proof fn lemma_kept_of_tidy(lines: Seq<Seq<char>>)
    requires
        clean(lines),
        sparse(lines),
    ensures
        kept(lines) == lines,
    decreases lines.len(),
{
    if lines.len() > 0 {
        let init = lines.drop_last();
        assert forall|i: int| 0 <= i < init.len() implies text::trim(#[trigger] init[i]) == init[i]
            && !init[i].contains('\n') by {
            assert(init[i] == lines[i]);
        }
        assert forall|i: int, j: int| 0 <= i && j == i + 1 && j < init.len() implies (
        #[trigger] init[i]).len() > 0 || (#[trigger] init[j]).len() > 0 by {
            assert(init[i] == lines[i] && init[j] == lines[j]);
        }
        lemma_kept_of_tidy(init);
        assert(text::trim(lines[lines.len() - 1]) == lines[lines.len() - 1]);
        if lines.len() > 1 {
            assert(text::trim(lines[lines.len() - 2]) == lines[lines.len() - 2]);
            assert(lines[lines.len() - 2].len() > 0 || lines[lines.len() - 1].len() > 0);
        }
        assert(init.push(lines.last()) =~= lines);
    } else {
        assert(kept(lines) =~= lines);
    }
}

/// The lines of a tidied list again.
proof fn lemma_lines_again(lines: Seq<Seq<char>>)
    requires
        tidy(lines),
    ensures
        tidy_lines(flat(lines)) == lines,
        settings::specs_in(text::split(flat(lines), '\n')) == settings::specs_in(lines),
        written(text::split(flat(lines), '\n')) == written(lines),
{
    let none = Seq::<char>::empty();
    let all = lines.push(none);
    lemma_split_flat(lines);
    assert(text::trim(none) =~= none);
    assert forall|i: int| 0 <= i < all.len() implies text::trim(#[trigger] all[i]) == all[i]
        && !all[i].contains('\n') by {
        if i < lines.len() {
            assert(all[i] == lines[i]);
        }
    }
    assert forall|i: int, j: int| 0 <= i && j == i + 1 && j < all.len() implies (
    #[trigger] all[i]).len() > 0 || (#[trigger] all[j]).len() > 0 by {
        if j < lines.len() {
            assert(all[i] == lines[i] && all[j] == lines[j]);
        } else {
            assert(all[i] == lines.last());
        }
    }
    lemma_kept_of_tidy(all);
    assert(all.last() == none);
    assert(all.drop_last() =~= lines);
}

/// Tidying a list that is tidied changes nothing.
pub proof fn law_normalize_is_idempotent(servers: Seq<char>)
    ensures
        settings::normalized(settings::normalized(servers)) == settings::normalized(servers),
{
    law_normalized_is_tidy(servers);
    law_normalized_is_tidy(settings::normalized(servers));
    lemma_lines_again(tidy_lines(servers));
}

/// Tidying a list keeps its lines: those that are not blank stay, comments included,
/// in order, each trimmed.
pub proof fn law_normalize_keeps_lines(servers: Seq<char>)
    ensures
        written(text::split(settings::normalized(servers), '\n')) == written(
            text::split(servers, '\n'),
        ),
{
    let lines = text::split(servers, '\n');
    lemma_pieces(servers, '\n', 0);
    lemma_kept(lines);
    lemma_strip(kept(lines));
    law_normalized_is_tidy(servers);
    lemma_lines_again(tidy_lines(servers));
}

/// Tidying a list keeps its active specs.
pub proof fn law_normalize_keeps_specs(servers: Seq<char>)
    ensures
        settings::specs_in(text::split(settings::normalized(servers), '\n'))
            == settings::specs_in(text::split(servers, '\n')),
{
    let lines = text::split(servers, '\n');
    lemma_pieces(servers, '\n', 0);
    lemma_kept(lines);
    lemma_strip(kept(lines));
    law_normalized_is_tidy(servers);
    lemma_lines_again(tidy_lines(servers));
}

} // verus!
