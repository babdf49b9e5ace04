use vstd::prelude::*;

use crate::gitignore::add_ignore_spec;
use crate::gitignore::cloak_block;
use crate::gitignore::end_marker;
use crate::gitignore::ensure_gitignore_spec;
use crate::gitignore::first_nl;
use crate::gitignore::is_blank;
use crate::gitignore::join_lines;
use crate::gitignore::keep_entries;
use crate::gitignore::lemma_first_nl_at;
use crate::gitignore::line_split;
use crate::gitignore::managed_entries;
use crate::gitignore::rebuild_spec;
use crate::gitignore::remove_ignore_spec;
use crate::gitignore::start_marker;
use crate::gitignore::strip_cr;
use crate::gitignore::strip_managed;
use crate::gitignore::trim_back;
use crate::gitignore::trim_front;
use crate::gitignore::trim_spec;

verus! {

/// The first newline that `first_nl` names really is one, and nothing
/// before it is.
pub proof fn lemma_first_nl_found(s: Seq<char>)
    requires
        s.contains('\n'),
    ensures
        0 <= first_nl(s) < s.len(),
        s[first_nl(s)] == '\n',
        forall|j: int| 0 <= j < first_nl(s) ==> s[j] != '\n',
    decreases s.len(),
{
    if s.len() == 0 {
        let w = choose|w: int| 0 <= w < s.len() && s[w] == '\n';
        assert(false);
    } else if s[0] == '\n' {
    } else {
        let t = s.drop_first();
        assert(t.contains('\n')) by {
            let w = choose|w: int| 0 <= w < s.len() && s[w] == '\n';
            assert(w != 0);
            assert(t[w - 1] == '\n');
        }
        lemma_first_nl_found(t);
        assert(s[first_nl(s)] == t[first_nl(t)]);
        assert forall|j: int| 0 <= j < first_nl(s) implies s[j] != '\n' by {
            if j > 0 {
                assert(s[j] == t[j - 1]);
            }
        }
    }
}

/// Every line that splitting produces is free of newlines.
pub proof fn lemma_line_split_lines_have_no_newline(s: Seq<char>)
    ensures
        forall|i: int|
            0 <= i < line_split(s).len() ==> !(#[trigger] line_split(s)[i]).contains('\n'),
    decreases s.len(),
{
    if s.len() == 0 {
    } else if !s.contains('\n') {
        assert(line_split(s) == seq![s]);
        assert(line_split(s)[0] == s);
    } else {
        lemma_first_nl_found(s);
        let i = first_nl(s);
        let head = strip_cr(s.subrange(0, i));
        let rest = s.subrange(i + 1, s.len() as int);
        assert(line_split(s) == seq![head] + line_split(rest));
        assert(!head.contains('\n')) by {
            if head.contains('\n') {
                let w = choose|w: int| 0 <= w < head.len() && head[w] == '\n';
                assert(head[w] == s.subrange(0, i)[w]);
                assert(s[w] == '\n');
            }
        }
        lemma_line_split_lines_have_no_newline(rest);
        assert forall|k: int|
            0 <= k < line_split(s).len() implies !(#[trigger] line_split(s)[k]).contains('\n') by {
            if k == 0 {
                assert(line_split(s)[0] == head);
            } else {
                assert(line_split(s)[k] == line_split(rest)[k - 1]);
            }
        }
    }
}

/// Joining distributes over concatenation of line sequences.
pub proof fn lemma_join_lines_concat(a: Seq<Seq<char>>, b: Seq<Seq<char>>)
    ensures
        join_lines(a + b) == join_lines(a) + join_lines(b),
    decreases a.len(),
{
    if a.len() == 0 {
        assert(a + b =~= b);
        assert(join_lines(a) + join_lines(b) =~= join_lines(b));
    } else {
        assert((a + b).len() > 0);
        assert((a + b)[0] == a[0]);
        assert((a + b).drop_first() =~= a.drop_first() + b);
        lemma_join_lines_concat(a.drop_first(), b);
        assert(join_lines(a + b) == a[0] + seq!['\n'] + join_lines(a.drop_first() + b));
        assert(join_lines(a) == a[0] + seq!['\n'] + join_lines(a.drop_first()));
        assert(join_lines(a + b) =~= join_lines(a) + join_lines(b));
    }
}

/// A joined, non-empty line sequence always ends in a newline.
pub proof fn lemma_join_lines_ends_with_newline(ls: Seq<Seq<char>>)
    requires
        ls.len() > 0,
    ensures
        join_lines(ls).len() > 0,
        join_lines(ls).last() == '\n',
    decreases ls.len(),
{
    if ls.len() == 1 {
        assert(ls.drop_first() =~= Seq::<Seq<char>>::empty());
        assert(join_lines(ls) == ls[0] + seq!['\n'] + join_lines(ls.drop_first()));
        assert(join_lines(ls) =~= ls[0] + seq!['\n']);
    } else {
        lemma_join_lines_ends_with_newline(ls.drop_first());
        assert(join_lines(ls) == ls[0] + seq!['\n'] + join_lines(ls.drop_first()));
        assert(join_lines(ls).last() == join_lines(ls.drop_first()).last());
    }
}

/// Splitting a joined block of newline-free lines gives the lines
/// back, each normalized by `strip_cr`, and goes on with the tail.
pub proof fn lemma_line_split_of_join(ls: Seq<Seq<char>>, tail: Seq<char>)
    requires
        forall|i: int| 0 <= i < ls.len() ==> !(#[trigger] ls[i]).contains('\n'),
    ensures
        line_split(join_lines(ls) + tail) == ls.map_values(|l: Seq<char>| strip_cr(l))
            + line_split(tail),
    decreases ls.len(),
{
    if ls.len() == 0 {
        assert(join_lines(ls) + tail =~= tail);
        assert(ls.map_values(|l: Seq<char>| strip_cr(l)) =~= Seq::<Seq<char>>::empty());
        assert(ls.map_values(|l: Seq<char>| strip_cr(l)) + line_split(tail) =~= line_split(tail));
    } else {
        let l0 = ls[0];
        let rest = ls.drop_first();
        let s = join_lines(ls) + tail;
        assert(join_lines(ls) == l0 + seq!['\n'] + join_lines(rest));
        assert(s =~= l0 + seq!['\n'] + (join_lines(rest) + tail));
        let s2 = l0 + seq!['\n'] + (join_lines(rest) + tail);
        assert(s2[l0.len() as int] == '\n');
        assert(forall|j: int| 0 <= j < l0.len() ==> s2[j] == l0[j]);
        assert forall|j: int| 0 <= j < l0.len() implies s2[j] != '\n' by {
            assert(s2[j] == l0[j]);
            if l0[j] == '\n' {
                assert(l0.contains('\n'));
            }
        }
        lemma_first_nl_at(s2, l0.len() as int);
        assert(line_split(s2) == seq![strip_cr(s2.subrange(0, l0.len() as int))] + line_split(
            s2.subrange(l0.len() as int + 1, s2.len() as int),
        ));
        assert(s2.subrange(0, l0.len() as int) =~= l0);
        assert(s2.subrange(l0.len() as int + 1, s2.len() as int) =~= join_lines(rest) + tail);
        lemma_line_split_of_join(rest, tail);
        let f = |l: Seq<char>| strip_cr(l);
        assert(ls.map_values(f)[0] == f(l0));
        assert forall|k: int|
            0 <= k < ls.map_values(f).len() implies ls.map_values(f)[k] == (seq![f(l0)]
            + rest.map_values(f))[k] by {
            if k > 0 {
                assert(rest.map_values(f)[k - 1] == f(rest[k - 1]));
                assert(rest[k - 1] == ls[k]);
            }
        }
        assert(ls.map_values(f) =~= seq![f(l0)] + rest.map_values(f));
        assert(line_split(s2) =~= ls.map_values(f) + line_split(tail));
        assert(line_split(s) == line_split(s2));
    }
}

/// Trimming the front of a line with one character appended keeps
/// that character, as long as something before it is not blank.
proof fn lemma_trim_front_push(y: Seq<char>, c: char)
    requires
        exists|j: int| 0 <= j < y.len() && !is_blank(#[trigger] y[j]),
    ensures
        trim_front(y.push(c)) == trim_front(y).push(c),
    decreases y.len(),
{
    let w = choose|j: int| 0 <= j < y.len() && !is_blank(#[trigger] y[j]);
    if is_blank(y[0]) {
        assert(w != 0);
        assert(y.push(c)[0] == y[0]);
        assert(y.push(c).drop_first() =~= y.drop_first().push(c));
        assert(!is_blank(y.drop_first()[w - 1]));
        lemma_trim_front_push(y.drop_first(), c);
    } else {
        assert(y.push(c)[0] == y[0]);
        assert(trim_front(y.push(c)) == y.push(c));
        assert(trim_front(y) == y);
    }
}

/// A trailing carriage return never changes what trimming leaves.
pub proof fn lemma_trim_of_strip_cr(l: Seq<char>)
    ensures
        trim_spec(strip_cr(l)) == trim_spec(l),
{
    if l.len() > 0 && l.last() == '\r' {
        let y = l.drop_last();
        assert(l =~= y.push('\r'));
        if exists|j: int| 0 <= j < y.len() && !is_blank(#[trigger] y[j]) {
            lemma_trim_front_push(y, '\r');
            let t = trim_front(y);
            assert(trim_front(l) == t.push('\r'));
            assert(t.push('\r').last() == '\r');
            assert(is_blank('\r'));
            assert(t.push('\r').drop_last() =~= t);
            assert(trim_back(t.push('\r')) == trim_back(t));
        } else {
            assert(forall|j: int| 0 <= j < y.len() ==> is_blank(#[trigger] y[j]));
            assert(forall|j: int| 0 <= j < l.len() ==> is_blank(#[trigger] l[j]));
            crate::gitignore::lemma_trim_front_skip(l, l.len() as int);
            crate::gitignore::lemma_trim_front_skip(y, y.len() as int);
            assert(l.skip(l.len() as int) =~= Seq::<char>::empty());
            assert(y.skip(y.len() as int) =~= Seq::<char>::empty());
        }
    }
}

/// The block markers are trimmed, single-line, carriage-return-free,
/// and distinct from each other and from the empty line.
pub proof fn lemma_marker_shape()
    ensures
        trim_spec(start_marker()) == start_marker(),
        trim_spec(end_marker()) == end_marker(),
        !start_marker().contains('\n'),
        !end_marker().contains('\n'),
        strip_cr(start_marker()) == start_marker(),
        strip_cr(end_marker()) == end_marker(),
        start_marker() != end_marker(),
        start_marker().len() > 0,
        end_marker().len() > 0,
{
    reveal_strlit("# >>> cloak managed");
    reveal_strlit("# <<< cloak managed");
    let sm = start_marker();
    let em = end_marker();
    assert(sm.len() == 19);
    assert(em.len() == 19);
    assert(!is_blank(sm[0]) && !is_blank(sm[18]));
    assert(!is_blank(em[0]) && !is_blank(em[18]));
    crate::gitignore::lemma_trim_span(sm, 0, 19);
    crate::gitignore::lemma_trim_span(em, 0, 19);
    assert(sm.subrange(0, 19) =~= sm);
    assert(em.subrange(0, 19) =~= em);
    assert(!sm.contains('\n')) by {
        if sm.contains('\n') {
            let w = choose|w: int| 0 <= w < sm.len() && sm[w] == '\n';
            assert(sm[w] == '\n');
        }
    }
    assert(!em.contains('\n')) by {
        if em.contains('\n') {
            let w = choose|w: int| 0 <= w < em.len() && em[w] == '\n';
            assert(em[w] == '\n');
        }
    }
    assert(sm.last() != '\r');
    assert(em.last() != '\r');
    assert(sm[2] != em[2]);
}

/// An entry the managed block can carry faithfully: a non-empty,
/// trimmed, single-line pattern that is neither a comment nor one of
/// the markers.
pub open spec fn wf_entry(x: Seq<char>) -> bool {
    &&& x.len() > 0
    &&& x[0] != '#'
    &&& !x.contains('\n')
    &&& trim_spec(x) == x
    &&& x != start_marker()
    &&& x != end_marker()
}

proof fn lemma_trim_front_suffix(x: Seq<char>)
    ensures
        exists|a: int| 0 <= a <= x.len() && trim_front(x) == x.skip(a),
    decreases x.len(),
{
    if x.len() > 0 && is_blank(x[0]) {
        lemma_trim_front_suffix(x.drop_first());
        let a = choose|a: int|
            0 <= a <= x.drop_first().len() && trim_front(x.drop_first()) == x.drop_first().skip(a);
        assert(x.drop_first().skip(a) =~= x.skip(a + 1));
    } else {
        assert(x.skip(0) =~= x);
    }
}

proof fn lemma_trim_back_len(y: Seq<char>)
    ensures
        trim_back(y).len() <= y.len(),
    decreases y.len(),
{
    if y.len() > 0 && is_blank(y.last()) {
        lemma_trim_back_len(y.drop_last());
    }
}

/// A value that trimming leaves unchanged ends in a visible
/// character, never in a carriage return.
proof fn lemma_trimmed_has_no_trailing_cr(x: Seq<char>)
    requires
        x.len() > 0,
        trim_spec(x) == x,
    ensures
        x.last() != '\r',
{
    if x.last() == '\r' {
        lemma_trim_front_suffix(x);
        let a = choose|a: int| 0 <= a <= x.len() && trim_front(x) == x.skip(a);
        if a == x.len() {
            assert(x.skip(a) =~= Seq::<char>::empty());
            assert(trim_spec(x).len() == 0);
        } else {
            let y = x.skip(a);
            assert(y.len() > 0);
            assert(y.last() == x.last());
            assert(is_blank(y.last()));
            assert(trim_back(y) == trim_back(y.drop_last()));
            lemma_trim_back_len(y.drop_last());
            assert(trim_spec(x).len() < x.len());
        }
        assert(false);
    }
}

/// What a rebuild keeps: no marker lines, and no newlines when the
/// input lines had none.
proof fn lemma_strip_managed_lines(ls: Seq<Seq<char>>, in_section: bool)
    requires
        forall|i: int| 0 <= i < ls.len() ==> !(#[trigger] ls[i]).contains('\n'),
    ensures
        forall|i: int|
            0 <= i < strip_managed(ls, in_section).len() ==> {
                &&& trim_spec(#[trigger] strip_managed(ls, in_section)[i]) != start_marker()
                &&& trim_spec(strip_managed(ls, in_section)[i]) != end_marker()
                &&& !strip_managed(ls, in_section)[i].contains('\n')
            },
    decreases ls.len(),
{
    if ls.len() == 0 {
    } else {
        let rest = ls.drop_first();
        assert(forall|i: int| 0 <= i < rest.len() ==> rest[i] == ls[i + 1]);
        let t = trim_spec(ls[0]);
        if t == start_marker() {
            lemma_strip_managed_lines(rest, true);
            assert(strip_managed(ls, in_section) == strip_managed(rest, true));
        } else if t == end_marker() {
            lemma_strip_managed_lines(rest, false);
            assert(strip_managed(ls, in_section) == strip_managed(rest, false));
        } else if in_section {
            lemma_strip_managed_lines(rest, true);
            assert(strip_managed(ls, in_section) == strip_managed(rest, true));
        } else {
            lemma_strip_managed_lines(rest, false);
            let out = strip_managed(ls, in_section);
            assert(out == seq![ls[0]] + strip_managed(rest, false));
            assert forall|i: int|
                0 <= i < out.len() implies {
                &&& trim_spec(#[trigger] out[i]) != start_marker()
                &&& trim_spec(out[i]) != end_marker()
                &&& !out[i].contains('\n')
            } by {
                if i == 0 {
                    assert(out[0] == ls[0]);
                } else {
                    assert(out[i] == strip_managed(rest, false)[i - 1]);
                }
            }
        }
    }
}

/// Lines that do not open the managed block contribute no entries
/// while the walk stands outside it.
proof fn lemma_managed_entries_ignore_prefix(pre: Seq<Seq<char>>, rest: Seq<Seq<char>>)
    requires
        forall|i: int| 0 <= i < pre.len() ==> trim_spec(#[trigger] pre[i]) != start_marker(),
    ensures
        managed_entries(pre + rest, false) == managed_entries(rest, false),
    decreases pre.len(),
{
    if pre.len() == 0 {
        assert(pre + rest =~= rest);
    } else {
        let all = pre + rest;
        assert(all.len() > 0);
        assert(all[0] == pre[0]);
        assert(all.drop_first() =~= pre.drop_first() + rest);
        assert(forall|i: int|
            0 <= i < pre.drop_first().len() ==> pre.drop_first()[i] == pre[i + 1]);
        lemma_managed_entries_ignore_prefix(pre.drop_first(), rest);
        let t = trim_spec(all[0]);
        assert(t != start_marker());
        if t == end_marker() {
            assert(managed_entries(all, false) == managed_entries(all.drop_first(), false));
        } else {
            assert(managed_entries(all, false) == managed_entries(all.drop_first(), false));
        }
    }
}

/// Between its markers, the freshly written block parses back to
/// exactly its entries.
proof fn lemma_managed_entries_of_block(e: Seq<Seq<char>>)
    requires
        forall|i: int| 0 <= i < e.len() ==> wf_entry(#[trigger] e[i]),
    ensures
        managed_entries(e + seq![end_marker()], true) == e,
    decreases e.len(),
{
    lemma_marker_shape();
    let all = e + seq![end_marker()];
    if e.len() == 0 {
        assert(all =~= seq![end_marker()]);
        assert(all[0] == end_marker());
        assert(trim_spec(all[0]) == end_marker());
        assert(all.drop_first() =~= Seq::<Seq<char>>::empty());
        assert(managed_entries(all, true) == managed_entries(all.drop_first(), false));
        assert(managed_entries(all, true) =~= e);
    } else {
        assert(all[0] == e[0]);
        assert(wf_entry(e[0]));
        let t = trim_spec(e[0]);
        assert(t == e[0]);
        assert(t != start_marker() && t != end_marker());
        assert(t.len() > 0 && t[0] != '#');
        assert(all.drop_first() =~= e.drop_first() + seq![end_marker()]);
        assert(forall|i: int| 0 <= i < e.drop_first().len() ==> e.drop_first()[i] == e[i + 1]);
        lemma_managed_entries_of_block(e.drop_first());
        assert(managed_entries(all, true) == seq![t] + managed_entries(all.drop_first(), true));
        assert(seq![t] + e.drop_first() =~= e);
    }
}

/// Lines whose trims are no markers pass through a rebuild's keep
/// walk untouched, in front of whatever the rest contributes.
proof fn lemma_strip_managed_prefix(pre: Seq<Seq<char>>, rest: Seq<Seq<char>>)
    requires
        forall|i: int|
            0 <= i < pre.len() ==> trim_spec(#[trigger] pre[i]) != start_marker() && trim_spec(
                pre[i],
            ) != end_marker(),
    ensures
        strip_managed(pre + rest, false) == pre + strip_managed(rest, false),
    decreases pre.len(),
{
    if pre.len() == 0 {
        assert(pre + rest =~= rest);
        assert(pre + strip_managed(rest, false) =~= strip_managed(rest, false));
    } else {
        let all = pre + rest;
        assert(all[0] == pre[0]);
        assert(all.drop_first() =~= pre.drop_first() + rest);
        assert(forall|i: int|
            0 <= i < pre.drop_first().len() ==> pre.drop_first()[i] == pre[i + 1]);
        lemma_strip_managed_prefix(pre.drop_first(), rest);
        let t = trim_spec(all[0]);
        assert(t != start_marker() && t != end_marker());
        assert(strip_managed(all, false) == seq![pre[0]] + strip_managed(all.drop_first(), false));
        assert(seq![pre[0]] + (pre.drop_first() + strip_managed(rest, false)) =~= pre
            + strip_managed(rest, false));
    }
}

/// Inside the block, the keep walk drops every entry up to and
/// including the closing marker.
proof fn lemma_strip_managed_entries(e: Seq<Seq<char>>)
    requires
        forall|i: int| 0 <= i < e.len() ==> wf_entry(#[trigger] e[i]),
    ensures
        strip_managed(e + seq![end_marker()], true) == Seq::<Seq<char>>::empty(),
    decreases e.len(),
{
    lemma_marker_shape();
    let all = e + seq![end_marker()];
    if e.len() == 0 {
        assert(all =~= seq![end_marker()]);
        assert(all[0] == end_marker());
        assert(trim_spec(all[0]) == end_marker());
        assert(trim_spec(all[0]) != start_marker());
        assert(all.drop_first() =~= Seq::<Seq<char>>::empty());
        assert(strip_managed(all, true) == strip_managed(all.drop_first(), false));
        assert(strip_managed(Seq::<Seq<char>>::empty(), false) == Seq::<Seq<char>>::empty());
    } else {
        assert(all[0] == e[0]);
        assert(trim_spec(e[0]) == e[0]);
        assert(e[0] != start_marker() && e[0] != end_marker());
        assert(all.drop_first() =~= e.drop_first() + seq![end_marker()]);
        assert(forall|i: int| 0 <= i < e.drop_first().len() ==> e.drop_first()[i] == e[i + 1]);
        lemma_strip_managed_entries(e.drop_first());
        assert(strip_managed(all, true) == strip_managed(all.drop_first(), true));
    }
}

/// A freshly written block contributes nothing to the keep walk.
proof fn lemma_strip_managed_block(e: Seq<Seq<char>>)
    requires
        forall|i: int| 0 <= i < e.len() ==> wf_entry(#[trigger] e[i]),
    ensures
        strip_managed(seq![start_marker()] + e + seq![end_marker()], false) == Seq::<
            Seq<char>,
        >::empty(),
{
    lemma_marker_shape();
    let all = seq![start_marker()] + e + seq![end_marker()];
    assert(all[0] == start_marker());
    assert(trim_spec(all[0]) == start_marker());
    assert(all.drop_first() =~= e + seq![end_marker()]);
    lemma_strip_managed_entries(e);
    assert(strip_managed(all, false) == strip_managed(all.drop_first(), true));
}

/// Rebuilding an ignore file and reading the managed block back gives
/// exactly the entries that were written: the rebuild loses nothing
/// and invents nothing, whatever stood in the file before.  Every
/// line outside the block is kept in order, normalized only by
/// dropping a trailing carriage return; writing a block into a file
/// with no other lines leaves one blank separator line before it.
pub proof fn lemma_rebuild_then_parse(c: Seq<char>, e: Seq<Seq<char>>)
    requires
        forall|i: int| 0 <= i < e.len() ==> wf_entry(#[trigger] e[i]),
    ensures
        managed_entries(line_split(rebuild_spec(c, e)), false) == e,
        ({
            let kept = strip_managed(line_split(c), false);
            let outside = strip_managed(line_split(rebuild_spec(c, e)), false);
            if e.len() == 0 || kept.len() > 0 {
                outside == kept.map_values(|l: Seq<char>| strip_cr(l))
            } else {
                outside == seq![Seq::<char>::empty()]
            }
        }),
{
    lemma_marker_shape();
    let ls = line_split(c);
    lemma_line_split_lines_have_no_newline(c);
    let kept = strip_managed(ls, false);
    lemma_strip_managed_lines(ls, false);
    let base = join_lines(kept);
    let f = |l: Seq<char>| strip_cr(l);
    let k2 = kept.map_values(f);
    assert forall|i: int|
        0 <= i < k2.len() implies trim_spec(#[trigger] k2[i]) != start_marker() && trim_spec(
        k2[i],
    ) != end_marker() by {
        assert(k2[i] == f(kept[i]));
        lemma_trim_of_strip_cr(kept[i]);
    }
    if e.len() == 0 {
        assert(rebuild_spec(c, e) == base);
        lemma_line_split_of_join(kept, Seq::<char>::empty());
        assert(base + Seq::<char>::empty() =~= base);
        assert(line_split(base) == k2 + line_split(Seq::<char>::empty()));
        assert(line_split(Seq::<char>::empty()) =~= Seq::<Seq<char>>::empty());
        lemma_managed_entries_ignore_prefix(k2, Seq::<Seq<char>>::empty());
        assert(k2 + Seq::<Seq<char>>::empty() =~= k2);
        assert(line_split(base) =~= k2);
        assert(managed_entries(Seq::<Seq<char>>::empty(), false) =~= e);
        lemma_strip_managed_prefix(k2, Seq::<Seq<char>>::empty());
        assert(strip_managed(Seq::<Seq<char>>::empty(), false) =~= Seq::<Seq<char>>::empty());
        assert(strip_managed(line_split(rebuild_spec(c, e)), false) =~= k2);
    } else {
        let kk = if base.len() > 0 {
            kept
        } else {
            seq![Seq::<char>::empty()]
        };
        let base2 = if base.len() > 0 && base.last() == '\n' {
            base
        } else {
            base + seq!['\n']
        };
        if base.len() > 0 {
            assert(kept.len() > 0);
            lemma_join_lines_ends_with_newline(kept);
            assert(base2 == join_lines(kk));
        } else {
            assert(join_lines(kk) == Seq::<char>::empty() + seq!['\n'] + join_lines(
                kk.drop_first(),
            ));
            assert(kk.drop_first() =~= Seq::<Seq<char>>::empty());
            assert(join_lines(kk) =~= seq!['\n']);
            assert(base2 =~= seq!['\n']);
        }
        let l1 = kk + seq![start_marker()];
        let l2 = l1 + e;
        let l3 = l2 + seq![end_marker()];
        lemma_join_lines_concat(kk, seq![start_marker()]);
        lemma_join_lines_concat(l1, e);
        lemma_join_lines_concat(l2, seq![end_marker()]);
        assert(seq![start_marker()].drop_first() =~= Seq::<Seq<char>>::empty());
        assert(join_lines(seq![start_marker()]) == start_marker() + seq!['\n'] + join_lines(
            seq![start_marker()].drop_first(),
        ));
        assert(join_lines(seq![start_marker()]) =~= start_marker() + seq!['\n']);
        assert(seq![end_marker()].drop_first() =~= Seq::<Seq<char>>::empty());
        assert(join_lines(seq![end_marker()]) == end_marker() + seq!['\n'] + join_lines(
            seq![end_marker()].drop_first(),
        ));
        assert(join_lines(seq![end_marker()]) =~= end_marker() + seq!['\n']);
        assert(join_lines(l3) =~= base2 + start_marker() + seq!['\n'] + join_lines(e)
            + end_marker() + seq!['\n']);
        assert(rebuild_spec(c, e) == join_lines(l3));
        assert forall|i: int| 0 <= i < l3.len() implies !(#[trigger] l3[i]).contains('\n') by {
            if i < kk.len() {
                assert(l3[i] == kk[i]);
                if base.len() == 0 {
                    assert(kk[i] =~= Seq::<char>::empty());
                    if kk[i].contains('\n') {
                        let w = choose|w: int| 0 <= w < kk[i].len() && kk[i][w] == '\n';
                    }
                }
            } else if i == kk.len() {
                assert(l3[i] == start_marker());
            } else if i < kk.len() + 1 + e.len() {
                assert(l3[i] == e[i - kk.len() - 1]);
            } else {
                assert(l3[i] == end_marker());
            }
        }
        lemma_line_split_of_join(l3, Seq::<char>::empty());
        assert(join_lines(l3) + Seq::<char>::empty() =~= join_lines(l3));
        assert(line_split(Seq::<char>::empty()) =~= Seq::<Seq<char>>::empty());
        let m3 = l3.map_values(f);
        assert(line_split(rebuild_spec(c, e)) =~= m3);
        let kprefix = if base.len() > 0 {
            k2
        } else {
            seq![Seq::<char>::empty()]
        };
        let rest = seq![start_marker()] + e + seq![end_marker()];
        assert forall|i: int| 0 <= i < m3.len() implies m3[i] == (kprefix + rest)[i] by {
            assert(m3[i] == f(l3[i]));
            if i < kk.len() {
                assert(l3[i] == kk[i]);
                if base.len() > 0 {
                    assert((kprefix + rest)[i] == k2[i]);
                    assert(k2[i] == f(kept[i]));
                } else {
                    assert(kk[i] =~= Seq::<char>::empty());
                    assert(f(kk[i]) =~= Seq::<char>::empty());
                }
            } else if i == kk.len() {
                assert(l3[i] == start_marker());
                assert(f(start_marker()) == start_marker());
                assert((kprefix + rest)[i] == rest[0]);
            } else if i < kk.len() + 1 + e.len() {
                let j = i - kk.len() - 1;
                assert(l3[i] == e[j]);
                assert(wf_entry(e[j]));
                lemma_trimmed_has_no_trailing_cr(e[j]);
                assert(f(e[j]) == e[j]);
                assert((kprefix + rest)[i] == rest[i - kprefix.len()]);
                assert(rest[j + 1] == e[j]);
            } else {
                assert(l3[i] == end_marker());
                assert(f(end_marker()) == end_marker());
                assert((kprefix + rest)[i] == rest[rest.len() - 1]);
            }
        }
        assert(m3 =~= kprefix + rest);
        assert forall|i: int|
            0 <= i < kprefix.len() implies trim_spec(#[trigger] kprefix[i]) != start_marker()
            && trim_spec(kprefix[i]) != end_marker() by {
            if base.len() == 0 {
                assert(kprefix[i] =~= Seq::<char>::empty());
                assert(trim_spec(Seq::<char>::empty()).len() == 0);
            }
        }
        lemma_managed_entries_ignore_prefix(kprefix, rest);
        assert(rest[0] == start_marker());
        assert(trim_spec(rest[0]) == start_marker());
        assert(rest.drop_first() =~= e + seq![end_marker()]);
        assert(managed_entries(rest, false) == managed_entries(rest.drop_first(), true));
        lemma_managed_entries_of_block(e);
        lemma_strip_managed_prefix(kprefix, rest);
        lemma_strip_managed_block(e);
        assert(strip_managed(line_split(rebuild_spec(c, e)), false) =~= kprefix);
        if kept.len() > 0 {
            lemma_join_lines_ends_with_newline(kept);
            assert(base.len() > 0);
            assert(kprefix == k2);
        } else {
            assert(base == Seq::<char>::empty());
            assert(kprefix == seq![Seq::<char>::empty()]);
        }
    }
}

proof fn lemma_trim_back_prefix(y: Seq<char>)
    ensures
        exists|b: int| 0 <= b <= y.len() && trim_back(y) == y.take(b),
    decreases y.len(),
{
    if y.len() > 0 && is_blank(y.last()) {
        lemma_trim_back_prefix(y.drop_last());
        let b = choose|b: int|
            0 <= b <= y.drop_last().len() && trim_back(y.drop_last()) == y.drop_last().take(b);
        assert(y.drop_last().take(b) =~= y.take(b));
    } else {
        assert(y.take(y.len() as int) =~= y);
    }
}

proof fn lemma_trim_front_head(x: Seq<char>)
    ensures
        trim_front(x).len() > 0 ==> !is_blank(trim_front(x)[0]),
    decreases x.len(),
{
    if x.len() > 0 && is_blank(x[0]) {
        lemma_trim_front_head(x.drop_first());
    }
}

proof fn lemma_trim_back_last(y: Seq<char>)
    ensures
        trim_back(y).len() > 0 ==> !is_blank(trim_back(y).last()),
    decreases y.len(),
{
    if y.len() > 0 && is_blank(y.last()) {
        lemma_trim_back_last(y.drop_last());
    }
}

/// Trimming is idempotent, and a trimmed line of a newline-free line
/// is newline-free.
proof fn lemma_trim_spec_shape(l: Seq<char>)
    ensures
        trim_spec(trim_spec(l)) == trim_spec(l),
        !l.contains('\n') ==> !trim_spec(l).contains('\n'),
{
    let tf = trim_front(l);
    let x = trim_spec(l);
    lemma_trim_front_suffix(l);
    lemma_trim_back_prefix(tf);
    let a = choose|a: int| 0 <= a <= l.len() && trim_front(l) == l.skip(a);
    let b = choose|b: int| 0 <= b <= tf.len() && trim_back(tf) == tf.take(b);
    assert(x == tf.take(b));
    assert(x =~= l.subrange(a, a + b));
    if !l.contains('\n') {
        assert(!x.contains('\n')) by {
            if x.contains('\n') {
                let w = choose|w: int| 0 <= w < x.len() && x[w] == '\n';
                assert(x[w] == l[a + w]);
                assert(l.contains('\n'));
            }
        }
    }
    if x.len() == 0 {
        assert(trim_front(x) == x);
        assert(trim_back(x) == x);
    } else {
        lemma_trim_front_head(l);
        assert(x[0] == tf[0]);
        assert(tf.len() > 0);
        assert(!is_blank(x[0]));
        assert(trim_front(x) == x);
        lemma_trim_back_last(tf);
        assert(trim_back(x) == x);
    }
}

/// Every entry the parse yields is itself a well-formed entry, ready
/// to be written back.
proof fn lemma_managed_entries_are_wf(ls: Seq<Seq<char>>, in_section: bool)
    requires
        forall|i: int| 0 <= i < ls.len() ==> !(#[trigger] ls[i]).contains('\n'),
    ensures
        forall|i: int|
            0 <= i < managed_entries(ls, in_section).len() ==> wf_entry(
                #[trigger] managed_entries(ls, in_section)[i],
            ),
    decreases ls.len(),
{
    if ls.len() == 0 {
    } else {
        let rest = ls.drop_first();
        assert(forall|i: int| 0 <= i < rest.len() ==> rest[i] == ls[i + 1]);
        let t = trim_spec(ls[0]);
        if t == start_marker() {
            lemma_managed_entries_are_wf(rest, true);
            assert(managed_entries(ls, in_section) == managed_entries(rest, true));
        } else if t == end_marker() {
            lemma_managed_entries_are_wf(rest, false);
            assert(managed_entries(ls, in_section) == managed_entries(rest, false));
        } else if in_section && t.len() > 0 && t[0] != '#' {
            lemma_managed_entries_are_wf(rest, in_section);
            lemma_trim_spec_shape(ls[0]);
            assert(wf_entry(t));
            let out = managed_entries(ls, in_section);
            assert(out == seq![t] + managed_entries(rest, in_section));
            assert forall|i: int| 0 <= i < out.len() implies wf_entry(#[trigger] out[i]) by {
                if i == 0 {
                    assert(out[0] == t);
                } else {
                    assert(out[i] == managed_entries(rest, in_section)[i - 1]);
                }
            }
        } else {
            lemma_managed_entries_are_wf(rest, in_section);
            assert(managed_entries(ls, in_section) == managed_entries(rest, in_section));
        }
    }
}

/// Adding a target appends exactly one root-anchored entry to the
/// managed block, or leaves the block alone when either form of the
/// target already stands there.
pub proof fn lemma_add_then_parse(c: Seq<char>, target: Seq<char>)
    requires
        wf_entry(seq!['/'] + target),
    ensures
        ({
            let e = managed_entries(line_split(c), false);
            let anchored = seq!['/'] + target;
            managed_entries(line_split(add_ignore_spec(c, target)), false) == if e.contains(
                anchored,
            ) || e.contains(target) {
                e
            } else {
                e.push(anchored)
            }
        }),
{
    let e = managed_entries(line_split(c), false);
    let anchored = seq!['/'] + target;
    lemma_line_split_lines_have_no_newline(c);
    lemma_managed_entries_are_wf(line_split(c), false);
    if e.contains(anchored) || e.contains(target) {
        assert(add_ignore_spec(c, target) == c);
    } else {
        assert(add_ignore_spec(c, target) == rebuild_spec(c, e.push(anchored)));
        assert forall|i: int|
            0 <= i < e.push(anchored).len() implies wf_entry(#[trigger] e.push(anchored)[i]) by {
            if i < e.len() {
                assert(e.push(anchored)[i] == e[i]);
            } else {
                assert(e.push(anchored)[i] == anchored);
            }
        }
        lemma_rebuild_then_parse(c, e.push(anchored));
    }
}

/// After a target is added, the managed block names it in its
/// root-anchored form, and every line outside the block is kept:
/// either the text comes back unchanged (the entry was already
/// there), or the lines outside the block stand as before, normalized
/// only by dropping trailing carriage returns, with one blank
/// separator line when there were no other lines at all.  The target
/// must be block-carriable (no edge whitespace, no newline) and not
/// already present in the legacy bare form; with a bare entry present
/// the add is skipped, as the block already covers the target.
pub proof fn lemma_add_keeps_target(c: Seq<char>, target: Seq<char>)
    requires
        wf_entry(seq!['/'] + target),
        !managed_entries(line_split(c), false).contains(target),
    ensures
        managed_entries(line_split(add_ignore_spec(c, target)), false).contains(
            seq!['/'] + target,
        ),
        ({
            let kept = strip_managed(line_split(c), false);
            let outside = strip_managed(line_split(add_ignore_spec(c, target)), false);
            ||| add_ignore_spec(c, target) == c
            ||| (kept.len() > 0 && outside == kept.map_values(|l: Seq<char>| strip_cr(l)))
            ||| (kept.len() == 0 && outside == seq![Seq::<char>::empty()])
        }),
{
    let e = managed_entries(line_split(c), false);
    let anchored = seq!['/'] + target;
    lemma_add_then_parse(c, target);
    if e.contains(anchored) {
        assert(managed_entries(line_split(add_ignore_spec(c, target)), false) == e);
        assert(add_ignore_spec(c, target) == c);
    } else {
        let after = e.push(anchored);
        assert(after[e.len() as int] == anchored);
        assert(after.contains(anchored));
        lemma_line_split_lines_have_no_newline(c);
        lemma_managed_entries_are_wf(line_split(c), false);
        assert forall|i: int| 0 <= i < after.len() implies wf_entry(#[trigger] after[i]) by {
            if i < e.len() {
                assert(after[i] == e[i]);
            } else {
                assert(after[i] == anchored);
            }
        }
        lemma_rebuild_then_parse(c, after);
        assert(add_ignore_spec(c, target) == rebuild_spec(c, after));
        assert(after.len() > 0);
    }
}

proof fn lemma_keep_entries_wf(e: Seq<Seq<char>>, a: Seq<char>, b: Seq<char>)
    requires
        forall|i: int| 0 <= i < e.len() ==> wf_entry(#[trigger] e[i]),
    ensures
        forall|i: int|
            0 <= i < keep_entries(e, a, b).len() ==> wf_entry(#[trigger] keep_entries(e, a, b)[i]),
    decreases e.len(),
{
    if e.len() == 0 {
    } else {
        let rest = e.drop_first();
        assert(forall|i: int| 0 <= i < rest.len() ==> rest[i] == e[i + 1]);
        lemma_keep_entries_wf(rest, a, b);
        if e[0] == a || e[0] == b {
            assert(keep_entries(e, a, b) == keep_entries(rest, a, b));
        } else {
            let out = keep_entries(e, a, b);
            assert(out == seq![e[0]] + keep_entries(rest, a, b));
            assert forall|i: int| 0 <= i < out.len() implies wf_entry(#[trigger] out[i]) by {
                if i == 0 {
                    assert(out[0] == e[0]);
                } else {
                    assert(out[i] == keep_entries(rest, a, b)[i - 1]);
                }
            }
        }
    }
}

/// What the removal filter keeps: neither dropped form ever survives,
/// and every other entry does, in order.
pub proof fn lemma_keep_entries_drops(e: Seq<Seq<char>>, a: Seq<char>, b: Seq<char>)
    ensures
        forall|i: int|
            0 <= i < keep_entries(e, a, b).len() ==> #[trigger] keep_entries(e, a, b)[i] != a
                && keep_entries(e, a, b)[i] != b,
        forall|x: Seq<char>|
            x != a && x != b ==> (#[trigger] keep_entries(e, a, b).contains(x) <==> e.contains(x)),
    decreases e.len(),
{
    if e.len() == 0 {
    } else {
        let rest = e.drop_first();
        assert(forall|i: int| 0 <= i < rest.len() ==> rest[i] == e[i + 1]);
        lemma_keep_entries_drops(rest, a, b);
        let kr = keep_entries(rest, a, b);
        if e[0] == a || e[0] == b {
            assert(keep_entries(e, a, b) == kr);
            assert forall|x: Seq<char>|
                x != a && x != b implies (#[trigger] keep_entries(e, a, b).contains(x)
                <==> e.contains(x)) by {
                if e.contains(x) {
                    let w = choose|w: int| 0 <= w < e.len() && e[w] == x;
                    assert(w != 0);
                    assert(rest[w - 1] == x);
                    assert(rest.contains(x));
                }
                if rest.contains(x) {
                    let w = choose|w: int| 0 <= w < rest.len() && rest[w] == x;
                    assert(e[w + 1] == x);
                    assert(e.contains(x));
                }
            }
        } else {
            let out = keep_entries(e, a, b);
            assert(out == seq![e[0]] + kr);
            assert forall|i: int|
                0 <= i < out.len() implies #[trigger] out[i] != a && out[i] != b by {
                if i == 0 {
                    assert(out[0] == e[0]);
                } else {
                    assert(out[i] == kr[i - 1]);
                }
            }
            assert forall|x: Seq<char>|
                x != a && x != b implies (#[trigger] out.contains(x) <==> e.contains(x)) by {
                if out.contains(x) {
                    let w = choose|w: int| 0 <= w < out.len() && out[w] == x;
                    if w == 0 {
                        assert(e[0] == x);
                        assert(e.contains(x));
                    } else {
                        assert(kr[w - 1] == x);
                        assert(kr.contains(x));
                        assert(rest.contains(x));
                        let u = choose|u: int| 0 <= u < rest.len() && rest[u] == x;
                        assert(e[u + 1] == x);
                        assert(e.contains(x));
                    }
                }
                if e.contains(x) {
                    let w = choose|w: int| 0 <= w < e.len() && e[w] == x;
                    if w == 0 {
                        assert(out[0] == x);
                        assert(out.contains(x));
                    } else {
                        assert(rest[w - 1] == x);
                        assert(rest.contains(x));
                        assert(kr.contains(x));
                        let u = choose|u: int| 0 <= u < kr.len() && kr[u] == x;
                        assert(out[u + 1] == x);
                        assert(out.contains(x));
                    }
                }
            }
        }
    }
}

/// Removing a target filters exactly its two forms out of the managed
/// block and keeps everything else: afterwards the block no longer
/// names the target.
pub proof fn lemma_remove_then_parse(c: Seq<char>, target: Seq<char>)
    ensures
        ({
            let e = managed_entries(line_split(c), false);
            let after = managed_entries(line_split(remove_ignore_spec(c, target)), false);
            &&& after == keep_entries(e, seq!['/'] + target, target)
            &&& !after.contains(seq!['/'] + target)
            &&& !after.contains(target)
        }),
{
    let e = managed_entries(line_split(c), false);
    let anchored = seq!['/'] + target;
    lemma_line_split_lines_have_no_newline(c);
    lemma_managed_entries_are_wf(line_split(c), false);
    lemma_keep_entries_wf(e, anchored, target);
    assert(remove_ignore_spec(c, target) == rebuild_spec(c, keep_entries(e, anchored, target)));
    lemma_rebuild_then_parse(c, keep_entries(e, anchored, target));
    lemma_keep_entries_drops(e, anchored, target);
    let after = keep_entries(e, anchored, target);
    assert(!after.contains(anchored)) by {
        if after.contains(anchored) {
            let w = choose|w: int| 0 <= w < after.len() && after[w] == anchored;
            assert(after[w] != anchored);
        }
    }
    assert(!after.contains(target)) by {
        if after.contains(target) {
            let w = choose|w: int| 0 <= w < after.len() && after[w] == target;
            assert(after[w] != target);
        }
    }
}

/// Text that initialization produced always carries the owned ignore
/// pattern, so initializing again changes nothing: the upsert is
/// idempotent.
pub proof fn lemma_ensure_gitignore_idempotent(c: Seq<char>)
    ensures
        crate::textutil::has_substring(ensure_gitignore_spec(c), "/.cloak/*"@),
        ensure_gitignore_spec(ensure_gitignore_spec(c)) == ensure_gitignore_spec(c),
{
    reveal_strlit("/.cloak/*");
    reveal_strlit("\n# --- Cloak ---\n/.cloak/*\n!/.cloak/storage/\n");
    let pat = "/.cloak/*"@;
    let out = ensure_gitignore_spec(c);
    if crate::textutil::has_substring(c, pat) {
        assert(out == c);
    } else {
        let block = cloak_block();
        assert(block.len() == 45);
        assert(pat.len() == 9);
        let c2 = out.subrange(0, out.len() - 45);
        assert(c2 + block =~= out);
        let at = c2.len() + 17;
        assert forall|j: int| 0 <= j < 9 implies #[trigger] out[at + j] == block[17 + j] by {}
        assert(out.subrange(at as int, at as int + 9) =~= pat) by {
            assert forall|j: int|
                0 <= j < 9 implies out.subrange(at as int, at as int + 9)[j] == pat[j] by {
                assert(out.subrange(at as int, at as int + 9)[j] == out[at + j]);
                assert(out[at + j] == block[17 + j]);
            }
        }
        assert(crate::textutil::match_at(out, pat, at as int));
        assert(crate::textutil::has_substring(out, pat));
    }
    assert(ensure_gitignore_spec(out) == out);
}

} // verus!
