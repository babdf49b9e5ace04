use vstd::prelude::*;
use vstd::string::StrSliceExecFns;

use crate::textutil::chars_eq;
use crate::textutil::chars_of;
use crate::textutil::contains_sub;
use crate::textutil::copy_range;
use crate::textutil::has_substring;
use crate::textutil::push_char;
use crate::textutil::push_chars;
use crate::textutil::string_from_chars;

verus! {

/// The line that opens the managed block of an ignore file.
pub open spec fn start_marker() -> Seq<char> {
    "# >>> cloak managed"@
}

/// The line that closes the managed block of an ignore file.
pub open spec fn end_marker() -> Seq<char> {
    "# <<< cloak managed"@
}

/// Index of the first newline in `s`; meaningful only when `s` holds
/// one.
pub open spec fn first_nl(s: Seq<char>) -> int
    decreases s.len(),
{
    if s.len() == 0 {
        0
    } else if s[0] == '\n' {
        0
    } else {
        1 + first_nl(s.drop_first())
    }
}

/// A line with one trailing carriage return removed: how a line read
/// from text with Windows line endings is normalized.
pub open spec fn strip_cr(l: Seq<char>) -> Seq<char> {
    if l.len() > 0 && l.last() == '\r' {
        l.drop_last()
    } else {
        l
    }
}

/// Text split at newlines into lines, each without its terminator and
/// without a carriage return before that terminator.  A final line
/// without a terminator is kept as it stands; a trailing newline does
/// not open an empty last line.
pub open spec fn line_split(s: Seq<char>) -> Seq<Seq<char>>
    decreases s.len(),
{
    if s.len() == 0 {
        Seq::empty()
    } else if !s.contains('\n') {
        seq![s]
    } else {
        let i = first_nl(s);
        if 0 <= i < s.len() {
            seq![strip_cr(s.subrange(0, i))] + line_split(s.subrange(i + 1, s.len() as int))
        } else {
            Seq::empty()
        }
    }
}

/// When the first newline of `t` stands at `k`, splitting starts with
/// the text before it.
pub proof fn lemma_first_nl_at(t: Seq<char>, k: int)
    requires
        0 <= k < t.len(),
        t[k] == '\n',
        forall|j: int| 0 <= j < k ==> t[j] != '\n',
    ensures
        t.contains('\n'),
        first_nl(t) == k,
    decreases k,
{
    assert(t.contains('\n')) by {
        assert(t[k] == '\n');
    }
    if k == 0 {
    } else {
        let t2 = t.drop_first();
        assert(t2[k - 1] == '\n');
        assert(forall|j: int| 0 <= j < k - 1 ==> t2[j] != '\n');
        lemma_first_nl_at(t2, k - 1);
    }
}

/// Whitespace for the purposes of line trimming in ignore files.
pub open spec fn is_blank(c: char) -> bool {
    c == ' ' || c == '\t' || c == '\r'
}

pub open spec fn trim_front(l: Seq<char>) -> Seq<char>
    decreases l.len(),
{
    if l.len() > 0 && is_blank(l[0]) {
        trim_front(l.drop_first())
    } else {
        l
    }
}

pub open spec fn trim_back(l: Seq<char>) -> Seq<char>
    decreases l.len(),
{
    if l.len() > 0 && is_blank(l.last()) {
        trim_back(l.drop_last())
    } else {
        l
    }
}

/// A line with leading and trailing whitespace removed.
pub open spec fn trim_spec(l: Seq<char>) -> Seq<char> {
    trim_back(trim_front(l))
}

pub proof fn lemma_trim_front_skip(l: Seq<char>, a: int)
    requires
        0 <= a <= l.len(),
        forall|j: int| 0 <= j < a ==> is_blank(l[j]),
        a < l.len() ==> !is_blank(l[a]),
    ensures
        trim_front(l) == l.skip(a),
    decreases a,
{
    if a == 0 {
        assert(l.skip(0) =~= l);
    } else {
        let l2 = l.drop_first();
        assert(is_blank(l[0]));
        assert(forall|j: int| 0 <= j < a - 1 ==> is_blank(l2[j]));
        lemma_trim_front_skip(l2, a - 1);
        assert(l2.skip(a - 1) =~= l.skip(a));
    }
}

pub proof fn lemma_trim_back_take(l: Seq<char>, b: int)
    requires
        0 <= b <= l.len(),
        forall|j: int| b <= j < l.len() ==> is_blank(l[j]),
        b > 0 ==> !is_blank(l[b - 1]),
    ensures
        trim_back(l) == l.take(b),
    decreases l.len() - b,
{
    if b == l.len() {
        assert(l.take(b) =~= l);
        if l.len() > 0 {
            assert(!is_blank(l.last()));
        }
    } else {
        assert(is_blank(l.last()));
        let l2 = l.drop_last();
        assert(forall|j: int| b <= j < l2.len() ==> is_blank(l2[j]));
        lemma_trim_back_take(l2, b);
        assert(l2.take(b) =~= l.take(b));
    }
}

/// Trimming cuts a line down to the span from its first to its last
/// non-blank character.
pub proof fn lemma_trim_span(l: Seq<char>, a: int, b: int)
    requires
        0 <= a <= b <= l.len(),
        forall|j: int| 0 <= j < a ==> is_blank(l[j]),
        forall|j: int| b <= j < l.len() ==> is_blank(l[j]),
        a < b ==> !is_blank(l[a]) && !is_blank(l[b - 1]),
    ensures
        a < b ==> trim_spec(l) == l.subrange(a, b),
        a == l.len() ==> trim_spec(l) == Seq::<char>::empty(),
{
    if a < b {
        lemma_trim_front_skip(l, a);
        let m = l.skip(a);
        assert(forall|j: int| b - a <= j < m.len() ==> is_blank(m[j]));
        assert(!is_blank(m[b - a - 1]));
        lemma_trim_back_take(m, b - a);
        assert(m.take(b - a) =~= l.subrange(a, b));
    } else if a == l.len() {
        lemma_trim_front_skip(l, a);
        assert(l.skip(a) =~= Seq::<char>::empty());
        assert(trim_back(Seq::<char>::empty()) =~= Seq::<char>::empty());
    }
}

/// Whether `c` counts as whitespace when lines are trimmed.
pub fn is_blank_char(c: char) -> (r: bool)
    ensures
        r == is_blank(c),
{
    c == ' ' || c == '\t' || c == '\r'
}

/// Trim leading and trailing whitespace from a line.
pub fn trim_chars(l: &Vec<char>) -> (r: Vec<char>)
    ensures
        r@ == trim_spec(l@),
{
    let mut a: usize = 0;
    while a < l.len() && is_blank_char(l[a])
        invariant
            a <= l@.len(),
            forall|j: int| 0 <= j < a ==> is_blank(l@[j]),
        decreases l@.len() - a,
    {
        a += 1;
    }
    if a == l.len() {
        proof {
            lemma_trim_span(l@, a as int, a as int);
        }
        return Vec::new();
    }
    let mut b: usize = l.len();
    while b > a && is_blank_char(l[b - 1])
        invariant
            a <= b <= l@.len(),
            forall|j: int| b <= j < l@.len() ==> is_blank(l@[j]),
        decreases b,
    {
        b -= 1;
    }
    proof {
        assert(a < b) by {
            if b == a {
                assert(is_blank(l@[a as int]));
            }
        }
        lemma_trim_span(l@, a as int, b as int);
    }
    copy_range(l, a, b)
}

/// Split text into lines, as `line_split` describes.
pub fn split_lines(v: &Vec<char>) -> (r: Vec<Vec<char>>)
    ensures
        r.deep_view() == line_split(v@),
{
    let mut r: Vec<Vec<char>> = Vec::new();
    let mut start: usize = 0;
    let mut i: usize = 0;
    proof {
        assert(v@.skip(0) =~= v@);
        assert(r.deep_view() =~= Seq::<Seq<char>>::empty());
        assert(r.deep_view() + line_split(v@) =~= line_split(v@));
    }
    while i < v.len()
        invariant
            start <= i <= v@.len(),
            line_split(v@) == r.deep_view() + line_split(v@.skip(start as int)),
            forall|k: int| start <= k < i ==> v@[k] != '\n',
        decreases v@.len() - i,
    {
        if v[i] == '\n' {
            let ghost t = v@.skip(start as int);
            proof {
                assert(t[i - start] == '\n');
                assert(forall|j: int| 0 <= j < i - start ==> t[j] != '\n');
                lemma_first_nl_at(t, i - start);
                assert(t.subrange(0, i - start) =~= v@.subrange(start as int, i as int));
                assert(t.subrange(i - start + 1, t.len() as int) =~= v@.skip(i + 1));
            }
            let line = if i > start && v[i - 1] == '\r' {
                let ghost pre = v@.subrange(start as int, i as int);
                let c = copy_range(v, start, i - 1);
                proof {
                    assert(pre.last() == '\r');
                    assert(pre.drop_last() =~= v@.subrange(start as int, i - 1));
                    assert(c@ == strip_cr(pre));
                }
                c
            } else {
                let ghost pre = v@.subrange(start as int, i as int);
                let c = copy_range(v, start, i);
                proof {
                    if pre.len() > 0 {
                        assert(pre.last() == v@[i - 1]);
                    }
                    assert(c@ == strip_cr(pre));
                }
                c
            };
            let ghost old_r = r.deep_view();
            r.push(line);
            proof {
                assert(r.deep_view() =~~= old_r.push(line@));
                assert(line_split(t) == seq![strip_cr(t.subrange(0, i - start))] + line_split(
                    v@.skip(i + 1),
                ));
                assert(line@ == strip_cr(t.subrange(0, i - start)));
                assert(old_r.push(line@) =~= old_r + seq![line@]);
                assert(r.deep_view() + line_split(v@.skip(i + 1)) =~= old_r + line_split(t));
            }
            start = i + 1;
        }
        i += 1;
    }
    if start < v.len() {
        let ghost t = v@.skip(start as int);
        proof {
            assert(forall|j: int| 0 <= j < t.len() ==> t[j] != '\n');
            assert(!t.contains('\n')) by {
                if t.contains('\n') {
                    let w = choose|w: int| 0 <= w < t.len() && t[w] == '\n';
                    assert(t[w] != '\n');
                }
            }
            assert(line_split(t) == seq![t]);
        }
        let line = copy_range(v, start, v.len());
        let ghost old_r = r.deep_view();
        r.push(line);
        proof {
            assert(line@ =~= t);
            assert(r.deep_view() =~~= old_r.push(line@));
            assert(old_r.push(line@) =~= old_r + seq![t]);
        }
    } else {
        proof {
            assert(v@.skip(start as int) =~= Seq::<char>::empty());
            assert(line_split(v@.skip(start as int)) =~= Seq::<Seq<char>>::empty());
        }
    }
    proof {
        assert(r.deep_view() =~= line_split(v@));
    }
    r
}

/// The entries of the managed block: trimmed lines between the two
/// markers that are neither empty nor comments.  The flag carries
/// whether the walk currently stands inside the block.
pub open spec fn managed_entries(lines: Seq<Seq<char>>, in_section: bool) -> Seq<Seq<char>>
    decreases lines.len(),
{
    if lines.len() == 0 {
        Seq::empty()
    } else {
        let t = trim_spec(lines[0]);
        let rest = lines.drop_first();
        if t == start_marker() {
            managed_entries(rest, true)
        } else if t == end_marker() {
            managed_entries(rest, false)
        } else if in_section && t.len() > 0 && t[0] != '#' {
            seq![t] + managed_entries(rest, in_section)
        } else {
            managed_entries(rest, in_section)
        }
    }
}

/// The lines that survive a rebuild: everything outside the managed
/// block, the markers themselves excluded.
pub open spec fn strip_managed(lines: Seq<Seq<char>>, in_section: bool) -> Seq<Seq<char>>
    decreases lines.len(),
{
    if lines.len() == 0 {
        Seq::empty()
    } else {
        let t = trim_spec(lines[0]);
        let rest = lines.drop_first();
        if t == start_marker() {
            strip_managed(rest, true)
        } else if t == end_marker() {
            strip_managed(rest, false)
        } else if in_section {
            strip_managed(rest, true)
        } else {
            seq![lines[0]] + strip_managed(rest, false)
        }
    }
}

/// Lines joined back into text, each closed by a newline.
pub open spec fn join_lines(lines: Seq<Seq<char>>) -> Seq<char>
    decreases lines.len(),
{
    if lines.len() == 0 {
        Seq::empty()
    } else {
        lines[0] + seq!['\n'] + join_lines(lines.drop_first())
    }
}

pub proof fn lemma_join_push(s: Seq<Seq<char>>, x: Seq<char>)
    ensures
        join_lines(s.push(x)) == join_lines(s) + x + seq!['\n'],
    decreases s.len(),
{
    if s.len() == 0 {
        assert(s.push(x)[0] == x);
        assert(s.push(x).drop_first() =~= Seq::<Seq<char>>::empty());
        assert(join_lines(s.push(x)) == x + seq!['\n'] + join_lines(s.push(x).drop_first()));
        assert(join_lines(s.push(x).drop_first()) == Seq::<char>::empty());
        assert(join_lines(s) == Seq::<char>::empty());
        assert(join_lines(s.push(x)) =~= join_lines(s) + x + seq!['\n']);
    } else {
        assert(s.push(x)[0] == s[0]);
        assert(s.push(x).drop_first() =~= s.drop_first().push(x));
        lemma_join_push(s.drop_first(), x);
        assert(join_lines(s.push(x)) == s[0] + seq!['\n'] + join_lines(s.drop_first().push(x)));
        assert(join_lines(s) == s[0] + seq!['\n'] + join_lines(s.drop_first()));
        assert(join_lines(s.push(x)) =~= join_lines(s) + x + seq!['\n']);
    }
}

/// The whole ignore file after its managed block is replaced: the kept
/// lines rejoined and, when there are entries, a newline-terminated
/// base followed by the freshly written block.
pub open spec fn rebuild_spec(content: Seq<char>, entries: Seq<Seq<char>>) -> Seq<char> {
    let kept = strip_managed(line_split(content), false);
    let base = join_lines(kept);
    if entries.len() == 0 {
        base
    } else {
        let base2 = if base.len() > 0 && base.last() == '\n' {
            base
        } else {
            base + seq!['\n']
        };
        base2 + start_marker() + seq!['\n'] + join_lines(entries) + end_marker() + seq!['\n']
    }
}

/// Extract the entries of the managed block from ignore-file text.
pub fn parse_managed_section(content: &str) -> (r: Vec<String>)
    ensures
        r.deep_view() == managed_entries(line_split(content@), false),
{
    let v = chars_of(content);
    let lines = split_lines(&v);
    let ghost bl: Seq<Seq<char>> = lines.deep_view();
    let start_pat = chars_of("# >>> cloak managed");
    let end_pat = chars_of("# <<< cloak managed");
    let mut acc: Vec<String> = Vec::new();
    let mut in_section = false;
    let mut i: usize = 0;
    proof {
        assert(bl.skip(0) =~= bl);
        assert(acc.deep_view() =~= Seq::<Seq<char>>::empty());
        assert(acc.deep_view() + managed_entries(bl, false) =~= managed_entries(bl, false));
    }
    while i < lines.len()
        invariant
            i <= lines@.len(),
            bl == lines.deep_view(),
            bl.len() == lines@.len(),
            start_pat@ == start_marker(),
            end_pat@ == end_marker(),
            managed_entries(bl, false) == acc.deep_view() + managed_entries(
                bl.skip(i as int),
                in_section,
            ),
        decreases lines@.len() - i,
    {
        proof {
            assert(bl[i as int] =~= lines@[i as int]@);
            assert(bl.skip(i as int)[0] == bl[i as int]);
            assert(bl.skip(i as int).drop_first() =~= bl.skip(i + 1));
        }
        let t = trim_chars(&lines[i]);
        if chars_eq(&t, &start_pat) {
            in_section = true;
        } else if chars_eq(&t, &end_pat) {
            in_section = false;
        } else if in_section && t.len() > 0 && t[0] != '#' {
            let ghost old_acc = acc.deep_view();
            let entry = string_from_chars(&t);
            acc.push(entry);
            proof {
                assert(acc.deep_view() =~~= old_acc.push(t@));
                assert(old_acc.push(t@) + managed_entries(bl.skip(i + 1), in_section) =~= old_acc
                    + (seq![t@] + managed_entries(bl.skip(i + 1), in_section)));
            }
        }
        i += 1;
    }
    proof {
        assert(bl.skip(bl.len() as int) =~= Seq::<Seq<char>>::empty());
        assert(acc.deep_view() + managed_entries(bl.skip(bl.len() as int), in_section)
            =~= acc.deep_view());
    }
    acc
}

/// Rewrite ignore-file text, replacing the whole managed block with
/// the given entries; with no entries the block is dropped.
pub fn rebuild_gitignore(content: &str, entries: &Vec<String>) -> (r: String)
    ensures
        r@ == rebuild_spec(content@, entries.deep_view()),
{
    let v = chars_of(content);
    let lines = split_lines(&v);
    let ghost bl: Seq<Seq<char>> = lines.deep_view();
    let start_pat = chars_of("# >>> cloak managed");
    let end_pat = chars_of("# <<< cloak managed");
    let mut out: Vec<char> = Vec::new();
    let mut in_section = false;
    let mut i: usize = 0;
    proof {
        assert(bl.skip(0) =~= bl);
        assert(out@ + join_lines(strip_managed(bl, false)) =~= join_lines(
            strip_managed(bl, false),
        ));
    }
    while i < lines.len()
        invariant
            i <= lines@.len(),
            bl == lines.deep_view(),
            bl.len() == lines@.len(),
            start_pat@ == start_marker(),
            end_pat@ == end_marker(),
            join_lines(strip_managed(bl, false)) == out@ + join_lines(
                strip_managed(bl.skip(i as int), in_section),
            ),
        decreases lines@.len() - i,
    {
        proof {
            assert(bl[i as int] =~= lines@[i as int]@);
            assert(bl.skip(i as int)[0] == bl[i as int]);
            assert(bl.skip(i as int).drop_first() =~= bl.skip(i + 1));
        }
        let t = trim_chars(&lines[i]);
        if chars_eq(&t, &start_pat) {
            in_section = true;
        } else if chars_eq(&t, &end_pat) {
            in_section = false;
        } else if in_section {
        } else {
            let ghost old_out = out@;
            let ghost tail = strip_managed(bl.skip(i + 1), false);
            push_chars(&mut out, &lines[i]);
            out.push('\n');
            proof {
                assert(strip_managed(bl.skip(i as int), false) == seq![bl[i as int]] + tail);
                assert((seq![bl[i as int]] + tail)[0] == bl[i as int]);
                assert((seq![bl[i as int]] + tail).drop_first() =~= tail);
                assert(join_lines(seq![bl[i as int]] + tail) == bl[i as int] + seq!['\n']
                    + join_lines(tail));
                assert(out@ =~= old_out + bl[i as int] + seq!['\n']);
                assert(out@ + join_lines(tail) =~= old_out + join_lines(
                    strip_managed(bl.skip(i as int), false),
                ));
            }
        }
        i += 1;
    }
    proof {
        assert(bl.skip(bl.len() as int) =~= Seq::<Seq<char>>::empty());
        assert(out@ + join_lines(strip_managed(bl.skip(bl.len() as int), in_section)) =~= out@);
    }
    let ghost base = out@;
    if entries.len() == 0 {
        proof {
            assert(entries.deep_view().len() == 0);
        }
        return string_from_chars(&out);
    }
    proof {
        assert(entries.deep_view().len() == entries@.len());
    }
    if out.len() == 0 || out[out.len() - 1] != '\n' {
        out.push('\n');
        proof {
            assert(out@ =~= base + seq!['\n']);
            if base.len() > 0 {
                assert(base.last() == base[base.len() - 1]);
            }
        }
    }
    let ghost base2 = out@;
    push_chars(&mut out, &start_pat);
    out.push('\n');
    let ghost head = out@;
    proof {
        assert(head =~= base2 + start_marker() + seq!['\n']);
        assert(entries.deep_view().take(0) =~= Seq::<Seq<char>>::empty());
        assert(head + join_lines(entries.deep_view().take(0)) =~= head);
    }
    let mut j: usize = 0;
    while j < entries.len()
        invariant
            j <= entries@.len(),
            entries.deep_view().len() == entries@.len(),
            out@ == head + join_lines(entries.deep_view().take(j as int)),
        decreases entries@.len() - j,
    {
        let ghost e = entries.deep_view();
        let ghost old_out = out@;
        let line = chars_of(entries[j].as_str());
        push_chars(&mut out, &line);
        out.push('\n');
        proof {
            assert(e[j as int] == entries@[j as int]@);
            assert(e.take(j + 1) =~= e.take(j as int).push(e[j as int]));
            lemma_join_push(e.take(j as int), e[j as int]);
            assert(out@ =~= old_out + e[j as int] + seq!['\n']);
            assert(out@ =~= head + join_lines(e.take(j + 1)));
        }
        j += 1;
    }
    proof {
        assert(entries.deep_view().take(entries@.len() as int) =~= entries.deep_view());
    }
    push_chars(&mut out, &end_pat);
    out.push('\n');
    proof {
        assert(out@ =~= base2 + start_marker() + seq!['\n'] + join_lines(entries.deep_view())
            + end_marker() + seq!['\n']);
    }
    string_from_chars(&out)
}

/// The managed entries with both forms of one target dropped: the
/// root-anchored form and the legacy bare form.
pub open spec fn keep_entries(e: Seq<Seq<char>>, anchored: Seq<char>, bare: Seq<char>) -> Seq<
    Seq<char>,
>
    decreases e.len(),
{
    if e.len() == 0 {
        Seq::empty()
    } else if e[0] == anchored || e[0] == bare {
        keep_entries(e.drop_first(), anchored, bare)
    } else {
        seq![e[0]] + keep_entries(e.drop_first(), anchored, bare)
    }
}

/// Ignore-file text after a target is added to the managed block: the
/// root-anchored entry is appended unless either form of the target
/// already stands there, in which case the text is returned unchanged.
pub open spec fn add_ignore_spec(c: Seq<char>, target: Seq<char>) -> Seq<char> {
    let e = managed_entries(line_split(c), false);
    let anchored = seq!['/'] + target;
    if e.contains(anchored) || e.contains(target) {
        c
    } else {
        rebuild_spec(c, e.push(anchored))
    }
}

/// Ignore-file text after a target is removed from the managed block,
/// in both its root-anchored and its legacy bare form.
pub open spec fn remove_ignore_spec(c: Seq<char>, target: Seq<char>) -> Seq<char> {
    let e = managed_entries(line_split(c), false);
    rebuild_spec(c, keep_entries(e, seq!['/'] + target, target))
}

/// Add a target to the managed block of ignore-file text.  Entries are
/// root-anchored so only the link at the project root is ignored, not
/// nested occurrences; an entry already present, in either form, is
/// not duplicated.
pub fn add_ignore_entry(content: &str, target: &str) -> (r: String)
    ensures
        r@ == add_ignore_spec(content@, target@),
{
    let mut entries = parse_managed_section(content);
    let ghost e = entries.deep_view();
    let mut anchored = String::new();
    push_char(&mut anchored, '/');
    anchored.append(target);
    proof {
        assert(anchored@ =~= seq!['/'] + target@);
    }
    let bare = target.to_owned();
    let mut k: usize = 0;
    while k < entries.len()
        invariant
            k <= entries@.len(),
            e == entries.deep_view(),
            e == managed_entries(line_split(content@), false),
            e.len() == entries@.len(),
            anchored@ == seq!['/'] + target@,
            bare@ == target@,
            forall|j: int| 0 <= j < k ==> #[trigger] e[j] != anchored@ && e[j] != bare@,
        decreases entries@.len() - k,
    {
        proof {
            assert(e[k as int] == entries@[k as int]@);
        }
        if entries[k] == anchored {
            proof {
                assert(e[k as int] == anchored@);
                assert(e.contains(anchored@));
            }
            return content.to_owned();
        }
        if entries[k] == bare {
            proof {
                assert(e[k as int] == bare@);
                assert(e.contains(bare@));
            }
            return content.to_owned();
        }
        k += 1;
    }
    proof {
        assert(!e.contains(anchored@)) by {
            if e.contains(anchored@) {
                let w = choose|w: int| 0 <= w < e.len() && e[w] == anchored@;
                assert(e[w] != anchored@);
            }
        }
        assert(!e.contains(bare@)) by {
            if e.contains(bare@) {
                let w = choose|w: int| 0 <= w < e.len() && e[w] == bare@;
                assert(e[w] != bare@);
            }
        }
    }
    entries.push(anchored);
    proof {
        assert(entries.deep_view() =~~= e.push(seq!['/'] + target@));
    }
    rebuild_gitignore(content, &entries)
}

/// Remove a target from the managed block of ignore-file text, in both
/// its root-anchored and its legacy bare form.
pub fn remove_ignore_entry(content: &str, target: &str) -> (r: String)
    ensures
        r@ == remove_ignore_spec(content@, target@),
{
    let entries = parse_managed_section(content);
    let ghost e = entries.deep_view();
    let mut anchored = String::new();
    push_char(&mut anchored, '/');
    anchored.append(target);
    proof {
        assert(anchored@ =~= seq!['/'] + target@);
    }
    let bare = target.to_owned();
    let mut kept: Vec<String> = Vec::new();
    let mut k: usize = 0;
    proof {
        assert(e.skip(0) =~= e);
        assert(kept.deep_view() =~= Seq::<Seq<char>>::empty());
        assert(kept.deep_view() + keep_entries(e, anchored@, bare@) =~= keep_entries(
            e,
            anchored@,
            bare@,
        ));
    }
    while k < entries.len()
        invariant
            k <= entries@.len(),
            e == entries.deep_view(),
            e.len() == entries@.len(),
            anchored@ == seq!['/'] + target@,
            bare@ == target@,
            keep_entries(e, anchored@, bare@) == kept.deep_view() + keep_entries(
                e.skip(k as int),
                anchored@,
                bare@,
            ),
        decreases entries@.len() - k,
    {
        proof {
            assert(e[k as int] == entries@[k as int]@);
            assert(e.skip(k as int)[0] == e[k as int]);
            assert(e.skip(k as int).drop_first() =~= e.skip(k + 1));
        }
        if entries[k] == anchored || entries[k] == bare {
        } else {
            let ghost old_kept = kept.deep_view();
            kept.push(entries[k].clone());
            proof {
                assert(kept.deep_view() =~~= old_kept.push(e[k as int]));
                assert(old_kept.push(e[k as int]) + keep_entries(e.skip(k + 1), anchored@, bare@)
                    =~= old_kept + (seq![e[k as int]] + keep_entries(
                    e.skip(k + 1),
                    anchored@,
                    bare@,
                )));
            }
        }
        k += 1;
    }
    proof {
        assert(e.skip(e.len() as int) =~= Seq::<Seq<char>>::empty());
        assert(kept.deep_view() + keep_entries(e.skip(e.len() as int), anchored@, bare@)
            =~= kept.deep_view());
    }
    rebuild_gitignore(content, &kept)
}

/// The ignore rules this tool owns: everything under the reserved
/// directory is ignored except the storage subdirectory, so real
/// configs inside storage can still be committed.
pub open spec fn cloak_block() -> Seq<char> {
    "\n# --- Cloak ---\n/.cloak/*\n!/.cloak/storage/\n"@
}

/// Whether a line belongs to the legacy ignore rules that an earlier
/// layout wrote and a migration drops.
pub open spec fn is_legacy_line(l: Seq<char>) -> bool {
    trim_spec(l) == ".cloak/"@ || trim_spec(l) == "/.cloak/"@ || trim_spec(l)
        == "# Cloak storage"@
}

/// The lines of an ignore file with the legacy rules dropped.
pub open spec fn keep_nonlegacy(lines: Seq<Seq<char>>) -> Seq<Seq<char>>
    decreases lines.len(),
{
    if lines.len() == 0 {
        Seq::empty()
    } else if is_legacy_line(lines[0]) {
        keep_nonlegacy(lines.drop_first())
    } else {
        seq![lines[0]] + keep_nonlegacy(lines.drop_first())
    }
}

/// Ignore-file text with the legacy rules dropped and a trailing
/// newline restored.
pub open spec fn migrate_legacy(c: Seq<char>) -> Seq<char> {
    let j = join_lines(keep_nonlegacy(line_split(c)));
    if j.len() == 0 {
        seq!['\n']
    } else {
        j
    }
}

/// Ignore-file text after initialization: unchanged when the owned
/// rules are already there; otherwise any legacy rules are migrated
/// away and the owned block is appended after a newline.
pub open spec fn ensure_gitignore_spec(c: Seq<char>) -> Seq<char> {
    if has_substring(c, "/.cloak/*"@) {
        c
    } else {
        let c1 = if has_substring(c, ".cloak/"@) {
            migrate_legacy(c)
        } else {
            c
        };
        let c2 = if c1.len() > 0 && c1.last() != '\n' {
            c1 + seq!['\n']
        } else {
            c1
        };
        c2 + cloak_block()
    }
}

/// Bring ignore-file text up to date with the rules this tool owns:
/// ignore the reserved directory but keep its storage subdirectory
/// committable, migrating any legacy rule form found on the way.
/// Idempotent: text that already holds the rules comes back unchanged.
pub fn ensure_gitignore_entry(content: &str) -> (r: String)
    ensures
        r@ == ensure_gitignore_spec(content@),
{
    let v = chars_of(content);
    let new_style = chars_of("/.cloak/*");
    if contains_sub(&v, &new_style) {
        return content.to_owned();
    }
    let legacy = chars_of(".cloak/");
    let mut out: Vec<char>;
    if contains_sub(&v, &legacy) {
        let lines = split_lines(&v);
        let ghost bl: Seq<Seq<char>> = lines.deep_view();
        let legacy_bare = chars_of(".cloak/");
        let legacy_anchored = chars_of("/.cloak/");
        let legacy_comment = chars_of("# Cloak storage");
        out = Vec::new();
        let mut i: usize = 0;
        proof {
            assert(bl.skip(0) =~= bl);
            assert(out@ + join_lines(keep_nonlegacy(bl)) =~= join_lines(keep_nonlegacy(bl)));
        }
        while i < lines.len()
            invariant
                i <= lines@.len(),
                bl == lines.deep_view(),
                bl.len() == lines@.len(),
                legacy_bare@ == ".cloak/"@,
                legacy_anchored@ == "/.cloak/"@,
                legacy_comment@ == "# Cloak storage"@,
                join_lines(keep_nonlegacy(bl)) == out@ + join_lines(
                    keep_nonlegacy(bl.skip(i as int)),
                ),
            decreases lines@.len() - i,
        {
            proof {
                assert(bl[i as int] =~= lines@[i as int]@);
                assert(bl.skip(i as int)[0] == bl[i as int]);
                assert(bl.skip(i as int).drop_first() =~= bl.skip(i + 1));
            }
            let t = trim_chars(&lines[i]);
            if chars_eq(&t, &legacy_bare) || chars_eq(&t, &legacy_anchored) || chars_eq(
                &t,
                &legacy_comment,
            ) {
            } else {
                let ghost old_out = out@;
                let ghost tail = keep_nonlegacy(bl.skip(i + 1));
                push_chars(&mut out, &lines[i]);
                out.push('\n');
                proof {
                    assert(keep_nonlegacy(bl.skip(i as int)) == seq![bl[i as int]] + tail);
                    assert((seq![bl[i as int]] + tail)[0] == bl[i as int]);
                    assert((seq![bl[i as int]] + tail).drop_first() =~= tail);
                    assert(join_lines(seq![bl[i as int]] + tail) == bl[i as int] + seq!['\n']
                        + join_lines(tail));
                    assert(out@ =~= old_out + bl[i as int] + seq!['\n']);
                    assert(out@ + join_lines(tail) =~= old_out + join_lines(
                        keep_nonlegacy(bl.skip(i as int)),
                    ));
                }
            }
            i += 1;
        }
        proof {
            assert(bl.skip(bl.len() as int) =~= Seq::<Seq<char>>::empty());
            assert(out@ + join_lines(keep_nonlegacy(bl.skip(bl.len() as int))) =~= out@);
        }
        if out.len() == 0 {
            out.push('\n');
            proof {
                assert(out@ =~= seq!['\n']);
            }
        }
        proof {
            assert(out@ == migrate_legacy(content@));
        }
    } else {
        out = copy_range(&v, 0, v.len());
        proof {
            assert(out@ =~= content@);
        }
    }
    let ghost c1 = out@;
    if out.len() > 0 && out[out.len() - 1] != '\n' {
        out.push('\n');
        proof {
            assert(c1.last() == c1[c1.len() - 1]);
            assert(out@ =~= c1 + seq!['\n']);
        }
    }
    let ghost c2 = out@;
    let block = chars_of("\n# --- Cloak ---\n/.cloak/*\n!/.cloak/storage/\n");
    push_chars(&mut out, &block);
    proof {
        assert(out@ =~= c2 + cloak_block());
    }
    string_from_chars(&out)
}

} // verus!
