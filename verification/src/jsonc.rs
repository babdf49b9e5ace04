use vstd::prelude::*;

use crate::textutil::chars_of;
use crate::textutil::string_from_chars;

verus! {

/// Length of a string-literal body after its opening quote, up to and
/// including the closing quote; an unterminated literal runs to the
/// end.  A backslash carries the following character verbatim.
pub open spec fn str_body_len(s: Seq<char>) -> nat
    decreases s.len(),
{
    if s.len() == 0 {
        0
    } else if s[0] == '"' {
        1
    } else if s[0] == '\\' && s.len() >= 2 {
        (2 + str_body_len(s.skip(2))) as nat
    } else {
        (1 + str_body_len(s.skip(1))) as nat
    }
}

pub proof fn lemma_str_body_len_bound(s: Seq<char>)
    ensures
        str_body_len(s) <= s.len(),
    decreases s.len(),
{
    if s.len() == 0 {
    } else if s[0] == '"' {
    } else if s[0] == '\\' && s.len() >= 2 {
        lemma_str_body_len_bound(s.skip(2));
    } else {
        lemma_str_body_len_bound(s.skip(1));
    }
}

/// Length of a line comment after its two slashes, up to but not
/// including the newline; the newline itself is kept.
pub open spec fn line_comment_len(s: Seq<char>) -> nat
    decreases s.len(),
{
    if s.len() == 0 {
        0
    } else if s[0] == '\n' {
        0
    } else {
        (1 + line_comment_len(s.skip(1))) as nat
    }
}

pub proof fn lemma_line_comment_len_bound(s: Seq<char>)
    ensures
        line_comment_len(s) <= s.len(),
    decreases s.len(),
{
    if s.len() == 0 {
    } else if s[0] == '\n' {
    } else {
        lemma_line_comment_len_bound(s.skip(1));
    }
}

/// Length of a block comment after its opener, up to and including
/// the closing star-slash; with no closer the scan stops one short of
/// the end, leaving the final character outside the comment.
pub open spec fn block_comment_len(s: Seq<char>) -> nat
    decreases s.len(),
{
    if s.len() <= 1 {
        0
    } else if s[0] == '*' && s[1] == '/' {
        2
    } else {
        (1 + block_comment_len(s.skip(1))) as nat
    }
}

pub proof fn lemma_block_comment_len_bound(s: Seq<char>)
    ensures
        block_comment_len(s) <= s.len(),
    decreases s.len(),
{
    if s.len() <= 1 {
    } else if s[0] == '*' && s[1] == '/' {
    } else {
        lemma_block_comment_len_bound(s.skip(1));
    }
}

/// Text with line and block comments removed and string literals kept
/// verbatim, so that comment-like text inside a string survives.
pub open spec fn strip_jsonc_spec(s: Seq<char>) -> Seq<char>
    decreases s.len(),
    via strip_jsonc_spec_dec
{
    if s.len() == 0 {
        Seq::empty()
    } else if s[0] == '"' {
        let n = str_body_len(s.skip(1));
        seq!['"'] + s.subrange(1, 1 + n as int) + strip_jsonc_spec(s.skip(1 + n as int))
    } else if s.len() >= 2 && s[0] == '/' && s[1] == '/' {
        let n = line_comment_len(s.skip(2));
        strip_jsonc_spec(s.skip(2 + n as int))
    } else if s.len() >= 2 && s[0] == '/' && s[1] == '*' {
        let n = block_comment_len(s.skip(2));
        strip_jsonc_spec(s.skip(2 + n as int))
    } else {
        seq![s[0]] + strip_jsonc_spec(s.skip(1))
    }
}

#[via_fn]
proof fn strip_jsonc_spec_dec(s: Seq<char>) {
    if s.len() > 0 {
        lemma_str_body_len_bound(s.skip(1));
        if s.len() >= 2 {
            lemma_line_comment_len_bound(s.skip(2));
            lemma_block_comment_len_bound(s.skip(2));
        }
    }
}

/// Scan a string-literal body beginning at `from` (just after the
/// opening quote); returns how many characters it spans, closing
/// quote included.
fn scan_string_body(v: &Vec<char>, from: usize) -> (n: usize)
    requires
        from <= v@.len(),
    ensures
        n == str_body_len(v@.skip(from as int)),
        from + n <= v@.len(),
{
    let len = v.len();
    let mut j: usize = from;
    while j < len && v[j] != '"'
        invariant
            from <= j <= len,
            len == v@.len(),
            str_body_len(v@.skip(from as int)) == j - from + str_body_len(v@.skip(j as int)),
        decreases len - j,
    {
        let ghost t = v@.skip(j as int);
        proof {
            assert(t[0] == v@[j as int]);
        }
        if v[j] == '\\' && j + 1 < len {
            proof {
                assert(t.skip(2) =~= v@.skip(j + 2));
                assert(str_body_len(t) == 2 + str_body_len(v@.skip(j + 2)));
            }
            j += 2;
        } else {
            proof {
                assert(t.skip(1) =~= v@.skip(j + 1));
                assert(str_body_len(t) == 1 + str_body_len(v@.skip(j + 1)));
            }
            j += 1;
        }
    }
    if j < len {
        proof {
            let t = v@.skip(j as int);
            assert(t[0] == v@[j as int]);
            assert(str_body_len(t) == 1);
        }
        j += 1;
    } else {
        proof {
            assert(v@.skip(j as int) =~= Seq::<char>::empty());
            assert(str_body_len(v@.skip(j as int)) == 0);
        }
    }
    j - from
}

/// Scan a line comment beginning at `from` (just after the two
/// slashes); returns how many characters it spans, the newline
/// excluded.
fn scan_line_comment(v: &Vec<char>, from: usize) -> (n: usize)
    requires
        from <= v@.len(),
    ensures
        n == line_comment_len(v@.skip(from as int)),
        from + n <= v@.len(),
{
    let len = v.len();
    let mut j: usize = from;
    while j < len && v[j] != '\n'
        invariant
            from <= j <= len,
            len == v@.len(),
            line_comment_len(v@.skip(from as int)) == j - from + line_comment_len(
                v@.skip(j as int),
            ),
        decreases len - j,
    {
        let ghost t = v@.skip(j as int);
        proof {
            assert(t[0] == v@[j as int]);
            assert(t.skip(1) =~= v@.skip(j + 1));
            assert(line_comment_len(t) == 1 + line_comment_len(v@.skip(j + 1)));
        }
        j += 1;
    }
    proof {
        if j < len {
            assert(v@.skip(j as int)[0] == v@[j as int]);
            assert(line_comment_len(v@.skip(j as int)) == 0);
        } else {
            assert(v@.skip(j as int) =~= Seq::<char>::empty());
            assert(line_comment_len(v@.skip(j as int)) == 0);
        }
    }
    j - from
}

/// Scan a block comment beginning at `from` (just after the opener);
/// returns how many characters it spans, the closer included.
fn scan_block_comment(v: &Vec<char>, from: usize) -> (n: usize)
    requires
        from <= v@.len(),
    ensures
        n == block_comment_len(v@.skip(from as int)),
        from + n <= v@.len(),
{
    let len = v.len();
    let mut j: usize = from;
    while j < len && j + 1 < len && !(v[j] == '*' && v[j + 1] == '/')
        invariant
            from <= j <= len,
            len == v@.len(),
            block_comment_len(v@.skip(from as int)) == j - from + block_comment_len(
                v@.skip(j as int),
            ),
        decreases len - j,
    {
        let ghost t = v@.skip(j as int);
        proof {
            assert(t[0] == v@[j as int]);
            assert(t[1] == v@[j + 1]);
            assert(t.skip(1) =~= v@.skip(j + 1));
            assert(block_comment_len(t) == 1 + block_comment_len(v@.skip(j + 1)));
        }
        j += 1;
    }
    if j < len && j + 1 < len {
        proof {
            let t = v@.skip(j as int);
            assert(t[0] == v@[j as int]);
            assert(t[1] == v@[j + 1]);
            assert(block_comment_len(t) == 2);
        }
        j += 2;
    } else {
        proof {
            let t = v@.skip(j as int);
            assert(t.len() <= 1);
            assert(block_comment_len(t) == 0);
        }
    }
    j - from
}

/// Strip `//` line comments and `/* */` block comments from JSONC
/// text while keeping string literals, escapes included, verbatim.
pub fn strip_jsonc_comments(input: &str) -> (r: String)
    ensures
        r@ == strip_jsonc_spec(input@),
{
    let v = chars_of(input);
    let n = v.len();
    let mut out: Vec<char> = Vec::new();
    let mut i: usize = 0;
    proof {
        assert(v@.skip(0) =~= v@);
        assert(out@ + strip_jsonc_spec(v@) =~= strip_jsonc_spec(v@));
    }
    while i < n
        invariant
            i <= n,
            n == v@.len(),
            strip_jsonc_spec(v@) == out@ + strip_jsonc_spec(v@.skip(i as int)),
        decreases n - i,
    {
        let ghost s = v@.skip(i as int);
        proof {
            assert(s[0] == v@[i as int]);
            if (i + 1) < n {
                assert(s[1] == v@[i + 1]);
            }
        }
        if v[i] == '"' {
            let ghost old_out = out@;
            out.push('"');
            let m = scan_string_body(&v, i + 1);
            let ghost bn = str_body_len(v@.skip(i + 1));
            proof {
                assert(s.skip(1) =~= v@.skip(i + 1));
                assert(m == bn);
                assert(s.subrange(1, 1 + bn as int) =~= v@.subrange(i + 1, i + 1 + m));
                assert(s.skip(1 + bn as int) =~= v@.skip(i + 1 + m));
                assert(strip_jsonc_spec(s) == seq!['"'] + v@.subrange(i + 1, i + 1 + m)
                    + strip_jsonc_spec(v@.skip(i + 1 + m)));
            }
            let mut k: usize = i + 1;
            while k < i + 1 + m
                invariant
                    i + 1 <= k <= i + 1 + m,
                    i + 1 + m <= v@.len(),
                    v@.len() <= usize::MAX,
                    out@ == old_out + seq!['"'] + v@.subrange(i + 1, k as int),
                decreases i + 1 + m - k,
            {
                out.push(v[k]);
                proof {
                    assert(out@ =~= old_out + seq!['"'] + v@.subrange(i + 1, k + 1));
                }
                k += 1;
            }
            proof {
                assert(out@ =~= old_out + (seq!['"'] + v@.subrange(i + 1, i + 1 + m)));
            }
            i = i + 1 + m;
        } else if i + 1 < n && v[i] == '/' && v[i + 1] == '/' {
            let m = scan_line_comment(&v, i + 2);
            proof {
                assert(s.skip(2) =~= v@.skip(i + 2));
                assert(s.skip(2 + line_comment_len(s.skip(2)) as int) =~= v@.skip(i + 2 + m));
                assert(strip_jsonc_spec(s) == strip_jsonc_spec(v@.skip(i + 2 + m)));
            }
            i = i + 2 + m;
        } else if i + 1 < n && v[i] == '/' && v[i + 1] == '*' {
            let m = scan_block_comment(&v, i + 2);
            proof {
                assert(s.skip(2) =~= v@.skip(i + 2));
                assert(s.skip(2 + block_comment_len(s.skip(2)) as int) =~= v@.skip(i + 2 + m));
                assert(strip_jsonc_spec(s) == strip_jsonc_spec(v@.skip(i + 2 + m)));
            }
            i = i + 2 + m;
        } else {
            let ghost old_out = out@;
            out.push(v[i]);
            proof {
                assert(s.skip(1) =~= v@.skip(i + 1));
                assert(strip_jsonc_spec(s) == seq![s[0]] + strip_jsonc_spec(v@.skip(i + 1)));
                assert(out@ =~= old_out + seq![s[0]]);
            }
            i += 1;
        }
    }
    proof {
        assert(v@.skip(n as int) =~= Seq::<char>::empty());
        assert(out@ + strip_jsonc_spec(v@.skip(n as int)) =~= out@);
    }
    string_from_chars(&out)
}

} // verus!
