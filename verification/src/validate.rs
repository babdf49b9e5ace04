use vstd::prelude::*;

use crate::errors::ValidationError;
use crate::textutil::chars_of;
use crate::textutil::chars_eq;
use crate::textutil::contains_char;
use crate::textutil::contains_sub;
use crate::textutil::ends_with_chars;
use crate::textutil::has_substring;
use crate::textutil::prefix_of;
use crate::textutil::starts_with_chars;
use crate::textutil::suffix_of;

verus! {

/// The reserved name of the managed storage area's parent directory.
pub open spec fn reserved_dir() -> Seq<char> {
    seq!['.', 'c', 'l', 'o', 'a', 'k']
}

/// The name is an absolute path: it begins with a separator, or it
/// carries a drive-letter colon.  The drive probe inspects the byte
/// after the first one, which is the second character exactly when
/// the first character is a single byte; after a multi-byte first
/// character that byte is a continuation byte and never a colon.
pub open spec fn is_absolute_name(s: Seq<char>) -> bool {
    ||| s.len() > 0 && (s[0] == '/' || s[0] == '\\')
    ||| s.len() >= 2 && (s[0] as u32) < 128 && s[1] == ':'
}

/// The name is or contains a `..` traversal segment.
pub open spec fn is_traversal_name(s: Seq<char>) -> bool {
    ||| s == seq!['.', '.']
    ||| has_substring(s, seq!['/', '.', '.', '/'])
    ||| prefix_of(seq!['.', '.', '/'], s)
    ||| suffix_of(seq!['/', '.', '.'], s)
}

/// The name is the reserved storage directory itself, or a path below it.
pub open spec fn is_reserved_name(s: Seq<char>) -> bool {
    ||| s == reserved_dir()
    ||| prefix_of(reserved_dir().push('/'), s)
    ||| prefix_of(reserved_dir().push('\\'), s)
}

/// The name holds a path separator, so it is not a single top-level
/// segment.
pub open spec fn has_separator(s: Seq<char>) -> bool {
    s.contains('/') || s.contains('\\')
}

/// The validation verdict on a target name: the first applicable
/// rejection, or `None` for a well-formed name.
pub open spec fn name_error(s: Seq<char>) -> Option<ValidationError> {
    if s.len() == 0 {
        Some(ValidationError::Empty)
    } else if is_absolute_name(s) {
        Some(ValidationError::AbsolutePath)
    } else if is_traversal_name(s) {
        Some(ValidationError::Traversal)
    } else if is_reserved_name(s) {
        Some(ValidationError::ReservedName)
    } else if has_separator(s) {
        Some(ValidationError::Separator)
    } else {
        None
    }
}

/// A name on which hide and restore may operate: a single non-empty
/// top-level segment, neither absolute, nor traversing, nor reserved.
pub open spec fn valid_name(s: Seq<char>) -> bool {
    name_error(s) is None
}

/// Pre-flight validation of one target name.  Performs no side effect;
/// accepts exactly the names on which the engine may operate.
pub fn validate_target(target: &str) -> (r: Result<(), ValidationError>)
    ensures
        r is Ok <==> valid_name(target@),
        r is Err ==> name_error(target@) == Some(r->Err_0),
{
    let v = chars_of(target);
    let reserved = chars_of(".cloak");
    let reserved_slash = chars_of(".cloak/");
    let reserved_back = chars_of(".cloak\\");
    let dot_dot = chars_of("..");
    let mid_updir = chars_of("/../");
    let lead_updir = chars_of("../");
    let tail_updir = chars_of("/..");
    proof {
        reveal_strlit(".cloak");
        reveal_strlit(".cloak/");
        reveal_strlit(".cloak\\");
        reveal_strlit("..");
        reveal_strlit("/../");
        reveal_strlit("../");
        reveal_strlit("/..");
        assert(reserved@ =~= reserved_dir());
        assert(reserved_slash@ =~= reserved_dir().push('/'));
        assert(reserved_back@ =~= reserved_dir().push('\\'));
        assert(dot_dot@ =~= seq!['.', '.']);
        assert(mid_updir@ =~= seq!['/', '.', '.', '/']);
        assert(lead_updir@ =~= seq!['.', '.', '/']);
        assert(tail_updir@ =~= seq!['/', '.', '.']);
    }

    if v.len() == 0 {
        return Err(ValidationError::Empty);
    }
    if v[0] == '/' || v[0] == '\\' {
        return Err(ValidationError::AbsolutePath);
    }
    if v.len() >= 2 && (v[0] as u32) < 128 && v[1] == ':' {
        return Err(ValidationError::AbsolutePath);
    }
    if chars_eq(&v, &dot_dot) || contains_sub(&v, &mid_updir) || starts_with_chars(&v, &lead_updir)
        || ends_with_chars(&v, &tail_updir) {
        return Err(ValidationError::Traversal);
    }
    if chars_eq(&v, &reserved) || starts_with_chars(&v, &reserved_slash)
        || starts_with_chars(&v, &reserved_back) {
        return Err(ValidationError::ReservedName);
    }
    if contains_char(&v, '/') || contains_char(&v, '\\') {
        return Err(ValidationError::Separator);
    }
    Ok(())
}

} // verus!
