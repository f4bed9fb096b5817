//! Paths: the removal of `.` and `..` segments, and the check of a path
//! against the parts of the URL that it stands in.

use crate::error::InvalidUrl;
use crate::text::{
    copy_chars, from_chars, join, join_spec, lemma_chars_deep_view, lemma_rows_pop, lemma_rows_push,
    split, split_spec, to_chars,
};
use vstd::prelude::*;

verus! {

pub open spec fn is_dot(segment: Seq<char>) -> bool {
    segment == seq!['.']
}

pub open spec fn is_dot_dot(segment: Seq<char>) -> bool {
    segment == seq!['.', '.']
}

/// Only the empty segment that stands for the leading slash.
pub open spec fn is_root_only(segments: Seq<Seq<char>>) -> bool {
    segments.len() == 1 && segments[0].len() == 0
}

/// The segments that are left when `.` is dropped and `..` takes the segment
/// before it away, unless nothing or only the root is left to take.
pub open spec fn resolve_dots(segments: Seq<Seq<char>>) -> Seq<Seq<char>>
    decreases segments.len(),
{
    if segments.len() == 0 {
        Seq::<Seq<char>>::empty()
    } else {
        let kept = resolve_dots(segments.drop_last());
        let segment = segments.last();
        if is_dot(segment) {
            kept
        } else if is_dot_dot(segment) {
            if kept.len() > 0 && !is_root_only(kept) {
                kept.drop_last()
            } else {
                kept
            }
        } else {
            kept.push(segment)
        }
    }
}

/// The normalized form of a path. A path without any `.` is its own.
pub open spec fn normalize_path_spec(path: Seq<char>) -> Seq<char> {
    if !path.contains('.') {
        path
    } else {
        join_spec(resolve_dots(split_spec(path, '/')), '/')
    }
}

/// The message of the failure of a path, or nothing where the path may stand.
pub open spec fn path_fault(path: Seq<char>, has_scheme: bool, has_authority: bool) -> Option<Seq<char>> {
    if has_authority && path.len() > 0 && path[0] != '/' {
        Some("For absolute URLs, path must be empty or begin with '/'"@)
    } else if !has_scheme && !has_authority && path.len() >= 2 && path[0] == '/' && path[1] == '/' {
        Some("Relative URLs cannot have a path starting with '//'"@)
    } else if !has_scheme && !has_authority && path.len() >= 1 && path[0] == ':' {
        Some("Relative URLs cannot have a path starting with ':'"@)
    } else {
        None
    }
}

fn has_char(s: &Vec<char>, c: char) -> (r: bool)
    ensures
        r == s@.contains(c),
{
    let mut i: usize = 0;
    while i < s.len()
        invariant
            i <= s.len(),
            forall|j: int| 0 <= j < i ==> s@[j] != c,
        decreases s.len() - i,
    {
        if s[i] == c {
            return true;
        }
        i += 1;
    }
    false
}

/// Resolves the `.` and `..` segments of a path.
pub fn normalize_path(path: &str) -> (r: String)
    ensures
        r@ == normalize_path_spec(path@),
{
    let chars = to_chars(path);
    if !has_char(&chars, '.') {
        return from_chars(&chars);
    }
    let components = split(&chars, '/');
    let mut normalized: Vec<Vec<char>> = Vec::new();
    let mut i: usize = 0;
    assert(components.deep_view().take(0) =~= Seq::<Seq<char>>::empty());
    assert(normalized.deep_view() =~= Seq::<Seq<char>>::empty());
    while i < components.len()
        invariant
            i <= components.len(),
            normalized.deep_view() == resolve_dots(components.deep_view().take(i as int)),
        decreases components.len() - i,
    {
        let component = &components[i];
        proof {
            let upto = components.deep_view().take(i + 1);
            assert(upto.drop_last() =~= components.deep_view().take(i as int));
            lemma_chars_deep_view(*component);
            assert(upto.last() == component@);
        }
        if component.len() == 1 && component[0] == '.' {
            assert(component@ =~= seq!['.']);
        } else if component.len() == 2 && component[0] == '.' && component[1] == '.' {
            assert(component@ =~= seq!['.', '.']);
            if normalized.len() > 0 && !(normalized.len() == 1 && normalized[0].len() == 0) {
                let ghost before = normalized;
                normalized.pop();
                proof {
                    lemma_rows_pop(before, normalized);
                    if before@.len() == 1 {
                        lemma_chars_deep_view(before@[0]);
                    }
                }
            } else {
                proof {
                    if normalized@.len() == 1 {
                        lemma_chars_deep_view(normalized@[0]);
                    }
                }
            }
        } else {
            assert(!is_dot(component@)) by {
                if is_dot(component@) {
                    assert(seq!['.'].len() == 1);
                    assert(seq!['.'][0] == '.');
                }
            }
            assert(!is_dot_dot(component@)) by {
                if is_dot_dot(component@) {
                    assert(seq!['.', '.'].len() == 2);
                    assert(seq!['.', '.'][0] == '.');
                    assert(seq!['.', '.'][1] == '.');
                }
            }
            let ghost before = normalized;
            let kept = copy_chars(component, 0, component.len());
            assert(kept@ =~= component@);
            normalized.push(kept);
            proof {
                lemma_rows_push(before, normalized, kept);
            }
        }
        i += 1;
    }
    assert(components.deep_view().take(components@.len() as int) =~= components.deep_view());
    let joined = join(&normalized, '/');
    from_chars(&joined)
}

/// Checks a path against the presence of a scheme and of an authority: behind
/// an authority a path is empty or begins with `/`; with neither scheme nor
/// authority it begins neither with `//` nor with `:`.
pub fn validate_path(path: &str, has_scheme: bool, has_authority: bool) -> (r: Result<(), InvalidUrl>)
    ensures
        match r {
            Ok(_) => path_fault(path@, has_scheme, has_authority) is None,
            Err(e) => path_fault(path@, has_scheme, has_authority) == Some(e.message@),
        },
{
    let chars = to_chars(path);
    if has_authority && chars.len() > 0 && chars[0] != '/' {
        return Err(InvalidUrl::new("For absolute URLs, path must be empty or begin with '/'"));
    }
    if !has_scheme && !has_authority {
        if chars.len() >= 2 && chars[0] == '/' && chars[1] == '/' {
            return Err(InvalidUrl::new("Relative URLs cannot have a path starting with '//'"));
        }
        if chars.len() >= 1 && chars[0] == ':' {
            return Err(InvalidUrl::new("Relative URLs cannot have a path starting with ':'"));
        }
    }
    Ok(())
}

} // verus!
