//! Strings as sequences of characters: conversion, comparison, splitting and joining.

use vstd::prelude::*;

verus! {

/// `String::push` appends the given character to the end of the string.
pub assume_specification[ String::push ](s: &mut String, c: char)
    ensures
        final(s)@ == old(s)@.push(c),
;

/// The pieces of `s` between occurrences of `sep`. There is always at least one
/// piece; a separator at either end, or two in a row, give an empty piece.
pub open spec fn split_spec(s: Seq<char>, sep: char) -> Seq<Seq<char>>
    decreases s.len(),
{
    if s.len() == 0 {
        seq![Seq::<char>::empty()]
    } else {
        let before = split_spec(s.drop_last(), sep);
        if s.last() == sep {
            before.push(Seq::<char>::empty())
        } else {
            before.drop_last().push(before.last().push(s.last()))
        }
    }
}

/// The pieces in order with `sep` between each two neighbours.
pub open spec fn join_spec(parts: Seq<Seq<char>>, sep: char) -> Seq<char>
    decreases parts.len(),
{
    if parts.len() == 0 {
        Seq::<char>::empty()
    } else if parts.len() == 1 {
        parts[0]
    } else {
        join_spec(parts.drop_last(), sep).push(sep) + parts.last()
    }
}

pub proof fn lemma_split_nonempty(s: Seq<char>, sep: char)
    ensures
        split_spec(s, sep).len() >= 1,
    decreases s.len(),
{
    if s.len() > 0 {
        lemma_split_nonempty(s.drop_last(), sep);
    }
}

/// Joining the pieces of a split with the separator gives the text back.
pub proof fn lemma_join_split(s: Seq<char>, sep: char)
    ensures
        join_spec(split_spec(s, sep), sep) == s,
    decreases s.len(),
{
    if s.len() > 0 {
        let t = s.drop_last();
        lemma_split_nonempty(t, sep);
        lemma_join_split(t, sep);
        let before = split_spec(t, sep);
        if s.last() == sep {
            let all = before.push(Seq::<char>::empty());
            assert(all.drop_last() == before);
            assert(join_spec(all, sep) == join_spec(before, sep).push(sep) + Seq::<char>::empty());
            assert(t.push(sep) == s);
        } else {
            let grown = before.last().push(s.last());
            let all = before.drop_last().push(grown);
            assert(all.drop_last() == before.drop_last());
            if before.len() == 1 {
                assert(before[0] == t);
                assert(all[0] == s);
            } else {
                let lead = join_spec(before.drop_last(), sep).push(sep);
                assert(join_spec(before, sep) == lead + before.last());
                assert(join_spec(all, sep) == lead + grown);
                assert(lead + grown == (lead + before.last()).push(s.last()));
                assert(t.push(s.last()) == s);
            }
        }
    }
}

/// The deep view of a vector of characters is its view.
pub proof fn lemma_chars_deep_view(v: Vec<char>)
    ensures
        v.deep_view() == v@,
{
    assert(v.deep_view() =~= v@);
}

/// Pushing a row onto a vector of rows pushes its view onto the deep view.
pub proof fn lemma_rows_push(before: Vec<Vec<char>>, after: Vec<Vec<char>>, row: Vec<char>)
    requires
        after@ == before@.push(row),
    ensures
        after.deep_view() == before.deep_view().push(row@),
{
    lemma_chars_deep_view(row);
    assert(after.deep_view() =~= before.deep_view().push(row@));
}

/// Popping a row off a vector of rows drops the last of the deep view.
pub proof fn lemma_rows_pop(before: Vec<Vec<char>>, after: Vec<Vec<char>>)
    requires
        before@.len() > 0,
        after@ == before@.drop_last(),
    ensures
        after.deep_view() == before.deep_view().drop_last(),
{
    assert(after.deep_view() =~= before.deep_view().drop_last());
}

/// The characters of `s`, in order.
pub fn to_chars(s: &str) -> (v: Vec<char>)
    ensures
        v@ == s@,
{
    let mut v: Vec<char> = Vec::new();
    for c in it: s.chars()
        invariant
            it.seq() == s@,
            v@ == s@.take(it.index()),
    {
        v.push(c);
        assert(s@.take(it.index() + 1) == s@.take(it.index()).push(c));
    }
    assert(s@.take(s@.len() as int) == s@);
    v
}

/// Appends the characters `v[from..to]` to `out`.
pub fn push_chars(out: &mut String, v: &Vec<char>, from: usize, to: usize)
    requires
        from <= to <= v.len(),
    ensures
        final(out)@ == old(out)@ + v@.subrange(from as int, to as int),
{
    let mut i: usize = from;
    while i < to
        invariant
            from <= i <= to <= v.len(),
            out@ == old(out)@ + v@.subrange(from as int, i as int),
        decreases to - i,
    {
        out.push(v[i]);
        i += 1;
        assert(v@.subrange(from as int, i as int) == v@.subrange(from as int, i - 1).push(v@[i - 1]));
    }
}

/// Appends the characters of `src` to `dst`.
pub fn append_chars(dst: &mut Vec<char>, src: &Vec<char>)
    ensures
        final(dst)@ == old(dst)@ + src@,
{
    let mut i: usize = 0;
    assert(src@.take(0) =~= Seq::<char>::empty());
    while i < src.len()
        invariant
            i <= src.len(),
            dst@ == old(dst)@ + src@.take(i as int),
        decreases src.len() - i,
    {
        dst.push(src[i]);
        i += 1;
        assert(src@.take(i as int) =~= src@.take(i - 1).push(src@[i - 1]));
    }
    assert(src@.take(src@.len() as int) =~= src@);
}

/// The string whose characters are those of `v`, in order.
pub fn from_chars(v: &Vec<char>) -> (s: String)
    ensures
        s@ == v@,
{
    let mut s = String::new();
    push_chars(&mut s, v, 0, v.len());
    assert(v@.subrange(0, v@.len() as int) == v@);
    s
}

/// A copy of the characters `v[from..to]`.
pub fn copy_chars(v: &Vec<char>, from: usize, to: usize) -> (r: Vec<char>)
    requires
        from <= to <= v.len(),
    ensures
        r@ == v@.subrange(from as int, to as int),
{
    let mut r: Vec<char> = Vec::new();
    let mut i: usize = from;
    while i < to
        invariant
            from <= i <= to <= v.len(),
            r@ == v@.subrange(from as int, i as int),
        decreases to - i,
    {
        r.push(v[i]);
        i += 1;
        assert(v@.subrange(from as int, i as int) =~= v@.subrange(from as int, i - 1).push(v@[i - 1]));
    }
    r
}

/// Whether two strings hold the same characters.
pub fn str_eq(a: &str, b: &str) -> (r: bool)
    ensures
        r == (a@ == b@),
{
    a.to_owned() == b.to_owned()
}

/// Splits `s` at every occurrence of `sep`.
pub fn split(s: &Vec<char>, sep: char) -> (parts: Vec<Vec<char>>)
    ensures
        parts.deep_view() == split_spec(s@, sep),
{
    let mut parts: Vec<Vec<char>> = Vec::new();
    let mut current: Vec<char> = Vec::new();
    let mut i: usize = 0;
    while i < s.len()
        invariant
            i <= s.len(),
            parts.deep_view().push(current@) == split_spec(s@.take(i as int), sep),
        decreases s.len() - i,
    {
        let ghost before = parts.deep_view().push(current@);
        let ghost prefix = s@.take(i as int + 1);
        assert(prefix.drop_last() == s@.take(i as int));
        assert(prefix.last() == s@[i as int]);
        if s[i] == sep {
            let ghost old_parts = parts;
            parts.push(current);
            proof {
                lemma_rows_push(old_parts, parts, current);
            }
            current = Vec::new();
        } else {
            current.push(s[i]);
            assert(before.drop_last() == parts.deep_view());
        }
        i += 1;
    }
    assert(s@.take(s@.len() as int) == s@);
    let ghost old_parts = parts;
    parts.push(current);
    proof {
        lemma_rows_push(old_parts, parts, current);
    }
    parts
}

/// Joins the pieces with `sep` between each two neighbours.
pub fn join(parts: &Vec<Vec<char>>, sep: char) -> (s: Vec<char>)
    ensures
        s@ == join_spec(parts.deep_view(), sep),
{
    let mut s: Vec<char> = Vec::new();
    let mut i: usize = 0;
    while i < parts.len()
        invariant
            i <= parts.len(),
            s@ == join_spec(parts.deep_view().take(i as int), sep),
        decreases parts.len() - i,
    {
        let ghost upto = parts.deep_view().take(i as int + 1);
        assert(upto.drop_last() == parts.deep_view().take(i as int));
        assert(upto.last() == parts[i as int]@) by {
            lemma_chars_deep_view(parts[i as int]);
        }
        if i > 0 {
            s.push(sep);
        }
        let piece = &parts[i];
        let mut j: usize = 0;
        let ghost start = s@;
        while j < piece.len()
            invariant
                j <= piece.len(),
                s@ == start + piece@.take(j as int),
            decreases piece.len() - j,
        {
            s.push(piece[j]);
            j += 1;
            assert(piece@.take(j as int) == piece@.take(j - 1).push(piece@[j - 1]));
        }
        assert(piece@.take(piece@.len() as int) == piece@);
        i += 1;
    }
    assert(parts.deep_view().take(parts@.len() as int) == parts.deep_view());
    s
}

} // verus!
