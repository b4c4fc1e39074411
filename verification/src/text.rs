//! Splitting and joining of character sequences around a separator.

use vstd::prelude::*;
use vstd::string::StringExecFns;

verus! {

/// The segments of `s` between occurrences of `sep`, in order. There is
/// always at least one segment; `n` separators give `n + 1` segments, some
/// of which may be empty.
pub open spec fn split(s: Seq<char>, sep: char) -> Seq<Seq<char>>
    decreases s.len(),
{
    if s.len() == 0 {
        seq![Seq::<char>::empty()]
    } else {
        let before = split(s.drop_last(), sep);
        if s.last() == sep {
            before.push(Seq::<char>::empty())
        } else {
            before.drop_last().push(before.last().push(s.last()))
        }
    }
}

/// The segments `parts` written one after another with `sep` between each
/// two neighbours.
pub open spec fn join(parts: Seq<Seq<char>>, sep: char) -> Seq<char>
    decreases parts.len(),
{
    if parts.len() == 0 {
        Seq::<char>::empty()
    } else if parts.len() == 1 {
        parts[0]
    } else {
        join(parts.drop_last(), sep) + seq![sep] + parts.last()
    }
}

/// No segment of `parts` holds the separator.
pub open spec fn free_of(parts: Seq<Seq<char>>, sep: char) -> bool {
    forall|i: int| 0 <= i < parts.len() ==> !(#[trigger] parts[i]).contains(sep)
}

/// The character sequences that a list of strings stands for.
pub open spec fn strs(v: Seq<String>) -> Seq<Seq<char>> {
    Seq::new(v.len(), |i: int| v[i]@)
}

/// Splitting never yields an empty list, and no segment holds the separator.
pub proof fn lemma_split_shape(s: Seq<char>, sep: char)
    ensures
        split(s, sep).len() >= 1,
        free_of(split(s, sep), sep),
    decreases s.len(),
{
    if s.len() > 0 {
        lemma_split_shape(s.drop_last(), sep);
        let before = split(s.drop_last(), sep);
        if s.last() != sep {
            let grown = before.last().push(s.last());
            assert forall|k: int| 0 <= k < grown.len() implies grown[k] != sep by {
                if k < before.last().len() {
                    assert(before.last()[k] == grown[k]);
                }
            }
        }
    }
}

/// Joining the segments of a split gives the sequence back.
pub proof fn lemma_join_split(s: Seq<char>, sep: char)
    ensures
        join(split(s, sep), sep) == s,
    decreases s.len(),
{
    if s.len() > 0 {
        let before = split(s.drop_last(), sep);
        lemma_join_split(s.drop_last(), sep);
        lemma_split_shape(s.drop_last(), sep);
        if s.last() == sep {
            let all = before.push(Seq::<char>::empty());
            assert(all.drop_last() == before);
            assert(join(all, sep) == s.drop_last() + seq![sep] + Seq::<char>::empty());
            assert(s.drop_last() + seq![sep] + Seq::<char>::empty() == s);
        } else {
            let all = before.drop_last().push(before.last().push(s.last()));
            assert(all.drop_last() == before.drop_last());
            if before.len() == 1 {
                assert(join(all, sep) == before[0].push(s.last()));
                assert(s.drop_last().push(s.last()) == s);
            } else {
                assert(join(all, sep) == join(before.drop_last(), sep) + seq![sep]
                    + before.last().push(s.last()));
                assert(join(before.drop_last(), sep) + seq![sep] + before.last().push(s.last())
                    == (join(before.drop_last(), sep) + seq![sep] + before.last()).push(
                    s.last(),
                ));
                assert(s.drop_last().push(s.last()) == s);
            }
        }
    }
}

/// Appending characters other than the separator lengthens the last segment
/// and leaves the others alone.
pub proof fn lemma_split_append(s: Seq<char>, tail: Seq<char>, sep: char)
    requires
        !tail.contains(sep),
    ensures
        split(s + tail, sep) == split(s, sep).drop_last().push(split(s, sep).last() + tail),
    decreases tail.len(),
{
    lemma_split_shape(s, sep);
    let parts = split(s, sep);
    if tail.len() == 0 {
        assert(s + tail == s);
        assert(parts.last() + tail == parts.last());
        assert(parts.drop_last().push(parts.last()) == parts);
    } else {
        let shorter = tail.drop_last();
        assert forall|k: int| 0 <= k < shorter.len() implies shorter[k] != sep by {
            assert(tail[k] == shorter[k]);
        }
        lemma_split_append(s, shorter, sep);
        assert((s + tail).drop_last() == s + shorter);
        assert((s + tail).last() == tail.last());
        assert(tail[tail.len() - 1] != sep);
        let mid = parts.drop_last().push(parts.last() + shorter);
        assert(mid.drop_last() == parts.drop_last());
        assert((parts.last() + shorter).push(tail.last()) == parts.last() + tail);
    }
}

/// Splitting is the only way to cut a sequence into separator-free segments:
/// a non-empty list of such segments is what its own join splits into.
pub proof fn lemma_split_join(parts: Seq<Seq<char>>, sep: char)
    requires
        parts.len() >= 1,
        free_of(parts, sep),
    ensures
        split(join(parts, sep), sep) == parts,
    decreases parts.len(),
{
    let empty = Seq::<char>::empty();
    if parts.len() == 1 {
        lemma_split_append(empty, parts[0], sep);
        assert(empty + parts[0] == parts[0]);
        assert(split(empty, sep) == seq![empty]);
        assert(seq![empty].drop_last().push(empty + parts[0]) == parts);
    } else {
        let front = parts.drop_last();
        assert(free_of(front, sep)) by {
            assert forall|i: int| 0 <= i < front.len() implies !(#[trigger] front[i]).contains(
                sep,
            ) by {
                assert(front[i] == parts[i]);
            }
        }
        lemma_split_join(front, sep);
        let head = join(front, sep) + seq![sep];
        assert(head.drop_last() == join(front, sep));
        assert(split(head, sep) == front.push(empty));
        lemma_split_append(head, parts.last(), sep);
        assert(front.push(empty).drop_last() == front);
        assert(empty + parts.last() == parts.last());
        assert(front.push(parts.last()) == parts);
    }
}

/// A sequence splits into a single segment exactly when it is free of the
/// separator, and that segment is then the sequence itself.
pub proof fn lemma_split_single(s: Seq<char>, sep: char)
    ensures
        split(s, sep).len() == 1 <==> !s.contains(sep),
        split(s, sep).len() == 1 ==> split(s, sep) == seq![s],
{
    lemma_split_shape(s, sep);
    lemma_join_split(s, sep);
    let parts = split(s, sep);
    if parts.len() == 1 {
        assert(parts == seq![s]);
        assert(!parts[0].contains(sep));
    } else {
        let glue = join(parts.drop_last(), sep);
        assert(s[glue.len() as int] == sep);
    }
}

/// `String::push` appends one character to the end of the string.
pub assume_specification[ String::push ](s: &mut String, c: char)
    ensures
        final(s)@ == old(s)@.push(c),
;

/// Splits `s` at every occurrence of `sep`.
pub fn split_on(s: &str, sep: char) -> (parts: Vec<String>)
    ensures
        strs(parts@) == split(s@, sep),
{
    let mut parts: Vec<String> = Vec::new();
    let mut cur = String::new();
    for c in it: s.chars()
        invariant
            it.seq() == s@,
            strs(parts@).push(cur@) == split(s@.take(it.index() as int), sep),
    {
        assert(s@.take(it.index() + 1).drop_last() == s@.take(it.index() as int));
        if c == sep {
            parts.push(cur);
            cur = String::new();
        } else {
            cur.push(c);
        }
    }
    parts.push(cur);
    assert(s@.take(s@.len() as int) == s@);
    parts
}

/// Writes the tokens one after another with `sep` between neighbours.
pub fn join_with(parts: &Vec<String>, sep: char) -> (text: String)
    ensures
        text@ == join(strs(parts@), sep),
{
    let mut text = String::new();
    let mut i: usize = 0;
    while i < parts.len()
        invariant
            i <= parts.len(),
            text@ == join(strs(parts@).take(i as int), sep),
        decreases parts.len() - i,
    {
        assert(strs(parts@).take(i + 1).drop_last() == strs(parts@).take(i as int));
        if i > 0 {
            text.push(sep);
        }
        text.append(parts[i].as_str());
        assert(text@ == join(strs(parts@).take(i + 1), sep)) by {
            let upto = strs(parts@).take(i + 1);
            assert(upto.last() == parts[i as int]@);
            if i == 0 {
                assert(Seq::<char>::empty() + parts[0]@ == parts[0]@);
            } else {
                assert(join(upto.drop_last(), sep).push(sep) == join(upto.drop_last(), sep)
                    + seq![sep]);
            }
        }
        i += 1;
    }
    assert(strs(parts@).take(parts.len() as int) == strs(parts@));
    text
}

/// A copy of a list of strings.
pub(crate) fn copy_strings(v: &Vec<String>) -> (out: Vec<String>)
    ensures
        strs(out@) == strs(v@),
{
    let mut out: Vec<String> = Vec::new();
    let mut i: usize = 0;
    while i < v.len()
        invariant
            i <= v.len(),
            out.len() == i,
            forall|k: int| 0 <= k < i ==> (#[trigger] out[k])@ == v[k]@,
        decreases v.len() - i,
    {
        out.push(v[i].clone());
        i += 1;
    }
    assert(strs(out@) == strs(v@));
    out
}

} // verus!
