//! The key-name table as `xmodmap -pke` prints it: one line for each key
//! code, of the form `keycode <code> = <name> <name> ...`.

use crate::resolve::CodeMap;
use crate::text::{lemma_split_shape, split, split_on, strs};
use vstd::prelude::*;

verus! {

/// Whether a character is white space, as `char::is_whitespace` tells.
pub uninterp spec fn is_space(c: char) -> bool;

/// `char::is_whitespace`: whether the character has the Unicode property
/// White_Space. The answer depends on the character alone.
#[verifier::external_body]
fn char_is_whitespace(c: char) -> (space: bool)
    ensures
        space == is_space(c),
{
    c.is_whitespace()
}

/// Whether place `i` is marked as a gap. Places that `gaps` does not reach
/// are no gaps.
pub open spec fn is_gap(gaps: Seq<bool>, i: int) -> bool {
    0 <= i < gaps.len() && gaps[i]
}

/// The stretches of `s` between the places that `gaps` marks, in order. Two
/// gaps in a row have an empty stretch between them.
pub open spec fn stretches(s: Seq<char>, gaps: Seq<bool>) -> Seq<Seq<char>>
    decreases s.len(),
{
    if s.len() == 0 {
        seq![Seq::<char>::empty()]
    } else {
        let before = stretches(s.drop_last(), gaps);
        if is_gap(gaps, s.len() - 1) {
            before.push(Seq::<char>::empty())
        } else {
            before.drop_last().push(before.last().push(s.last()))
        }
    }
}

/// The test that a stretch holds a character.
pub open spec fn not_empty() -> spec_fn(Seq<char>) -> bool {
    |w: Seq<char>| w.len() > 0
}

/// The stretches of `s` between gaps that are not empty.
pub open spec fn words_between(s: Seq<char>, gaps: Seq<bool>) -> Seq<Seq<char>> {
    stretches(s, gaps).filter(not_empty())
}

/// For each character of `s`, whether it is white space.
pub open spec fn spaces_of(s: Seq<char>) -> Seq<bool> {
    Seq::new(s.len(), |i: int| is_space(s[i]))
}

/// The words of `s`: its stretches between white space that are not empty.
pub open spec fn words(s: Seq<char>) -> Seq<Seq<char>> {
    words_between(s, spaces_of(s))
}

/// The lines of a text. A line ends at a line feed; what follows the last
/// line feed is a line only if it is not empty.
pub open spec fn lines(text: Seq<char>) -> Seq<Seq<char>> {
    let parts = split(text, '\n');
    if parts.last().len() == 0 {
        parts.drop_last()
    } else {
        parts
    }
}

/// Whether a character is a decimal digit.
pub open spec fn is_digit(c: char) -> bool {
    '0' <= c && c <= '9'
}

/// The number that a sequence of decimal digits writes.
pub open spec fn digits_value(digits: Seq<char>) -> nat
    decreases digits.len(),
{
    if digits.len() == 0 {
        0
    } else {
        digits_value(digits.drop_last()) * 10 + (digits.last() as nat - '0' as nat) as nat
    }
}

/// The digits of a word that may start with a plus sign.
pub open spec fn unsigned_part(word: Seq<char>) -> Seq<char> {
    if word.len() > 0 && word[0] == '+' {
        word.subrange(1, word.len() as int)
    } else {
        word
    }
}

/// The key code that a word writes: decimal digits, at least one, with or
/// without a plus sign before them, of a value up to 255.
pub open spec fn decimal_u8(word: Seq<char>) -> Option<u8> {
    let digits = unsigned_part(word);
    if digits.len() > 0 && (forall|i: int| 0 <= i < digits.len() ==> is_digit(#[trigger] digits[i]))
        && digits_value(digits) <= 255 {
        Some(digits_value(digits) as u8)
    } else {
        None
    }
}

/// What is left of a list after its first `n` items.
pub open spec fn after(items: Seq<Seq<char>>, n: int) -> Seq<Seq<char>> {
    if items.len() <= n {
        Seq::empty()
    } else {
        items.skip(n)
    }
}

/// The key names of a line: its words from the fourth on.
pub open spec fn names_of_line(line: Seq<char>) -> Seq<Seq<char>> {
    after(words(line), 3)
}

/// The key code of a line: what its second word writes.
pub open spec fn code_of_line(line: Seq<char>) -> Option<u8> {
    let w = words(line);
    if w.len() >= 2 {
        decimal_u8(w[1])
    } else {
        None
    }
}

/// The key names of all lines, in the order written.
pub open spec fn key_names(ls: Seq<Seq<char>>) -> Seq<Seq<char>>
    decreases ls.len(),
{
    if ls.len() == 0 {
        Seq::empty()
    } else {
        key_names(ls.drop_last()) + names_of_line(ls.last())
    }
}

/// The table `m` after each of `names`, in turn, was given `code`.
pub open spec fn with_names(m: Map<Seq<char>, u8>, names: Seq<Seq<char>>, code: u8) -> Map<
    Seq<char>,
    u8,
>
    decreases names.len(),
{
    if names.len() == 0 {
        m
    } else {
        with_names(m, names.drop_last(), code).insert(names.last(), code)
    }
}

/// The table of all lines: each name of a line has the code of its line,
/// and a name that several lines hold has the code of the last of them.
pub open spec fn key_codes(ls: Seq<Seq<char>>) -> Map<Seq<char>, u8>
    decreases ls.len(),
{
    if ls.len() == 0 {
        Map::empty()
    } else {
        with_names(
            key_codes(ls.drop_last()),
            names_of_line(ls.last()),
            code_of_line(ls.last()).unwrap(),
        )
    }
}

/// Line `i` is the first line without a key code.
pub open spec fn first_without_code(ls: Seq<Seq<char>>, i: int) -> bool {
    &&& 0 <= i < ls.len()
    &&& code_of_line(ls[i]) is None
    &&& forall|j: int| 0 <= j < i ==> code_of_line(#[trigger] ls[j]) is Some
}

/// Every line has a key code.
pub open spec fn all_with_code(ls: Seq<Seq<char>>) -> bool {
    forall|i: int| 0 <= i < ls.len() ==> code_of_line(#[trigger] ls[i]) is Some
}

/// There is always at least one stretch.
pub proof fn lemma_stretches_len(s: Seq<char>, gaps: Seq<bool>)
    ensures
        stretches(s, gaps).len() >= 1,
    decreases s.len(),
{
    if s.len() > 0 {
        lemma_stretches_len(s.drop_last(), gaps);
    }
}

/// Giving names a code adds exactly those names to the table.
pub proof fn lemma_with_names_dom(
    m: Map<Seq<char>, u8>,
    names: Seq<Seq<char>>,
    code: u8,
    n: Seq<char>,
)
    ensures
        with_names(m, names, code).contains_key(n) <==> m.contains_key(n) || names.contains(n),
    decreases names.len(),
{
    if names.len() > 0 {
        let front = names.drop_last();
        lemma_with_names_dom(m, front, code, n);
        if names.contains(n) {
            let i = choose|i: int| 0 <= i < names.len() && names[i] == n;
            if i < front.len() {
                assert(front[i] == n);
            }
        }
        if front.contains(n) {
            let i = choose|i: int| 0 <= i < front.len() && front[i] == n;
            assert(names[i] == n);
        }
        if n == names.last() {
            assert(names[names.len() - 1] == n);
        }
    }
}

/// The table holds exactly the names that are listed: what the one reading
/// of a text knows as a key name, the other knows too.
pub proof fn lemma_codes_cover_names(ls: Seq<Seq<char>>, n: Seq<char>)
    ensures
        key_codes(ls).contains_key(n) <==> key_names(ls).contains(n),
    decreases ls.len(),
{
    if ls.len() > 0 {
        let front = ls.drop_last();
        let added = names_of_line(ls.last());
        lemma_codes_cover_names(front, n);
        lemma_with_names_dom(key_codes(front), added, code_of_line(ls.last()).unwrap(), n);
        let all = key_names(front) + added;
        if all.contains(n) {
            let i = choose|i: int| 0 <= i < all.len() && all[i] == n;
            if i < key_names(front).len() {
                assert(key_names(front)[i] == n);
            } else {
                assert(added[i - key_names(front).len()] == n);
            }
        }
        if key_names(front).contains(n) {
            let i = choose|i: int| 0 <= i < key_names(front).len() && key_names(front)[i] == n;
            assert(all[i] == n);
        }
        if added.contains(n) {
            let i = choose|i: int| 0 <= i < added.len() && added[i] == n;
            assert(all[key_names(front).len() + i] == n);
        }
    }
}

/// The lines of a text.
pub fn lines_of(text: &str) -> (ls: Vec<String>)
    ensures
        strs(ls@) == lines(text@),
{
    let mut parts = split_on(text, '\n');
    proof {
        lemma_split_shape(text@, '\n');
    }
    let ghost all = strs(parts@);
    let n = parts.len();
    if parts[n - 1].as_str().is_empty() {
        parts.pop();
        assert(strs(parts@) == all.drop_last());
    }
    parts
}

/// For each character of a line, whether it is white space.
fn spaces_in(line: &str) -> (gaps: Vec<bool>)
    ensures
        gaps@ == spaces_of(line@),
{
    let mut gaps: Vec<bool> = Vec::new();
    for c in it: line.chars()
        invariant
            it.seq() == line@,
            gaps@ == spaces_of(line@.take(it.index() as int)),
    {
        gaps.push(char_is_whitespace(c));
        assert(gaps@ == spaces_of(line@.take(it.index() + 1)));
    }
    assert(line@.take(line@.len() as int) == line@);
    gaps
}

/// Cuts a line at the places that `gaps` marks and keeps the pieces that are
/// not empty. The characters at the marked places belong to no piece.
pub fn cut_words(line: &str, gaps: &Vec<bool>) -> (ws: Vec<String>)
    ensures
        strs(ws@) == words_between(line@, gaps@),
{
    let mut ws: Vec<String> = Vec::new();
    let mut cur = String::new();
    let mut open = false;
    let mut at: usize = 0;
    proof {
        reveal(Seq::filter);
        assert(stretches(line@.take(0), gaps@).drop_last() == Seq::<Seq<char>>::empty());
    }
    for c in it: line.chars()
        invariant
            it.seq() == line@,
            at <= gaps.len(),
            at < gaps.len() ==> at == it.index(),
            at == gaps.len() ==> it.index() >= gaps.len(),
            strs(ws@) == stretches(line@.take(it.index() as int), gaps@).drop_last().filter(
                not_empty(),
            ),
            cur@ == stretches(line@.take(it.index() as int), gaps@).last(),
            open == (cur@.len() > 0),
    {
        let ghost before = stretches(line@.take(it.index() as int), gaps@);
        proof {
            lemma_stretches_len(line@.take(it.index() as int), gaps@);
            assert(line@.take(it.index() + 1).drop_last() == line@.take(it.index() as int));
        }
        let gap = at < gaps.len() && gaps[at];
        assert(gap == is_gap(gaps@, it.index() as int));
        if at < gaps.len() {
            at += 1;
        }
        if gap {
            if open {
                ws.push(cur);
                open = false;
            }
            cur = String::new();
            proof {
                let now = before.push(Seq::<char>::empty());
                assert(now.drop_last() == before);
                assert(before.drop_last().push(before.last()) == before);
                before.drop_last().lemma_filter_push(before.last(), not_empty());
            }
        } else {
            cur.push(c);
            open = true;
            proof {
                let now = before.drop_last().push(before.last().push(c));
                assert(now.drop_last() == before.drop_last());
            }
        }
    }
    proof {
        let all = stretches(line@, gaps@);
        lemma_stretches_len(line@, gaps@);
        assert(line@.take(line@.len() as int) == line@);
        assert(all.drop_last().push(all.last()) == all);
        all.drop_last().lemma_filter_push(all.last(), not_empty());
    }
    if open {
        ws.push(cur);
    }
    ws
}

/// The words of a line.
pub fn words_of(line: &str) -> (ws: Vec<String>)
    ensures
        strs(ws@) == words(line@),
{
    let gaps = spaces_in(line);
    cut_words(line, &gaps)
}

/// Reads a key code.
pub fn parse_u8(word: &str) -> (code: Option<u8>)
    ensures
        code == decimal_u8(word@),
{
    let mut first = true;
    let mut signed = false;
    let mut any = false;
    let mut acc: u16 = 0;
    for c in it: word.chars()
        invariant
            it.seq() == word@,
            first == (it.index() == 0),
            signed == (it.index() > 0 && word@[0] == '+'),
            any == (it.index() > (if signed { 1int } else { 0int })),
            forall|i: int|
                (if signed { 1int } else { 0int }) <= i < it.index() ==> is_digit(
                    #[trigger] word@[i],
                ),
            acc <= 256,
            digits_value(word@.subrange(if signed { 1int } else { 0int }, it.index() as int))
                <= 255 ==> acc == digits_value(
                word@.subrange(if signed { 1int } else { 0int }, it.index() as int),
            ),
            digits_value(word@.subrange(if signed { 1int } else { 0int }, it.index() as int))
                > 255 ==> acc == 256,
    {
        let ghost idx = it.index() as int;
        if first && c == '+' {
            signed = true;
            assert(word@.subrange(1, 1) == Seq::<char>::empty());
        } else if c >= '0' && c <= '9' {
            let digit: u16 = (c as u32 - '0' as u32) as u16;
            let ghost start = if signed { 1int } else { 0int };
            proof {
                let upto = word@.subrange(start, idx + 1);
                assert(upto.drop_last() == word@.subrange(start, idx));
                assert(upto.last() == c);
            }
            let next: u16 = acc * 10 + digit;
            acc = if next > 255 { 256 } else { next };
            any = true;
        } else {
            proof {
                let digits = unsigned_part(word@);
                let start = if signed { 1int } else { 0int };
                assert(digits[idx - start] == c);
            }
            return None;
        }
        first = false;
    }
    proof {
        let start = if signed { 1int } else { 0int };
        assert(unsigned_part(word@) == word@.subrange(start, word@.len() as int));
        let digits = unsigned_part(word@);
        assert forall|i: int| 0 <= i < digits.len() implies is_digit(#[trigger] digits[i]) by {
            assert(digits[i] == word@[i + start]);
        }
    }
    if any && acc <= 255 {
        Some(acc as u8)
    } else {
        None
    }
}

/// A line of the table that has no key code.
#[derive(Clone, Copy, Debug, PartialEq, Eq, Structural)]
pub struct KeymapError {
    /// The place of the line among the lines of the text, counted from 0.
    pub line: usize,
}

/// The key names that the output of `xmodmap -pke` lists, in the order
/// written.
pub fn keynames_from_xmodmap(output: &str) -> (names: Vec<String>)
    ensures
        strs(names@) == key_names(lines(output@)),
{
    let ls = lines_of(output);
    let ghost all = strs(ls@);
    let mut names: Vec<String> = Vec::new();
    let mut i: usize = 0;
    while i < ls.len()
        invariant
            i <= ls.len(),
            all == strs(ls@),
            strs(names@) == key_names(all.take(i as int)),
        decreases ls.len() - i,
    {
        let ws = words_of(ls[i].as_str());
        let ghost line_names = names_of_line(all[i as int]);
        let ghost done = strs(names@);
        let mut j: usize = 3;
        while j < ws.len()
            invariant
                3 <= j,
                j <= ws.len() || j == 3,
                i < ls.len(),
                all == strs(ls@),
                strs(ws@) == words(all[i as int]),
                line_names == names_of_line(all[i as int]),
                j <= ws.len() ==> strs(names@) == done + line_names.take(j - 3),
                j > ws.len() ==> strs(names@) == done,
            decreases ws.len() - j,
        {
            let ghost before = strs(names@);
            names.push(ws[j].clone());
            assert(strs(names@) == before.push(ws[j as int]@));
            assert(line_names.take(j - 3 + 1) == line_names.take(j - 3).push(line_names[j - 3]));
            j += 1;
        }
        proof {
            assert(all.take(i + 1).drop_last() == all.take(i as int));
            assert(all.take(i + 1).last() == all[i as int]);
            assert(key_names(all.take(i + 1)) == key_names(all.take(i as int)) + line_names);
            if ws.len() > 3 {
                assert(line_names.take(ws.len() - 3) == line_names);
            } else {
                assert(line_names.take(0) == line_names);
                assert(done + line_names == done);
            }
        }
        i += 1;
    }
    assert(all.take(ls.len() as int) == all);
    names
}

/// The table that the output of `xmodmap -pke` describes. Each line has to
/// give a key code as its second word; the first line that gives none is
/// reported.
pub fn keycodes_from_xmodmap(output: &str) -> (out: Result<CodeMap, KeymapError>)
    ensures
        match out {
            Ok(codes) => {
                &&& all_with_code(lines(output@))
                &&& codes@ == key_codes(lines(output@))
            },
            Err(e) => first_without_code(lines(output@), e.line as int),
        },
{
    let ls = lines_of(output);
    let ghost all = strs(ls@);
    let mut codes = CodeMap::new();
    let mut i: usize = 0;
    while i < ls.len()
        invariant
            i <= ls.len(),
            all == strs(ls@),
            all == lines(output@),
            forall|k: int| 0 <= k < i ==> code_of_line(#[trigger] all[k]) is Some,
            codes@ == key_codes(all.take(i as int)),
        decreases ls.len() - i,
    {
        let ws = words_of(ls[i].as_str());
        assert(strs(ws@) == words(all[i as int]));
        if ws.len() < 2 {
            return Err(KeymapError { line: i });
        }
        assert(strs(ws@)[1] == ws[1]@);
        let code = match parse_u8(ws[1].as_str()) {
            Some(code) => code,
            None => {
                return Err(KeymapError { line: i });
            },
        };
        let ghost line_names = names_of_line(all[i as int]);
        let ghost done = codes@;
        let mut j: usize = 3;
        while j < ws.len()
            invariant
                3 <= j,
                j <= ws.len() || j == 3,
                i < ls.len(),
                all == strs(ls@),
                strs(ws@) == words(all[i as int]),
                line_names == names_of_line(all[i as int]),
                j <= ws.len() ==> codes@ == with_names(done, line_names.take(j - 3), code),
                j > ws.len() ==> codes@ == done,
            decreases ws.len() - j,
        {
            codes.insert(ws[j].clone(), code);
            assert(line_names.take(j - 3 + 1).drop_last() == line_names.take(j - 3));
            assert(line_names.take(j - 3 + 1).last() == ws[j as int]@);
            j += 1;
        }
        proof {
            assert(all.take(i + 1).drop_last() == all.take(i as int));
            assert(all.take(i + 1).last() == all[i as int]);
            if ws.len() > 3 {
                assert(line_names.take(ws.len() - 3) == line_names);
            }
        }
        i += 1;
    }
    assert(all.take(ls.len() as int) == all);
    Ok(codes)
}

} // verus!
