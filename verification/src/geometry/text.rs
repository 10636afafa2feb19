//! The lexical layer of the mesh description format: whitespace-separated
//! tokens, unsigned decimal integers and floating-point literals.

use vstd::prelude::*;

verus! {

/// Whether `c` separates tokens: the characters with the Unicode property
/// `White_Space`.
pub open spec fn is_space(c: char) -> bool {
    let n = c as u32;
    (0x09 <= n <= 0x0d) || n == 0x20 || n == 0x85 || n == 0xa0 || n == 0x1680 || (0x2000 <= n
        <= 0x200a) || n == 0x2028 || n == 0x2029 || n == 0x202f || n == 0x205f || n == 0x3000
}

/// The position just behind the run of non-space characters that starts at `i`.
pub open spec fn word_end(s: Seq<char>, i: int) -> int
    decreases s.len() - i,
{
    if 0 <= i < s.len() && !is_space(s[i]) {
        word_end(s, i + 1)
    } else {
        i
    }
}

/// Whether a token starts at position `i`: a non-space character at the
/// start of the line or behind a space.
pub open spec fn starts_word(s: Seq<char>, i: int) -> bool {
    0 <= i < s.len() && !is_space(s[i]) && (i == 0 || is_space(s[i - 1]))
}

/// The tokens of `s` that start at position `i` or behind it, in order.
pub open spec fn tokens_from(s: Seq<char>, i: int) -> Seq<Seq<char>>
    decreases s.len() - i,
{
    if i < 0 || i >= s.len() {
        Seq::empty()
    } else if starts_word(s, i) {
        seq![s.subrange(i, word_end(s, i))] + tokens_from(s, i + 1)
    } else {
        tokens_from(s, i + 1)
    }
}

/// The whitespace-separated tokens of a line: its maximal runs of non-space
/// characters, in order.
pub open spec fn tokens(s: Seq<char>) -> Seq<Seq<char>> {
    tokens_from(s, 0)
}

/// The views of a vector of character vectors.
pub open spec fn views(v: Seq<Vec<char>>) -> Seq<Seq<char>> {
    Seq::new(v.len(), |i: int| v[i]@)
}

/// Tells whether `c` separates tokens.
pub fn is_space_char(c: char) -> (r: bool)
    ensures
        r == is_space(c),
{
    let n: u32 = c as u32;
    (0x09 <= n && n <= 0x0d) || n == 0x20 || n == 0x85 || n == 0xa0 || n == 0x1680 || (0x2000 <= n
        && n <= 0x200a) || n == 0x2028 || n == 0x2029 || n == 0x202f || n == 0x205f || n == 0x3000
}

/// Splits a line into its whitespace-separated tokens.
pub fn split_tokens(line: &Vec<char>) -> (r: Vec<Vec<char>>)
    ensures
        views(r@) == tokens(line@),
{
    let mut out: Vec<Vec<char>> = Vec::new();
    let mut i: usize = 0;
    assert(views(out@) + tokens_from(line@, 0) =~= tokens(line@));
    while i < line.len()
        invariant
            0 <= i <= line.len(),
            i < line.len() && !is_space(line@[i as int]) ==> starts_word(line@, i as int),
            tokens(line@) == views(out@) + tokens_from(line@, i as int),
        decreases line.len() - i,
    {
        if is_space_char(line[i]) {
            i += 1;
        } else {
            let start: usize = i;
            let mut word: Vec<char> = Vec::new();
            while i < line.len() && !is_space_char(line[i])
                invariant
                    start <= i <= line.len(),
                    start < line.len(),
                    !is_space(line@[start as int]),
                    word@ == line@.subrange(start as int, i as int),
                    word_end(line@, start as int) == word_end(line@, i as int),
                    forall|k: int| start <= k < i ==> !is_space(#[trigger] line@[k]),
                    tokens_from(line@, start + 1) == tokens_from(line@, if i == start {
                        i + 1
                    } else {
                        i as int
                    }),
                decreases line.len() - i,
            {
                word.push(line[i]);
                i += 1;
                assert(word@ =~= line@.subrange(start as int, i as int));
            }
            assert(word_end(line@, i as int) == i);
            assert(i > start);
            let ghost before = views(out@);
            out.push(word);
            assert(views(out@) =~= before.push(line@.subrange(start as int, i as int)));
            assert(views(out@) + tokens_from(line@, i as int) =~= before + (seq![
                line@.subrange(start as int, i as int),
            ] + tokens_from(line@, i as int)));
        }
    }
    assert(views(out@) + tokens_from(line@, i as int) =~= views(out@));
    out
}

} // verus!
