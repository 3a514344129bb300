//! The word source: a text with one candidate word on each line.

use vstd::prelude::*;
use vstd::string::*;
use crate::strings::{push_range, to_chars};

verus! {

/// Whether `c` has the Unicode property White_Space.
pub uninterp spec fn whitespace(c: char) -> bool;

/// `char::is_whitespace` of the standard library: true for the characters
/// with the Unicode property White_Space.
pub assume_specification[ char::is_whitespace ](c: char) -> (b: bool)
    ensures
        b == whitespace(c),
;

/// The length of the first line of `s`, its line feed included if it has
/// one.
pub open spec fn line_len(s: Seq<char>) -> nat
    decreases s.len(),
{
    if s.len() == 0 {
        0
    } else if s[0] == '\n' {
        1
    } else {
        1 + line_len(s.skip(1))
    }
}

/// The lines of `s`, each with its line feed. What stands behind the last
/// line feed is a line too, unless it is empty.
pub open spec fn lines(s: Seq<char>) -> Seq<Seq<char>>
    decreases s.len(),
    via lines_decreases
{
    if s.len() == 0 {
        Seq::empty()
    } else {
        seq![s.take(line_len(s) as int)] + lines(s.skip(line_len(s) as int))
    }
}

/// How many whitespace characters `s` ends with.
pub open spec fn trailing_whitespace(s: Seq<char>) -> nat
    decreases s.len(),
{
    if s.len() == 0 || !whitespace(s.last()) {
        0
    } else {
        1 + trailing_whitespace(s.drop_last())
    }
}

/// `s` without the whitespace it ends with.
pub open spec fn trimmed(s: Seq<char>) -> Seq<char> {
    s.take(s.len() - trailing_whitespace(s))
}

/// The candidate words a word source lists: its lines, each without the
/// whitespace it ends with.
pub open spec fn listed_words(content: Seq<char>) -> Seq<Seq<char>> {
    Seq::new(lines(content).len(), |i: int| trimmed(lines(content)[i]))
}

/// A line of a text that is not empty has at least one character and ends
/// within the text.
pub proof fn lemma_line_len_bounds(s: Seq<char>)
    ensures
        line_len(s) <= s.len(),
        s.len() > 0 ==> line_len(s) >= 1,
    decreases s.len(),
{
    if s.len() > 0 && s[0] != '\n' {
        lemma_line_len_bounds(s.skip(1));
    }
}

#[via_fn]
proof fn lines_decreases(s: Seq<char>) {
    lemma_line_len_bounds(s);
}

/// The first line is `k` long when no line feed stands before place `k - 1`
/// and one stands there, or the text ends there.
pub proof fn lemma_line_len_is(s: Seq<char>, k: int)
    requires
        1 <= k <= s.len(),
        forall|i: int| 0 <= i < k - 1 ==> #[trigger] s[i] != '\n',
        s[k - 1] == '\n' || k == s.len(),
    ensures
        line_len(s) == k,
    decreases k,
{
    if s[0] != '\n' {
        if k == 1 {
            assert(line_len(s.skip(1)) == 0);
        } else {
            lemma_line_len_is(s.skip(1), k - 1);
        }
    }
}

/// `s` ends with `t` whitespace characters when its last `t` characters are
/// whitespace and the one before them is not.
pub proof fn lemma_trailing_is(s: Seq<char>, t: int)
    requires
        0 <= t <= s.len(),
        forall|i: int| s.len() - t <= i < s.len() ==> whitespace(#[trigger] s[i]),
        t < s.len() ==> !whitespace(s[s.len() - t - 1]),
    ensures
        trailing_whitespace(s) == t,
    decreases t,
{
    if t > 0 {
        lemma_trailing_is(s.drop_last(), t - 1);
    }
}

/// Reads the candidate words off a word source.
pub fn word_lines(content: &str) -> (listed: Vec<String>)
    ensures
        listed.deep_view() == listed_words(content@),
{
    let chars = to_chars(content);
    let n = chars.len();
    let mut listed: Vec<String> = Vec::new();
    let ghost mut done: Seq<Seq<char>> = Seq::empty();
    let mut i: usize = 0;
    proof {
        assert(content@.skip(0) =~= content@);
    }
    while i < n
        invariant
            i <= n,
            n == chars.len(),
            chars@ == content@,
            lines(content@) == done + lines(content@.skip(i as int)),
            listed.len() == done.len(),
            forall|k: int| 0 <= k < done.len() ==> (#[trigger] listed[k])@ == trimmed(done[k]),
        decreases n - i,
    {
        let ghost rest = content@.skip(i as int);
        let mut j: usize = i;
        while j < n && chars[j] != '\n'
            invariant
                i <= j <= n,
                n == chars.len(),
                forall|k: int| i <= k < j ==> #[trigger] chars@[k] != '\n',
            decreases n - j,
        {
            j += 1;
        }
        if j < n {
            j += 1;
        }
        let mut e: usize = j;
        while e > i && chars[e - 1].is_whitespace()
            invariant
                i <= e <= j <= n,
                n == chars.len(),
                forall|k: int| e <= k < j ==> whitespace(#[trigger] chars@[k]),
            decreases e,
        {
            e -= 1;
        }
        let mut word = String::new();
        push_range(&mut word, &chars, i, e);
        listed.push(word);
        proof {
            let line = chars@.subrange(i as int, j as int);
            lemma_line_len_is(rest, j - i);
            assert(rest.take(j - i) =~= line);
            assert(rest.skip(j - i) =~= content@.skip(j as int));
            lemma_trailing_is(line, j - e);
            done = done.push(line);
        }
        i = j;
    }
    listed
}

} // verus!
