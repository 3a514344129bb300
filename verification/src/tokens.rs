//! How a text span falls apart into separator runs and words, and how the
//! separators are put back together around substitutes.

use vstd::prelude::*;
use vstd::utf8::encode_utf8;
use crate::alphabet::word_char;

verus! {

/// Length of the longest prefix of `s` all of whose characters are word
/// characters (`word` is true) or all separators (`word` is false).
pub open spec fn run_len(s: Seq<char>, word: bool) -> nat
    decreases s.len(),
{
    if s.len() == 0 || word_char(s[0]) != word {
        0
    } else {
        1 + run_len(s.skip(1), word)
    }
}

/// What is left of `s` behind its leading separator run.
pub open spec fn after_separator(s: Seq<char>) -> Seq<char> {
    s.skip(run_len(s, false) as int)
}

/// What is left of `s` behind its leading separator run and the word that
/// follows it.
pub open spec fn after_word(s: Seq<char>) -> Seq<char> {
    after_separator(s).skip(run_len(after_separator(s), true) as int)
}

/// The words of `s`, in order: its maximal runs of word characters.
pub open spec fn words(s: Seq<char>) -> Seq<Seq<char>>
    decreases s.len(),
    via words_decreases
{
    if after_separator(s).len() == 0 {
        Seq::empty()
    } else {
        seq![after_separator(s).take(run_len(after_separator(s), true) as int)] + words(
            after_word(s),
        )
    }
}

/// The separator runs of `s`, in order: what stands before the first word,
/// between two words, and behind the last word. There is one more of them
/// than there are words; the first and the last may be empty.
pub open spec fn separators(s: Seq<char>) -> Seq<Seq<char>>
    decreases s.len(),
    via separators_decreases
{
    if after_separator(s).len() == 0 {
        seq![s]
    } else {
        seq![s.take(run_len(s, false) as int)] + separators(after_word(s))
    }
}

/// The first `k` separator runs, each followed by the filling of the same
/// rank.
pub open spec fn woven(seps: Seq<Seq<char>>, fill: Seq<Seq<char>>, k: nat) -> Seq<char>
    decreases k,
{
    if k == 0 {
        Seq::empty()
    } else {
        woven(seps, fill, (k - 1) as nat) + seps[k - 1] + fill[k - 1]
    }
}

/// The separator runs with the fillings between them: separator, filling,
/// separator, and so on, ending with the last separator.
pub open spec fn weave(seps: Seq<Seq<char>>, fill: Seq<Seq<char>>) -> Seq<char> {
    woven(seps, fill, fill.len()) + seps[fill.len() as int]
}

/// A run is as long as `k` when the first `k` characters are of its class and
/// the next one, if there is one, is not.
pub proof fn lemma_run_len_is(s: Seq<char>, word: bool, k: int)
    requires
        0 <= k <= s.len(),
        forall|i: int| 0 <= i < k ==> word_char(#[trigger] s[i]) == word,
        k < s.len() ==> word_char(s[k]) != word,
    ensures
        run_len(s, word) == k,
    decreases k,
{
    if k > 0 {
        lemma_run_len_is(s.skip(1), word, k - 1);
    }
}

/// A run stays within the sequence, consists of characters of its class, and
/// stops only at the end or before a character of the other class.
pub proof fn lemma_run_len_bounds(s: Seq<char>, word: bool)
    ensures
        run_len(s, word) <= s.len(),
        forall|i: int| 0 <= i < run_len(s, word) ==> word_char(#[trigger] s[i]) == word,
        run_len(s, word) < s.len() ==> word_char(s[run_len(s, word) as int]) != word,
    decreases s.len(),
{
    if s.len() > 0 && word_char(s[0]) == word {
        let rest = s.skip(1);
        lemma_run_len_bounds(rest, word);
        assert forall|i: int| 0 <= i < run_len(s, word) implies word_char(#[trigger] s[i])
            == word by {
            if i > 0 {
                assert(s[i] == rest[i - 1]);
            }
        }
    }
}

/// Behind a separator run that does not reach the end stands a word of at
/// least one character.
pub proof fn lemma_word_follows(s: Seq<char>)
    requires
        after_separator(s).len() > 0,
    ensures
        run_len(after_separator(s), true) >= 1,
        run_len(s, false) + run_len(after_separator(s), true) <= s.len(),
        after_word(s).len() < s.len(),
{
    lemma_run_len_bounds(s, false);
    lemma_run_len_bounds(after_separator(s), true);
}

#[via_fn]
proof fn words_decreases(s: Seq<char>) {
    if after_separator(s).len() != 0 {
        lemma_word_follows(s);
    }
}

#[via_fn]
proof fn separators_decreases(s: Seq<char>) {
    if after_separator(s).len() != 0 {
        lemma_word_follows(s);
    }
}

/// Where `s` starts with `a` separators followed by a word that ends at `b`,
/// that run and that word are its first separator run and its first word, and
/// the others are those of what follows.
pub proof fn lemma_first_token(s: Seq<char>, a: int, b: int)
    requires
        0 <= a < b <= s.len(),
        forall|j: int| 0 <= j < a ==> !word_char(#[trigger] s[j]),
        forall|j: int| a <= j < b ==> word_char(#[trigger] s[j]),
        b < s.len() ==> !word_char(s[b]),
    ensures
        words(s) == seq![s.subrange(a, b)] + words(s.skip(b)),
        separators(s) == seq![s.subrange(0, a)] + separators(s.skip(b)),
{
    lemma_run_len_is(s, false, a);
    let rest = s.skip(a);
    lemma_run_len_is(rest, true, b - a);
    assert(rest.skip(b - a) =~= s.skip(b));
    assert(rest.take(b - a) =~= s.subrange(a, b));
}

/// A span without a word character is one separator run and has no word.
pub proof fn lemma_only_separator(s: Seq<char>)
    requires
        forall|j: int| 0 <= j < s.len() ==> !word_char(#[trigger] s[j]),
    ensures
        words(s) == Seq::<Seq<char>>::empty(),
        separators(s) == seq![s],
{
    lemma_run_len_is(s, false, s.len() as int);
}

/// There is one separator run more than there are words.
pub proof fn lemma_token_counts(s: Seq<char>)
    ensures
        separators(s).len() == words(s).len() + 1,
    decreases s.len(),
{
    if after_separator(s).len() != 0 {
        lemma_word_follows(s);
        lemma_token_counts(after_word(s));
    }
}

/// What is woven up to rank `k` depends on the first `k` separator runs and
/// fillings only.
pub proof fn lemma_woven_agrees(
    seps: Seq<Seq<char>>,
    fill: Seq<Seq<char>>,
    other_seps: Seq<Seq<char>>,
    other_fill: Seq<Seq<char>>,
    k: nat,
)
    requires
        forall|j: int| 0 <= j < k ==> seps[j] == other_seps[j],
        forall|j: int| 0 <= j < k ==> fill[j] == other_fill[j],
    ensures
        woven(seps, fill, k) == woven(other_seps, other_fill, k),
    decreases k,
{
    if k > 0 {
        lemma_woven_agrees(seps, fill, other_seps, other_fill, (k - 1) as nat);
    }
}

/// A run of word characters that is not empty.
pub open spec fn is_word(w: Seq<char>) -> bool {
    w.len() > 0 && forall|i: int| 0 <= i < w.len() ==> word_char(#[trigger] w[i])
}

/// What is woven up to rank `k` starts with the first separator run and the
/// first filling; the rest is woven from the others.
pub proof fn lemma_woven_first(seps: Seq<Seq<char>>, fill: Seq<Seq<char>>, k: nat)
    requires
        1 <= k <= fill.len(),
        k <= seps.len(),
    ensures
        woven(seps, fill, k) == seps[0] + fill[0] + woven(
            seps.skip(1),
            fill.skip(1),
            (k - 1) as nat,
        ),
    decreases k,
{
    if k == 1 {
        assert(woven(seps, fill, 0) =~= Seq::<char>::empty());
    } else {
        lemma_woven_first(seps, fill, (k - 1) as nat);
        let shorter = woven(seps.skip(1), fill.skip(1), (k - 2) as nat);
        assert(woven(seps, fill, k) =~= seps[0] + fill[0] + (shorter + seps[k - 1] + fill[k
            - 1]));
    }
}

/// A weave with at least one filling starts with the first separator run and
/// the first filling; the rest is the weave of the others.
pub proof fn lemma_weave_first(seps: Seq<Seq<char>>, fill: Seq<Seq<char>>)
    requires
        fill.len() >= 1,
        seps.len() == fill.len() + 1,
    ensures
        weave(seps, fill) == seps[0] + fill[0] + weave(seps.skip(1), fill.skip(1)),
{
    lemma_woven_first(seps, fill, fill.len());
}

/// Putting the words of a text back between its separator runs gives the
/// text.
pub proof fn lemma_weave_own_words(s: Seq<char>)
    ensures
        weave(separators(s), words(s)) == s,
    decreases s.len(),
{
    if after_separator(s).len() != 0 {
        lemma_word_follows(s);
        lemma_run_len_bounds(s, false);
        let rest = after_word(s);
        lemma_weave_own_words(rest);
        lemma_token_counts(s);
        lemma_weave_first(separators(s), words(s));
        assert(separators(s).skip(1) =~= separators(rest));
        assert(words(s).skip(1) =~= words(rest));
    }
}

/// Where every filling is a word, the separator runs of a text are the
/// separator runs of what is woven from them, and the fillings are its
/// words: the separators stay what and where they were among the words.
pub proof fn lemma_separators_survive(s: Seq<char>, fill: Seq<Seq<char>>)
    requires
        fill.len() == words(s).len(),
        forall|i: int| 0 <= i < fill.len() ==> is_word(#[trigger] fill[i]),
    ensures
        separators(weave(separators(s), fill)) == separators(s),
        words(weave(separators(s), fill)) == fill,
    decreases s.len(),
{
    if after_separator(s).len() != 0 {
        lemma_word_follows(s);
        lemma_run_len_bounds(s, false);
        lemma_token_counts(s);
        // The weave is the first separator run, the first filling, and the
        // weave of the rest, of which the claim holds already.
        let out = weave(separators(s), fill);
        let rest = after_word(s);
        let sep = s.take(run_len(s, false) as int);
        let tail = weave(separators(rest), fill.skip(1));
        assert(separators(s).skip(1) =~= separators(rest));
        lemma_separators_survive(rest, fill.skip(1));
        lemma_weave_first(separators(s), fill);
        let a = sep.len() as int;
        let b = a + fill[0].len();
        if b < out.len() {
            // What follows the first filling starts with a separator.
            lemma_token_counts(rest);
            lemma_run_len_bounds(after_separator(s), true);
            lemma_run_len_bounds(rest, false);
            if rest.len() > 0 {
                assert(separators(rest)[0].len() >= 1 && separators(rest)[0][0] == rest[0]);
                if fill.len() > 1 {
                    lemma_weave_first(separators(rest), fill.skip(1));
                }
            }
        }
        lemma_first_token(out, a, b);
        assert(out.skip(b) =~= tail);
        assert(out.subrange(a, b) =~= fill[0]);
        assert(out.subrange(0, a) =~= sep);
    }
}

/// Where the first `k` fillings are as long as the words they stand for, the
/// separator run of rank `k` begins at the same place in what is woven as in
/// the text.
pub proof fn lemma_separator_offset(s: Seq<char>, fill: Seq<Seq<char>>, k: nat)
    requires
        fill.len() == words(s).len(),
        k <= fill.len(),
        forall|j: int| 0 <= j < k ==> (#[trigger] fill[j]).len() == words(s)[j].len(),
    ensures
        woven(separators(s), fill, k).len() == woven(separators(s), words(s), k).len(),
    decreases k,
{
    if k > 0 {
        lemma_separator_offset(s, fill, (k - 1) as nat);
    }
}

/// Each word of a text is a run of word characters that is not empty.
pub proof fn lemma_words_are_words(s: Seq<char>)
    ensures
        forall|i: int| 0 <= i < words(s).len() ==> is_word(#[trigger] words(s)[i]),
    decreases s.len(),
{
    if after_separator(s).len() != 0 {
        lemma_word_follows(s);
        let rest = after_separator(s);
        lemma_run_len_bounds(rest, true);
        lemma_words_are_words(after_word(s));
        assert(is_word(rest.take(run_len(rest, true) as int)));
        assert forall|i: int| 0 <= i < words(s).len() implies is_word(#[trigger] words(s)[i]) by {
            if i > 0 {
                assert(words(s)[i] == words(after_word(s))[i - 1]);
            }
        }
    }
}

/// What is woven up to a rank is the start of what is woven up to any later
/// rank.
pub proof fn lemma_woven_grows(seps: Seq<Seq<char>>, fill: Seq<Seq<char>>, k: nat, n: nat)
    requires
        k <= n,
    ensures
        woven(seps, fill, k).is_prefix_of(woven(seps, fill, n)),
    decreases n - k,
{
    if k < n {
        lemma_woven_grows(seps, fill, k, (n - 1) as nat);
    }
}

/// In a weave, the separator run of rank `k` stands right behind what is
/// woven up to that rank.
pub proof fn lemma_separator_place(seps: Seq<Seq<char>>, fill: Seq<Seq<char>>, k: nat)
    requires
        k <= fill.len(),
    ensures
        woven(seps, fill, k).len() + seps[k as int].len() <= weave(seps, fill).len(),
        weave(seps, fill).subrange(
            woven(seps, fill, k).len() as int,
            (woven(seps, fill, k).len() + seps[k as int].len()) as int,
        ) == seps[k as int],
{
    if k < fill.len() {
        let start = woven(seps, fill, k).len() as int;
        let longer = woven(seps, fill, k + 1);
        lemma_woven_grows(seps, fill, k + 1, fill.len());
        assert forall|j: int| 0 <= j < seps[k as int].len() implies weave(seps, fill)[start + j]
            == seps[k as int][j] by {
            assert(weave(seps, fill)[start + j] == longer[start + j]);
        }
        assert(weave(seps, fill).subrange(start, start + seps[k as int].len()) =~= seps[k as int]);
    }
}

/// How many bytes `s` takes in UTF-8.
pub open spec fn byte_len(s: Seq<char>) -> nat {
    encode_utf8(s).len()
}

/// The bytes of two texts, one behind the other, are the bytes of the first
/// followed by the bytes of the second.
pub proof fn lemma_bytes_concat(a: Seq<char>, b: Seq<char>)
    ensures
        encode_utf8(a + b) == encode_utf8(a) + encode_utf8(b),
        byte_len(a + b) == byte_len(a) + byte_len(b),
    decreases a.len(),
{
    if a.len() == 0 {
        assert(a + b =~= b);
    } else {
        lemma_bytes_concat(a.drop_first(), b);
        assert((a + b).drop_first() =~= a.drop_first() + b);
    }
}

/// Where the first `k` fillings take as many bytes as the words they stand
/// for, the separator run of rank `k` begins at the same byte in what is
/// woven as in the text.
pub proof fn lemma_separator_byte_offset(s: Seq<char>, fill: Seq<Seq<char>>, k: nat)
    requires
        fill.len() == words(s).len(),
        k <= fill.len(),
        forall|j: int| 0 <= j < k ==> byte_len(#[trigger] fill[j]) == byte_len(words(s)[j]),
    ensures
        byte_len(woven(separators(s), fill, k)) == byte_len(woven(separators(s), words(s), k)),
    decreases k,
{
    if k > 0 {
        let seps = separators(s);
        lemma_separator_byte_offset(s, fill, (k - 1) as nat);
        let before = woven(seps, fill, (k - 1) as nat);
        let before_own = woven(seps, words(s), (k - 1) as nat);
        lemma_bytes_concat(before, seps[k - 1]);
        lemma_bytes_concat(before + seps[k - 1], fill[k - 1]);
        lemma_bytes_concat(before_own, seps[k - 1]);
        lemma_bytes_concat(before_own + seps[k - 1], words(s)[k - 1]);
    }
}

/// In the bytes of a weave, the bytes of the separator run of rank `k` stand
/// right behind the bytes of what is woven up to that rank.
pub proof fn lemma_separator_byte_place(seps: Seq<Seq<char>>, fill: Seq<Seq<char>>, k: nat)
    requires
        k <= fill.len(),
    ensures
        byte_len(woven(seps, fill, k)) + byte_len(seps[k as int]) <= byte_len(weave(seps, fill)),
        encode_utf8(weave(seps, fill)).subrange(
            byte_len(woven(seps, fill, k)) as int,
            (byte_len(woven(seps, fill, k)) + byte_len(seps[k as int])) as int,
        ) == encode_utf8(seps[k as int]),
{
    let before = woven(seps, fill, k);
    let run = seps[k as int];
    let all = weave(seps, fill);
    let start = before.len() as int;
    let end = start + run.len();
    lemma_separator_place(seps, fill, k);
    lemma_woven_grows(seps, fill, k, fill.len());
    let behind = all.skip(end);
    assert(all =~= before + run + behind);
    lemma_bytes_concat(before, run);
    lemma_bytes_concat(before + run, behind);
}

} // verus!
