//! The text tokenizer: separators are echoed, words are handed to the word
//! mutilator.

use vstd::prelude::*;
use vstd::utf8::{is_ascii_chars, is_ascii_chars_encode_utf8};
use crate::alphabet::word_char;
use crate::context::Context;
use crate::index::WordIndex;
use crate::strings::{push_range, to_chars};
use crate::tokens::{
    byte_len,
    is_word,
    lemma_first_token,
    lemma_only_separator,
    lemma_separator_byte_offset,
    lemma_separator_offset,
    lemma_separators_survive,
    lemma_token_counts,
    lemma_weave_own_words,
    lemma_words_are_words,
    lemma_woven_agrees,
    separators,
    weave,
    words,
    woven,
};
use crate::word::{
    draws_for,
    lemma_length_kept,
    lemma_substitute_is_word,
    lemma_substitute_is_ascii,
    mutilate_word,
    replaces,
    source_of,
    Source,
};

verus! {

/// Each of the `substitutes` is one the word of the same rank may get.
pub open spec fn replaces_each(
    index: &WordIndex,
    replaced: Seq<Seq<char>>,
    substitutes: Seq<Seq<char>>,
) -> bool {
    &&& substitutes.len() == replaced.len()
    &&& forall|i: int|
        0 <= i < replaced.len() ==> replaces(index, #[trigger] replaced[i], substitutes[i])
}

/// Whether `out` is `text` with each word replaced by a substitute it may
/// get and every separator run left as it is.
pub open spec fn mutilates_text(index: &WordIndex, text: Seq<char>, out: Seq<char>) -> bool {
    exists|substitutes: Seq<Seq<char>>|
        replaces_each(index, words(text), substitutes) && out == weave(
            separators(text),
            substitutes,
        )
}

/// How many draws the substitutes of all the `replaced` words take.
pub open spec fn draws_for_all(index: &WordIndex, replaced: Seq<Seq<char>>) -> nat
    decreases replaced.len(),
{
    if replaced.len() == 0 {
        0
    } else {
        draws_for_all(index, replaced.drop_last()) + draws_for(index, replaced.last())
    }
}

/// Appends `text` to `output` with every word replaced and every separator
/// run echoed.
pub fn mutilate_text(text: &str, context: &mut Context, output: &mut String)
    requires
        old(context).well_formed(),
    ensures
        final(context).well_formed(),
        final(context).same_settings(old(context)),
        final(context).draws() == old(context).draws() + draws_for_all(
            &old(context).index,
            words(text@),
        ),
        exists|piece: Seq<char>|
            mutilates_text(&old(context).index, text@, piece) && final(output)@ == old(output)@
                + piece,
{
    let chars = to_chars(text);
    let n = chars.len();
    let ghost index = context.index;
    let ghost all_words = words(text@);
    let ghost all_seps = separators(text@);
    let ghost mut substitutes: Seq<Seq<char>> = Seq::empty();
    let mut i: usize = 0;
    proof {
        lemma_token_counts(text@);
        assert(text@.skip(0) =~= text@);
    }
    loop
        invariant_except_break
            i <= n,
            substitutes.len() <= all_words.len(),
            all_words.skip(substitutes.len() as int) == words(text@.skip(i as int)),
            all_seps.skip(substitutes.len() as int) == separators(text@.skip(i as int)),
            replaces_each(&index, all_words.take(substitutes.len() as int), substitutes),
            output@ == old(output)@ + woven(all_seps, substitutes, substitutes.len()),
            context.draws() == old(context).draws() + draws_for_all(
                &index,
                all_words.take(substitutes.len() as int),
            ),
        invariant
            n == chars.len(),
            chars@ == text@,
            index == old(context).index,
            all_words == words(text@),
            all_seps == separators(text@),
            all_seps.len() == all_words.len() + 1,
            context.well_formed(),
            context.same_settings(old(context)),
        ensures
            replaces_each(&index, all_words, substitutes),
            output@ == old(output)@ + weave(all_seps, substitutes),
            context.draws() == old(context).draws() + draws_for_all(&index, all_words),
        decreases n - i,
    {
        let ghost k = substitutes.len() as int;
        let ghost rest = text@.skip(i as int);
        let mut a: usize = i;
        while a < n && !chars[a].is_alphanumeric()
            invariant
                i <= a <= n,
                n == chars.len(),
                forall|j: int| i <= j < a ==> !word_char(#[trigger] chars@[j]),
            decreases n - a,
        {
            a += 1;
        }
        push_range(output, &chars, i, a);
        if a == n {
            proof {
                // What is left is the last separator run.
                lemma_only_separator(rest);
                assert(all_words.take(k) =~= all_words);
                assert(all_seps.skip(k)[0] == rest);
            }
            break ;
        }
        let mut b: usize = a;
        let mut word = String::new();
        while b < n && chars[b].is_alphanumeric()
            invariant
                a <= b <= n,
                n == chars.len(),
                word@ == chars@.subrange(a as int, b as int),
                forall|j: int| a <= j < b ==> word_char(#[trigger] chars@[j]),
            decreases n - b,
        {
            word.push(chars[b]);
            b += 1;
        }
        let ghost before = output@;
        mutilate_word(word.as_str(), context, output);
        proof {
            let substitute = choose|substitute: Seq<char>|
                replaces(&index, word@, substitute) && output@ == before + substitute;
            // The separator run and the word just passed are the next ones
            // of the text.
            lemma_first_token(rest, a - i, b - i);
            assert(rest.skip(b - i) =~= text@.skip(b as int));
            assert(all_words.skip(k)[0] == word@);
            assert(all_seps.skip(k)[0] == rest.subrange(0, a - i));
            assert(all_words.skip(k + 1) =~= all_words.skip(k).skip(1));
            assert(all_seps.skip(k + 1) =~= all_seps.skip(k).skip(1));
            assert(all_words.take(k + 1).drop_last() =~= all_words.take(k));
            lemma_woven_agrees(
                all_seps,
                substitutes,
                all_seps,
                substitutes.push(substitute),
                k as nat,
            );
            substitutes = substitutes.push(substitute);
        }
        i = b;
    }
}

/// Where every known word is a word, mutilating a text leaves its separator
/// runs as they are: after it the text has the same separator runs, in the
/// same order and between as many words, and each word is a substitute of
/// the word that stood there.
pub proof fn lemma_shape_preserved(index: &WordIndex, text: Seq<char>, out: Seq<char>)
    requires
        forall|k: int| 0 <= k < index.words().len() ==> is_word(#[trigger] index.words()[k]),
        mutilates_text(index, text, out),
    ensures
        separators(out) == separators(text),
        replaces_each(index, words(text), words(out)),
{
    let substitutes = choose|substitutes: Seq<Seq<char>>|
        replaces_each(index, words(text), substitutes) && out == weave(
            separators(text),
            substitutes,
        );
    lemma_words_are_words(text);
    assert forall|i: int| 0 <= i < substitutes.len() implies is_word(
        #[trigger] substitutes[i],
    ) by {
        lemma_substitute_is_word(index, words(text)[i], substitutes[i]);
    }
    lemma_separators_survive(text, substitutes);
}

/// Whether the substitute of `word` is always as long as `word`: it is,
/// unless the word is a number of several digits, or the substitute is drawn
/// by hyphenation signature.
pub open spec fn keeps_length(index: &WordIndex, word: Seq<char>) -> bool {
    match source_of(index, word) {
        Source::Digit => word.len() == 1,
        Source::Signature => false,
        _ => true,
    }
}

/// Where the substitutes of the first `k` words are always as long as the
/// words, the separator run of rank `k` begins at the same place after the
/// mutilation as before.
pub proof fn lemma_positions_kept(
    index: &WordIndex,
    text: Seq<char>,
    substitutes: Seq<Seq<char>>,
    k: nat,
)
    requires
        replaces_each(index, words(text), substitutes),
        k <= words(text).len(),
        forall|j: int| 0 <= j < k ==> keeps_length(index, #[trigger] words(text)[j]),
    ensures
        woven(separators(text), substitutes, k).len() == woven(
            separators(text),
            words(text),
            k,
        ).len(),
{
    assert forall|j: int| 0 <= j < k implies (#[trigger] substitutes[j]).len() == words(
        text,
    )[j].len() by {
        let word = words(text)[j];
        if source_of(index, word) == Source::Length {
            lemma_length_kept(index, word, substitutes[j]);
        }
    }
    lemma_separator_offset(text, substitutes, k);
}

/// Where the substitute of every word is always as long as the word, a
/// mutilated text is as long as the text.
pub proof fn lemma_text_length_kept(index: &WordIndex, text: Seq<char>, out: Seq<char>)
    requires
        mutilates_text(index, text, out),
        forall|j: int|
            0 <= j < words(text).len() ==> keeps_length(index, #[trigger] words(text)[j]),
    ensures
        out.len() == text.len(),
{
    let substitutes = choose|substitutes: Seq<Seq<char>>|
        replaces_each(index, words(text), substitutes) && out == weave(
            separators(text),
            substitutes,
        );
    lemma_positions_kept(index, text, substitutes, words(text).len());
    lemma_weave_own_words(text);
}

/// The same in bytes: where every known word is ASCII, and the first `k`
/// words are ASCII and get substitutes that are always as long as
/// themselves, the separator run of rank `k` begins at the same byte after
/// the mutilation as before.
pub proof fn lemma_byte_positions_kept(
    index: &WordIndex,
    text: Seq<char>,
    substitutes: Seq<Seq<char>>,
    k: nat,
)
    requires
        forall|i: int| 0 <= i < index.words().len() ==> is_ascii_chars(#[trigger] index.words()[i]),
        replaces_each(index, words(text), substitutes),
        k <= words(text).len(),
        forall|j: int| 0 <= j < k ==> keeps_length(index, #[trigger] words(text)[j]),
        forall|j: int| 0 <= j < k ==> is_ascii_chars(#[trigger] words(text)[j]),
    ensures
        byte_len(woven(separators(text), substitutes, k)) == byte_len(
            woven(separators(text), words(text), k),
        ),
{
    assert forall|j: int| 0 <= j < k implies byte_len(#[trigger] substitutes[j]) == byte_len(
        words(text)[j],
    ) by {
        let word = words(text)[j];
        lemma_substitute_is_ascii(index, word, substitutes[j]);
        if source_of(index, word) == Source::Length {
            lemma_length_kept(index, word, substitutes[j]);
        }
        is_ascii_chars_encode_utf8(word);
        is_ascii_chars_encode_utf8(substitutes[j]);
    }
    lemma_separator_byte_offset(text, substitutes, k);
}

} // verus!
