//! The word mutilator: which substitute a single word gets.

use vstd::prelude::*;
use vstd::string::*;
use vstd::utf8::is_ascii_chars;
use crate::alphabet::{
    ascii_letter,
    decimal_digit,
    digits,
    lemma_digits,
    lemma_letters,
    letters,
    number_char,
    word_char,
};
use crate::context::{Context, Generator};
use crate::hyphenation::signature_of;
use crate::index::{lemma_selection, WordIndex};
use crate::strings::to_chars;
use crate::tokens::is_word;

verus! {

/// The least number of words a bucket must hold before a substitute is drawn
/// from it.
pub const MINIMUM_WORD_COUNT: usize = 16;

/// Where the substitute of a word comes from.
#[derive(Debug, Clone, Copy, PartialEq, Eq, Structural)]
pub enum Source {
    /// The word is a number: one digit stands for it.
    Digit,
    /// A known word of the same hyphenation signature.
    Signature,
    /// A known word of the same length.
    Length,
    /// As many letters as the word has characters.
    Synthetic,
}

/// Whether `word` is a number: every character of it is part of a number.
pub open spec fn all_numeric(word: Seq<char>) -> bool {
    forall|i: int| 0 <= i < word.len() ==> number_char(#[trigger] word[i])
}

/// The known words with the hyphenation signature of `word`.
pub open spec fn signature_candidates(index: &WordIndex, word: Seq<char>) -> Seq<Seq<char>> {
    index.of_signature(signature_of(word, index.language))
}

/// The known words with the length of `word`.
pub open spec fn length_candidates(index: &WordIndex, word: Seq<char>) -> Seq<Seq<char>> {
    index.of_length(word.len())
}

/// The rule that applies to `word`: the first that fits, in the order digit,
/// signature, length, synthetic. A bucket fits only if it holds the minimum
/// number of words.
pub open spec fn source_of(index: &WordIndex, word: Seq<char>) -> Source {
    if all_numeric(word) {
        Source::Digit
    } else if signature_candidates(index, word).len() >= MINIMUM_WORD_COUNT {
        Source::Signature
    } else if length_candidates(index, word).len() >= MINIMUM_WORD_COUNT {
        Source::Length
    } else {
        Source::Synthetic
    }
}

/// Whether `substitute` is one of the substitutes `word` may get.
pub open spec fn replaces(index: &WordIndex, word: Seq<char>, substitute: Seq<char>) -> bool {
    match source_of(index, word) {
        Source::Digit => substitute.len() == 1 && decimal_digit(substitute[0]),
        Source::Signature => signature_candidates(index, word).contains(substitute),
        Source::Length => length_candidates(index, word).contains(substitute),
        Source::Synthetic => substitute.len() == word.len() && forall|i: int|
            0 <= i < substitute.len() ==> ascii_letter(#[trigger] substitute[i]),
    }
}

/// How many draws the substitute of `word` takes: one for each letter of a
/// synthetic word, one otherwise.
pub open spec fn draws_for(index: &WordIndex, word: Seq<char>) -> nat {
    match source_of(index, word) {
        Source::Synthetic => word.len(),
        _ => 1,
    }
}

/// Whether every character is part of a number.
pub fn is_number(word: &Vec<char>) -> (b: bool)
    ensures
        b == all_numeric(word@),
{
    let mut i: usize = 0;
    while i < word.len()
        invariant
            i <= word.len(),
            forall|j: int| 0 <= j < i ==> number_char(#[trigger] word@[j]),
        decreases word.len() - i,
    {
        if !word[i].is_numeric() {
            return false;
        }
        i += 1;
    }
    true
}

/// Finds the rule that applies to `word`.
pub fn classify(word: &str, index: &WordIndex) -> (source: Source)
    requires
        index.well_formed(),
    ensures
        source == source_of(index, word@),
{
    let chars = to_chars(word);
    if is_number(&chars) {
        return Source::Digit;
    }
    let signature = index.language.signature(word);
    if let Some(bucket) = index.with_signature(&signature) {
        if bucket.len() >= MINIMUM_WORD_COUNT {
            return Source::Signature;
        }
    }
    if let Some(bucket) = index.with_length(chars.len()) {
        if bucket.len() >= MINIMUM_WORD_COUNT {
            return Source::Length;
        }
    }
    Source::Synthetic
}

/// Draws one of the characters and appends it to `output`.
fn draw_character(table: &Vec<char>, generator: &mut Generator, output: &mut String)
    requires
        table.len() > 0,
    ensures
        final(generator).draws() == old(generator).draws() + 1,
        exists|c: char| table@.contains(c) && final(output)@ == old(output)@.push(c),
{
    if let Some(c) = generator.draw(table.as_slice()) {
        output.push(*c);
    }
}

/// Draws one of the words and appends it to `output`.
fn draw_word(bucket: &Vec<String>, generator: &mut Generator, output: &mut String)
    requires
        bucket.len() > 0,
    ensures
        final(generator).draws() == old(generator).draws() + 1,
        exists|known: Seq<char>|
            bucket.deep_view().contains(known) && final(output)@ == old(output)@ + known,
{
    if let Some(known) = generator.draw(bucket.as_slice()) {
        output.append(known.as_str());
        proof {
            let at = choose|at: int| 0 <= at < bucket@.len() && bucket@[at] == *known;
            assert(bucket.deep_view()[at] == known@);
            assert(bucket.deep_view().contains(known@));
        }
    }
}

/// Appends a substitute for `word` to `output`: a digit for a number, else a
/// known word of the same hyphenation signature, else one of the same
/// length, else as many letters as the word has characters. A bucket of
/// known words is drawn from only if it holds the minimum number of words.
pub fn mutilate_word(word: &str, context: &mut Context, output: &mut String)
    requires
        old(context).well_formed(),
    ensures
        final(context).well_formed(),
        final(context).same_settings(old(context)),
        final(context).draws() == old(context).draws() + draws_for(&old(context).index, word@),
        exists|substitute: Seq<char>|
            replaces(&old(context).index, word@, substitute) && final(output)@ == old(output)@
                + substitute,
{
    let chars = to_chars(word);
    if is_number(&chars) {
        draw_character(&context.digits, &mut context.generator, output);
        proof {
            lemma_digits();
            let digit = choose|c: char| digits().contains(c) && output@ == old(output)@.push(c);
            assert(output@ =~= old(output)@ + seq![digit]);
        }
        return ;
    }
    let signature = context.index.language.signature(word);
    if let Some(bucket) = context.index.with_signature(&signature) {
        if bucket.len() >= MINIMUM_WORD_COUNT {
            draw_word(bucket, &mut context.generator, output);
            return ;
        }
    }
    if let Some(bucket) = context.index.with_length(chars.len()) {
        if bucket.len() >= MINIMUM_WORD_COUNT {
            draw_word(bucket, &mut context.generator, output);
            return ;
        }
    }
    let ghost mut substitute: Seq<char> = Seq::empty();
    let mut i: usize = 0;
    while i < chars.len()
        invariant
            i <= chars.len(),
            context.well_formed(),
            context.same_settings(old(context)),
            context.draws() == old(context).draws() + i,
            substitute.len() == i,
            forall|j: int| 0 <= j < i ==> ascii_letter(#[trigger] substitute[j]),
            output@ == old(output)@ + substitute,
        decreases chars.len() - i,
    {
        let ghost before = output@;
        draw_character(&context.letters, &mut context.generator, output);
        proof {
            lemma_letters();
            let letter = choose|c: char| letters().contains(c) && output@ == before.push(c);
            substitute = substitute.push(letter);
        }
        i += 1;
    }
}

/// A number is replaced by exactly one digit.
pub proof fn lemma_digit_collapse(index: &WordIndex, word: Seq<char>, substitute: Seq<char>)
    requires
        all_numeric(word),
        replaces(index, word, substitute),
    ensures
        substitute.len() == 1,
        decimal_digit(substitute[0]),
{
}

/// Where the bucket for a word's hyphenation signature holds the minimum
/// number of words, the substitute is one of them, and its hyphenation
/// signature is that of the word.
pub proof fn lemma_signature_kept(index: &WordIndex, word: Seq<char>, substitute: Seq<char>)
    requires
        !all_numeric(word),
        signature_candidates(index, word).len() >= MINIMUM_WORD_COUNT,
        replaces(index, word, substitute),
    ensures
        signature_candidates(index, word).contains(substitute),
        index.words().contains(substitute),
        signature_of(substitute, index.language) == signature_of(word, index.language),
{
    let wanted = signature_of(word, index.language);
    lemma_selection(index.words(), |w: Seq<char>| signature_of(w, index.language) == wanted);
}

/// Where the substitute comes from the bucket for a word's length, it is a
/// known word as long as the word.
pub proof fn lemma_length_kept(index: &WordIndex, word: Seq<char>, substitute: Seq<char>)
    requires
        source_of(index, word) == Source::Length,
        replaces(index, word, substitute),
    ensures
        index.words().contains(substitute),
        substitute.len() == word.len(),
{
    let wanted = word.len();
    lemma_selection(index.words(), |w: Seq<char>| w.len() == wanted);
}

/// A bucket with fewer words than the minimum is never drawn from: with
/// fewer in the signature bucket, the substitute comes from the length bucket
/// or is synthetic; with fewer in both, it is synthetic.
pub proof fn lemma_small_bucket_skipped(index: &WordIndex, word: Seq<char>)
    requires
        !all_numeric(word),
        signature_candidates(index, word).len() < MINIMUM_WORD_COUNT,
    ensures
        source_of(index, word) != Source::Signature,
        source_of(index, word) == Source::Length <==> length_candidates(index, word).len()
            >= MINIMUM_WORD_COUNT,
        source_of(index, word) == Source::Synthetic <==> length_candidates(index, word).len()
            < MINIMUM_WORD_COUNT,
{
}

/// A synthetic substitute has a letter for each character of the word.
pub proof fn lemma_synthetic(index: &WordIndex, word: Seq<char>, substitute: Seq<char>)
    requires
        source_of(index, word) == Source::Synthetic,
        replaces(index, word, substitute),
    ensures
        substitute.len() == word.len(),
        forall|i: int| 0 <= i < substitute.len() ==> ascii_letter(#[trigger] substitute[i]),
{
}

/// Without a word list, every word that is not a number is replaced by as
/// many letters as it has characters.
pub proof fn lemma_no_words_synthetic(index: &WordIndex, word: Seq<char>, substitute: Seq<char>)
    requires
        index.words().len() == 0,
        !all_numeric(word),
        replaces(index, word, substitute),
    ensures
        source_of(index, word) == Source::Synthetic,
        substitute.len() == word.len(),
        forall|i: int| 0 <= i < substitute.len() ==> ascii_letter(#[trigger] substitute[i]),
{
    let wanted = signature_of(word, index.language);
    index.words().lemma_filter_len(|w: Seq<char>| signature_of(w, index.language) == wanted);
    index.words().lemma_filter_len(|w: Seq<char>| w.len() == word.len());
}

/// Every word has a substitute.
pub proof fn lemma_substitute_exists(index: &WordIndex, word: Seq<char>)
    ensures
        exists|substitute: Seq<char>| replaces(index, word, substitute),
{
    match source_of(index, word) {
        Source::Digit => {
            assert(replaces(index, word, seq!['0']));
        },
        Source::Signature => {
            let bucket = signature_candidates(index, word);
            assert(replaces(index, word, bucket[0]));
        },
        Source::Length => {
            let bucket = length_candidates(index, word);
            assert(replaces(index, word, bucket[0]));
        },
        Source::Synthetic => {
            assert(replaces(index, word, Seq::new(word.len(), |i: int| 'a')));
        },
    }
}

/// Where every known word is a word, the substitute of a word is a word.
pub proof fn lemma_substitute_is_word(index: &WordIndex, word: Seq<char>, substitute: Seq<char>)
    requires
        forall|k: int| 0 <= k < index.words().len() ==> is_word(#[trigger] index.words()[k]),
        is_word(word),
        replaces(index, word, substitute),
    ensures
        is_word(substitute),
{
    match source_of(index, word) {
        Source::Signature => lemma_signature_kept(index, word, substitute),
        Source::Length => lemma_length_kept(index, word, substitute),
        _ => {},
    }
}

/// Where every known word is ASCII, the substitute of a word is ASCII.
pub proof fn lemma_substitute_is_ascii(index: &WordIndex, word: Seq<char>, substitute: Seq<char>)
    requires
        forall|k: int| 0 <= k < index.words().len() ==> is_ascii_chars(#[trigger] index.words()[k]),
        replaces(index, word, substitute),
    ensures
        is_ascii_chars(substitute),
{
    match source_of(index, word) {
        Source::Signature => lemma_signature_kept(index, word, substitute),
        Source::Length => lemma_length_kept(index, word, substitute),
        _ => {},
    }
}

} // verus!
