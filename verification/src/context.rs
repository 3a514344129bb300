//! The state a mutilation run carries along: the word index, the policy flag
//! and the pseudo-random generator.

use rand::seq::SliceRandom;
use rand::SeedableRng;
use rand_xoshiro::Xoshiro256PlusPlus;
use vstd::prelude::*;
use vstd::string::*;
use crate::alphabet::{digit_table, digits, letter_table, letters};
use crate::hyphenation::{language_for, Language, LanguageError};
use crate::index::WordIndex;
use crate::wordlist::{listed_words, word_lines};

verus! {

/// The pseudo-random generator, `rand_xoshiro::Xoshiro256PlusPlus`. Nothing
/// of its state is visible to a proof.
#[verifier::external_type_specification]
#[verifier::external_body]
pub struct ExXoshiro256PlusPlus(Xoshiro256PlusPlus);

/// `SeedableRng::from_seed` of `Xoshiro256PlusPlus`: a generator that starts
/// from the seed. Nothing is claimed of it.
#[verifier::external_body]
fn seeded(seed: [u8; 32]) -> Xoshiro256PlusPlus {
    Xoshiro256PlusPlus::from_seed(seed)
}

/// `rand::seq::SliceRandom::choose` on a slice: nothing if the slice is
/// empty, else one of its items. Which one is left open, and so is what
/// becomes of the generator.
#[verifier::external_body]
fn pick_one<'a, T>(items: &'a [T], rng: &mut Xoshiro256PlusPlus) -> (picked: Option<&'a T>)
    ensures
        items@.len() == 0 ==> picked is None,
        items@.len() > 0 ==> picked is Some,
        picked matches Some(item) ==> items@.contains(*item),
{
    items.choose(rng)
}

/// The pseudo-random generator of a run, with a count of the draws made
/// from it. A draw is the only way to advance the generator, and each draw
/// is counted.
pub struct Generator {
    rng: Xoshiro256PlusPlus,
    draws: Ghost<nat>,
}

impl Generator {
    /// How many draws were made so far.
    pub closed spec fn draws(&self) -> nat {
        self.draws@
    }

    /// A generator that starts from `seed`, with no draw made.
    pub fn from_seed(seed: [u8; 32]) -> (generator: Generator)
        ensures
            generator.draws() == 0,
    {
        Generator { rng: seeded(seed), draws: Ghost(0) }
    }

    /// Draws one of the items: nothing if there are none, else one of them.
    pub fn draw<'a, T>(&mut self, items: &'a [T]) -> (picked: Option<&'a T>)
        ensures
            final(self).draws() == old(self).draws() + 1,
            items@.len() == 0 ==> picked is None,
            items@.len() > 0 ==> picked is Some,
            picked matches Some(item) ==> items@.contains(*item),
    {
        self.draws = Ghost(self.draws@ + 1);
        pick_one(items, &mut self.rng)
    }
}

/// What a run of the mutilator works with. Only the generator changes while
/// it runs.
pub struct Context {
    pub generator: Generator,
    pub aggressive: bool,
    pub index: WordIndex,
    pub letters: Vec<char>,
    pub digits: Vec<char>,
}

impl Context {
    /// The index is well formed and the two tables hold the alphabets.
    pub open spec fn well_formed(&self) -> bool {
        &&& self.index.well_formed()
        &&& self.letters@ == letters()
        &&& self.digits@ == digits()
    }

    /// How many draws were made from the generator so far.
    pub open spec fn draws(&self) -> nat {
        self.generator.draws()
    }

    /// The language words are hyphenated in.
    pub open spec fn language(&self) -> Language {
        self.index.language
    }

    /// Whether `other` has the index, the flag and the tables of this
    /// context.
    pub open spec fn same_settings(&self, other: &Context) -> bool {
        &&& self.index == other.index
        &&& self.aggressive == other.aggressive
        &&& self.letters == other.letters
        &&& self.digits == other.digits
    }

    /// A context over `index` whose generator starts from `seed`.
    pub fn new(seed: [u8; 32], aggressive: bool, index: WordIndex) -> (context: Context)
        requires
            index.well_formed(),
        ensures
            context.well_formed(),
            context.index == index,
            context.aggressive == aggressive,
            context.draws() == 0,
    {
        Context {
            generator: Generator::from_seed(seed),
            aggressive,
            index,
            letters: letter_table(),
            digits: digit_table(),
        }
    }
}

/// The word list a word source stands for: what it lists, or nothing where
/// there is no source.
pub open spec fn words_of(wordlist: Option<&str>) -> Seq<Seq<char>> {
    match wordlist {
        Some(content) => listed_words(content@),
        None => Seq::empty(),
    }
}

/// Sets up a run: selects the language by its code, indexes the word source
/// if there is one, and starts the generator from the seed. Fails on a code
/// that selects no language.
pub fn build_context(
    seed: [u8; 32],
    language: &str,
    wordlist: Option<&str>,
    aggressive: bool,
) -> (r: Result<Context, LanguageError>)
    ensures
        match r {
            Ok(context) => {
                &&& language_for(language.spec_bytes()) == Ok::<Language, LanguageError>(
                    context.language(),
                )
                &&& context.well_formed()
                &&& context.aggressive == aggressive
                &&& context.index.words() == words_of(wordlist)
                &&& context.draws() == 0
            },
            Err(error) => language_for(language.spec_bytes()) == Err::<Language, LanguageError>(
                error,
            ),
        },
{
    let language = match Language::from_iso(language) {
        Ok(language) => language,
        Err(error) => {
            return Err(error);
        },
    };
    let index = match wordlist {
        Some(content) => {
            let listed = word_lines(content);
            WordIndex::build(&listed, language)
        },
        None => WordIndex::empty(language),
    };
    Ok(Context::new(seed, aggressive, index))
}

} // verus!
