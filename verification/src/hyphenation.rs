//! Languages and the hyphenation signature of a word.

use vstd::prelude::*;
use vstd::string::*;

verus! {

/// Whether hyphenation patterns exist for the two-letter ISO 639-1 code made
/// of the bytes `first` and `second`.
pub uninterp spec fn hyphenation_available(first: u8, second: u8) -> bool;

/// The syllables into which the patterns of the language with the code
/// `first`, `second` divide `word`, in order.
pub uninterp spec fn syllables(word: Seq<char>, first: u8, second: u8) -> Seq<Seq<char>>;

/// `hypher::Lang::from_iso`: whether the code selects a language.
#[verifier::external_body]
fn iso_supported(first: u8, second: u8) -> (ok: bool)
    ensures
        ok == hyphenation_available(first, second),
{
    hypher::Lang::from_iso([first, second]).is_some()
}

/// `hypher::hyphenate` under the language that `hypher::Lang::from_iso`
/// selects for the code: the syllables of `word`, collected in order. The
/// code has to select a language.
#[verifier::external_body]
fn hyphenate(word: &str, first: u8, second: u8) -> (parts: Vec<String>)
    requires
        hyphenation_available(first, second),
    ensures
        parts.deep_view() == syllables(word@, first, second),
{
    let lang = hypher::Lang::from_iso([first, second]).unwrap();
    hypher::hyphenate(word, lang).map(String::from).collect()
}

/// Why a language code was turned down.
#[derive(Debug, Clone, Copy, PartialEq, Eq, Structural)]
pub enum LanguageError {
    /// The code is not exactly two bytes long.
    Malformed,
    /// No hyphenation patterns exist for the code.
    Unsupported,
}

/// A language words are hyphenated in, named by its ISO 639-1 code.
#[derive(Debug, Clone, Copy, PartialEq, Eq, Structural)]
pub struct Language {
    pub first: u8,
    pub second: u8,
}

/// The largest syllable length a signature records.
pub const SYLLABLE_MAX: usize = 255;

/// A syllable's length as a signature records it: lengths above the maximum
/// count as the maximum.
pub open spec fn saturated(len: nat) -> u8 {
    if len > SYLLABLE_MAX {
        SYLLABLE_MAX as u8
    } else {
        len as u8
    }
}

/// The hyphenation signature of `word`: the length in characters of each of
/// its syllables, saturated.
pub open spec fn signature_of(word: Seq<char>, language: Language) -> Seq<u8> {
    let parts = syllables(word, language.first, language.second);
    Seq::new(parts.len(), |i: int| saturated(parts[i].len()))
}

/// The language a code given as bytes selects: none unless the code is two
/// bytes long, and none unless hyphenation patterns exist for it.
pub open spec fn language_for(code: Seq<u8>) -> Result<Language, LanguageError> {
    if code.len() != 2 {
        Err(LanguageError::Malformed)
    } else if hyphenation_available(code[0], code[1]) {
        Ok(Language { first: code[0], second: code[1] })
    } else {
        Err(LanguageError::Unsupported)
    }
}

impl Language {
    /// Whether hyphenation patterns exist for this language.
    pub open spec fn supported(self) -> bool {
        hyphenation_available(self.first, self.second)
    }

    /// Selects the language with the given ISO 639-1 code.
    pub fn from_iso(code: &str) -> (r: Result<Language, LanguageError>)
        ensures
            r == language_for(code.spec_bytes()),
    {
        let bytes = code.as_bytes();
        if bytes.len() != 2 {
            return Err(LanguageError::Malformed);
        }
        let first: u8 = bytes[0];
        let second: u8 = bytes[1];
        if iso_supported(first, second) {
            Ok(Language { first, second })
        } else {
            Err(LanguageError::Unsupported)
        }
    }

    /// Computes the hyphenation signature of `word` in this language.
    pub fn signature(&self, word: &str) -> (sig: Vec<u8>)
        requires
            self.supported(),
        ensures
            sig@ == signature_of(word@, *self),
    {
        let parts = hyphenate(word, self.first, self.second);
        let mut sig: Vec<u8> = Vec::new();
        let mut i: usize = 0;
        while i < parts.len()
            invariant
                i <= parts.len(),
                parts.deep_view() == syllables(word@, self.first, self.second),
                sig@.len() == i,
                forall|j: int| 0 <= j < i ==> sig@[j] == saturated(#[trigger] parts[j]@.len()),
            decreases parts.len() - i,
        {
            let len: usize = parts[i].as_str().unicode_len();
            let entry: u8 = if len > SYLLABLE_MAX {
                255u8
            } else {
                len as u8
            };
            sig.push(entry);
            i += 1;
        }
        sig
    }
}

} // verus!
