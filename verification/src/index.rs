//! The wordlist index: known words grouped by length and by hyphenation
//! signature.

use vstd::prelude::*;
use vstd::string::*;
use crate::hyphenation::{signature_of, Language};

verus! {

/// The words of one length, in the order of the word list.
pub struct LengthBucket {
    pub length: usize,
    pub words: Vec<String>,
}

/// The words of one hyphenation signature, in the order of the word list.
pub struct SignatureBucket {
    pub signature: Vec<u8>,
    pub words: Vec<String>,
}

/// The words of `source` that are `length` characters long, in order.
pub open spec fn selected_by_length(source: Seq<Seq<char>>, length: nat) -> Seq<Seq<char>> {
    source.filter(|w: Seq<char>| w.len() == length)
}

/// The words of `source` whose hyphenation signature in `language` is
/// `signature`, in order.
pub open spec fn selected_by_signature(
    source: Seq<Seq<char>>,
    language: Language,
    signature: Seq<u8>,
) -> Seq<Seq<char>> {
    source.filter(|w: Seq<char>| signature_of(w, language) == signature)
}

/// Whether one of the buckets is the one for `length`.
pub open spec fn has_length_bucket(buckets: Seq<LengthBucket>, length: nat) -> bool {
    exists|i: int| 0 <= i < buckets.len() && (#[trigger] buckets[i]).length == length
}

/// Whether one of the buckets is the one for `signature`.
pub open spec fn has_signature_bucket(buckets: Seq<SignatureBucket>, signature: Seq<u8>) -> bool {
    exists|i: int| 0 <= i < buckets.len() && (#[trigger] buckets[i]).signature@ == signature
}

/// The buckets group `source` by length: each holds, in order, exactly the
/// words of its length and at least one; no length has two buckets; every
/// word's length has one.
pub open spec fn groups_by_length(buckets: Seq<LengthBucket>, source: Seq<Seq<char>>) -> bool {
    &&& forall|i: int|
        0 <= i < buckets.len() ==> (#[trigger] buckets[i]).words.deep_view()
            == selected_by_length(source, buckets[i].length as nat)
    &&& forall|i: int| 0 <= i < buckets.len() ==> (#[trigger] buckets[i]).words.len() > 0
    &&& forall|i: int, j: int|
        0 <= i < j < buckets.len() ==> (#[trigger] buckets[i]).length != (
        #[trigger] buckets[j]).length
    &&& forall|k: int|
        0 <= k < source.len() ==> has_length_bucket(buckets, (#[trigger] source[k]).len())
}

/// The buckets group `source` by hyphenation signature, in the same sense.
pub open spec fn groups_by_signature(
    buckets: Seq<SignatureBucket>,
    source: Seq<Seq<char>>,
    language: Language,
) -> bool {
    &&& forall|i: int|
        0 <= i < buckets.len() ==> (#[trigger] buckets[i]).words.deep_view()
            == selected_by_signature(source, language, buckets[i].signature@)
    &&& forall|i: int| 0 <= i < buckets.len() ==> (#[trigger] buckets[i]).words.len() > 0
    &&& forall|i: int, j: int|
        0 <= i < j < buckets.len() ==> (#[trigger] buckets[i]).signature@ != (
        #[trigger] buckets[j]).signature@
    &&& forall|k: int|
        0 <= k < source.len() ==> has_signature_bucket(
            buckets,
            signature_of(#[trigger] source[k], language),
        )
}

/// A word that a selection holds comes from the source and meets the
/// selection's condition; a selection that holds nothing means no word of
/// the source meets it.
pub proof fn lemma_selection<A>(source: Seq<A>, pred: spec_fn(A) -> bool)
    ensures
        forall|i: int|
            0 <= i < source.filter(pred).len() ==> pred(#[trigger] source.filter(pred)[i])
                && source.contains(source.filter(pred)[i]),
        forall|k: int|
            0 <= k < source.len() && pred(#[trigger] source[k]) ==> source.filter(pred).contains(
                source[k],
            ),
        source.filter(pred).len() == 0 ==> forall|k: int|
            0 <= k < source.len() ==> !pred(#[trigger] source[k]),
    decreases source.len(),
{
    reveal(Seq::filter);
    if source.len() > 0 {
        let front = source.drop_last();
        lemma_selection(front, pred);
        let kept = front.filter(pred);
        let all = source.filter(pred);
        assert forall|i: int| 0 <= i < all.len() implies pred(#[trigger] all[i])
            && source.contains(all[i]) by {
            if i < kept.len() {
                assert(all[i] == kept[i]);
                let k = choose|k: int| 0 <= k < front.len() && front[k] == kept[i];
                assert(source[k] == kept[i]);
            } else {
                assert(all[i] == source.last());
                assert(source[source.len() - 1] == all[i]);
            }
        }
        assert forall|k: int| 0 <= k < source.len() && pred(
            #[trigger] source[k],
        ) implies all.contains(source[k]) by {
            if k < front.len() {
                assert(front[k] == source[k]);
                let i = choose|i: int| 0 <= i < kept.len() && kept[i] == front[k];
                assert(all[i] == source[k]);
            } else {
                assert(all[all.len() - 1] == source[k]);
            }
        }
        if all.len() == 0 {
            assert forall|k: int| 0 <= k < source.len() implies !pred(#[trigger] source[k]) by {
                if pred(source[k]) {
                    assert(all.contains(source[k]));
                }
            }
        }
    }
}

/// A selection by length after one more word: the word joins it if it has
/// the length, and nothing else changes.
proof fn lemma_length_selection_grows(source: Seq<Seq<char>>, word: Seq<char>)
    ensures
        forall|n: nat| #[trigger]
            selected_by_length(source.push(word), n) == if word.len() == n {
                selected_by_length(source, n).push(word)
            } else {
                selected_by_length(source, n)
            },
{
    assert forall|n: nat| #[trigger]
        selected_by_length(source.push(word), n) == if word.len() == n {
            selected_by_length(source, n).push(word)
        } else {
            selected_by_length(source, n)
        } by {
        source.lemma_filter_push(word, |w: Seq<char>| w.len() == n);
    }
}

/// A selection by signature after one more word: the word joins it if it has
/// the signature, and nothing else changes.
proof fn lemma_signature_selection_grows(
    source: Seq<Seq<char>>,
    word: Seq<char>,
    language: Language,
)
    ensures
        forall|sig: Seq<u8>| #[trigger]
            selected_by_signature(source.push(word), language, sig) == if signature_of(
                word,
                language,
            ) == sig {
                selected_by_signature(source, language, sig).push(word)
            } else {
                selected_by_signature(source, language, sig)
            },
{
    assert forall|sig: Seq<u8>| #[trigger]
        selected_by_signature(source.push(word), language, sig) == if signature_of(word, language)
            == sig {
            selected_by_signature(source, language, sig).push(word)
        } else {
            selected_by_signature(source, language, sig)
        } by {
        source.lemma_filter_push(word, |w: Seq<char>| signature_of(w, language) == sig);
    }
}

/// Buckets that keep their lengths, and may be joined by more, go on having
/// a bucket for every length they had one for.
proof fn lemma_length_buckets_stay(
    before: Seq<LengthBucket>,
    after: Seq<LengthBucket>,
    length: nat,
)
    requires
        has_length_bucket(before, length),
        before.len() <= after.len(),
        forall|j: int| 0 <= j < before.len() ==> (#[trigger] after[j]).length == before[j].length,
    ensures
        has_length_bucket(after, length),
{
    let j = choose|j: int| 0 <= j < before.len() && (#[trigger] before[j]).length == length;
    assert(after[j].length == length);
}

/// Buckets that keep their signatures, and may be joined by more, go on
/// having a bucket for every signature they had one for.
proof fn lemma_signature_buckets_stay(
    before: Seq<SignatureBucket>,
    after: Seq<SignatureBucket>,
    signature: Seq<u8>,
)
    requires
        has_signature_bucket(before, signature),
        before.len() <= after.len(),
        forall|j: int|
            0 <= j < before.len() ==> (#[trigger] after[j]).signature@ == before[j].signature@,
    ensures
        has_signature_bucket(after, signature),
{
    let j = choose|j: int| 0 <= j < before.len() && (#[trigger] before[j]).signature@ == signature;
    assert(after[j].signature@ == signature);
}

/// Where no bucket is kept for a length, the source has no word of it.
proof fn lemma_no_length_bucket(buckets: Seq<LengthBucket>, source: Seq<Seq<char>>, length: nat)
    requires
        groups_by_length(buckets, source),
        !has_length_bucket(buckets, length),
    ensures
        selected_by_length(source, length) == Seq::<Seq<char>>::empty(),
{
    let pred = |w: Seq<char>| w.len() == length;
    lemma_selection(source, pred);
    let chosen = source.filter(pred);
    if chosen.len() > 0 {
        assert(pred(chosen[0]) && source.contains(chosen[0]));
        let k = choose|k: int| 0 <= k < source.len() && source[k] == chosen[0];
        assert(has_length_bucket(buckets, source[k].len()));
    }
    assert(chosen =~= Seq::<Seq<char>>::empty());
}

/// Where no bucket is kept for a signature, the source has no word of it.
proof fn lemma_no_signature_bucket(
    buckets: Seq<SignatureBucket>,
    source: Seq<Seq<char>>,
    language: Language,
    signature: Seq<u8>,
)
    requires
        groups_by_signature(buckets, source, language),
        !has_signature_bucket(buckets, signature),
    ensures
        selected_by_signature(source, language, signature) == Seq::<Seq<char>>::empty(),
{
    let pred = |w: Seq<char>| signature_of(w, language) == signature;
    lemma_selection(source, pred);
    let chosen = source.filter(pred);
    if chosen.len() > 0 {
        assert(pred(chosen[0]) && source.contains(chosen[0]));
        let k = choose|k: int| 0 <= k < source.len() && source[k] == chosen[0];
        assert(has_signature_bucket(buckets, signature_of(source[k], language)));
    }
    assert(chosen =~= Seq::<Seq<char>>::empty());
}

/// The position of the bucket for `length`, if one is kept.
fn find_length(buckets: &Vec<LengthBucket>, length: usize) -> (r: Option<usize>)
    ensures
        match r {
            Some(i) => i < buckets.len() && buckets[i as int].length == length,
            None => !has_length_bucket(buckets@, length as nat),
        },
{
    let mut i: usize = 0;
    while i < buckets.len()
        invariant
            i <= buckets.len(),
            forall|j: int| 0 <= j < i ==> (#[trigger] buckets[j]).length != length,
        decreases buckets.len() - i,
    {
        if buckets[i].length == length {
            return Some(i);
        }
        i += 1;
    }
    None
}

/// Whether two signatures are the same.
fn same_signature(a: &Vec<u8>, b: &Vec<u8>) -> (same: bool)
    ensures
        same == (a@ == b@),
{
    if a.len() != b.len() {
        return false;
    }
    let mut i: usize = 0;
    while i < a.len()
        invariant
            i <= a.len(),
            a.len() == b.len(),
            forall|j: int| 0 <= j < i ==> a[j] == b[j],
        decreases a.len() - i,
    {
        if a[i] != b[i] {
            return false;
        }
        i += 1;
    }
    assert(a@ =~= b@);
    true
}

/// The position of the bucket for `signature`, if one is kept.
fn find_signature(buckets: &Vec<SignatureBucket>, signature: &Vec<u8>) -> (r: Option<usize>)
    ensures
        match r {
            Some(i) => i < buckets.len() && buckets[i as int].signature@ == signature@,
            None => !has_signature_bucket(buckets@, signature@),
        },
{
    let mut i: usize = 0;
    while i < buckets.len()
        invariant
            i <= buckets.len(),
            forall|j: int| 0 <= j < i ==> (#[trigger] buckets[j]).signature@ != signature@,
        decreases buckets.len() - i,
    {
        if same_signature(&buckets[i].signature, signature) {
            return Some(i);
        }
        i += 1;
    }
    None
}

/// Files `word` under its length.
fn add_by_length(buckets: &mut Vec<LengthBucket>, word: &str, Ghost(source): Ghost<Seq<Seq<char>>>)
    requires
        groups_by_length(old(buckets)@, source),
    ensures
        groups_by_length(final(buckets)@, source.push(word@)),
{
    let length = word.unicode_len();
    let ghost before = buckets@;
    let ghost longer = source.push(word@);
    proof {
        lemma_length_selection_grows(source, word@);
    }
    match find_length(buckets, length) {
        Some(i) => {
            buckets[i].words.push(String::from_str(word));
            proof {
                let grown = before[i as int].words.deep_view().push(word@);
                assert(buckets@[i as int].words.deep_view() =~= grown);
                assert(buckets@[i as int].length == word@.len());
            }
        },
        None => {
            let mut words: Vec<String> = Vec::new();
            words.push(String::from_str(word));
            buckets.push(LengthBucket { length, words });
            proof {
                lemma_no_length_bucket(before, source, length as nat);
                assert(buckets@.last().words.deep_view() =~= seq![word@]);
                assert(buckets@.last().length == word@.len());
            }
        },
    }
    proof {
        assert forall|k: int| 0 <= k < longer.len() implies has_length_bucket(
            buckets@,
            (#[trigger] longer[k]).len(),
        ) by {
            if k < source.len() {
                lemma_length_buckets_stay(before, buckets@, source[k].len());
            }
        }
    }
}

/// Files `word` under its hyphenation signature.
fn add_by_signature(
    buckets: &mut Vec<SignatureBucket>,
    signature: Vec<u8>,
    word: &str,
    Ghost(source): Ghost<Seq<Seq<char>>>,
    Ghost(language): Ghost<Language>,
)
    requires
        groups_by_signature(old(buckets)@, source, language),
        signature@ == signature_of(word@, language),
    ensures
        groups_by_signature(final(buckets)@, source.push(word@), language),
{
    let ghost before = buckets@;
    let ghost key = signature@;
    let ghost longer = source.push(word@);
    proof {
        lemma_signature_selection_grows(source, word@, language);
    }
    match find_signature(buckets, &signature) {
        Some(i) => {
            buckets[i].words.push(String::from_str(word));
            proof {
                let grown = before[i as int].words.deep_view().push(word@);
                assert(buckets@[i as int].words.deep_view() =~= grown);
                assert(buckets@[i as int].signature@ == key);
            }
        },
        None => {
            let mut words: Vec<String> = Vec::new();
            words.push(String::from_str(word));
            buckets.push(SignatureBucket { signature, words });
            proof {
                lemma_no_signature_bucket(before, source, language, key);
                assert(buckets@.last().words.deep_view() =~= seq![word@]);
                assert(buckets@.last().signature@ == key);
            }
        },
    }
    proof {
        assert forall|k: int| 0 <= k < longer.len() implies has_signature_bucket(
            buckets@,
            signature_of(#[trigger] longer[k], language),
        ) by {
            if k < source.len() {
                lemma_signature_buckets_stay(before, buckets@, signature_of(source[k], language));
            }
        }
    }
}

/// Known words, grouped by their length in characters and by their
/// hyphenation signature in one language.
pub struct WordIndex {
    pub language: Language,
    pub by_length: Vec<LengthBucket>,
    pub by_signature: Vec<SignatureBucket>,
    pub source: Ghost<Seq<Seq<char>>>,
}

impl WordIndex {
    /// The word list the index was built from, in order.
    pub open spec fn words(&self) -> Seq<Seq<char>> {
        self.source@
    }

    /// The indexed words that are `length` characters long, in the order of
    /// the word list.
    pub open spec fn of_length(&self, length: nat) -> Seq<Seq<char>> {
        selected_by_length(self.source@, length)
    }

    /// The indexed words whose hyphenation signature is `signature`, in the
    /// order of the word list.
    pub open spec fn of_signature(&self, signature: Seq<u8>) -> Seq<Seq<char>> {
        selected_by_signature(self.source@, self.language, signature)
    }

    /// The language is one words can be hyphenated in, and the buckets group
    /// the word list by length and by signature.
    pub open spec fn well_formed(&self) -> bool {
        &&& self.language.supported()
        &&& groups_by_length(self.by_length@, self.source@)
        &&& groups_by_signature(self.by_signature@, self.source@, self.language)
    }

    /// An index of no words.
    pub fn empty(language: Language) -> (index: WordIndex)
        requires
            language.supported(),
        ensures
            index.well_formed(),
            index.language == language,
            index.words() == Seq::<Seq<char>>::empty(),
    {
        WordIndex {
            language,
            by_length: Vec::new(),
            by_signature: Vec::new(),
            source: Ghost(Seq::empty()),
        }
    }

    /// Adds `word` behind the words indexed so far.
    pub fn insert(&mut self, word: &str)
        requires
            old(self).well_formed(),
        ensures
            final(self).well_formed(),
            final(self).language == old(self).language,
            final(self).words() == old(self).words().push(word@),
    {
        let signature = self.language.signature(word);
        add_by_length(&mut self.by_length, word, Ghost(self.source@));
        add_by_signature(
            &mut self.by_signature,
            signature,
            word,
            Ghost(self.source@),
            Ghost(self.language),
        );
        self.source = Ghost(self.source@.push(word@));
    }

    /// Indexes the words of a word list, in order.
    pub fn build(words: &Vec<String>, language: Language) -> (index: WordIndex)
        requires
            language.supported(),
        ensures
            index.well_formed(),
            index.language == language,
            index.words() == words.deep_view(),
    {
        let mut index = WordIndex::empty(language);
        let mut i: usize = 0;
        while i < words.len()
            invariant
                i <= words.len(),
                index.well_formed(),
                index.language == language,
                index.words() == words.deep_view().take(i as int),
            decreases words.len() - i,
        {
            index.insert(words[i].as_str());
            i += 1;
        }
        index
    }

    /// The words that are `length` characters long, if there are any.
    pub fn with_length(&self, length: usize) -> (r: Option<&Vec<String>>)
        requires
            self.well_formed(),
        ensures
            r is Some <==> self.of_length(length as nat).len() > 0,
            r matches Some(found) ==> found.deep_view() == self.of_length(length as nat),
    {
        match find_length(&self.by_length, length) {
            Some(i) => Some(&self.by_length[i].words),
            None => {
                proof {
                    lemma_no_length_bucket(self.by_length@, self.source@, length as nat);
                }
                None
            },
        }
    }

    /// The words whose hyphenation signature is `signature`, if there are
    /// any.
    pub fn with_signature(&self, signature: &Vec<u8>) -> (r: Option<&Vec<String>>)
        requires
            self.well_formed(),
        ensures
            r is Some <==> self.of_signature(signature@).len() > 0,
            r matches Some(found) ==> found.deep_view() == self.of_signature(signature@),
    {
        match find_signature(&self.by_signature, signature) {
            Some(i) => Some(&self.by_signature[i].words),
            None => {
                proof {
                    lemma_no_signature_bucket(
                        self.by_signature@,
                        self.source@,
                        self.language,
                        signature@,
                    );
                }
                None
            },
        }
    }

    /// Whether the length bucket at position `i` holds `word`.
    pub open spec fn length_bucket_holds(&self, i: int, word: Seq<char>) -> bool {
        0 <= i < self.by_length.len() && self.by_length[i].words.deep_view().contains(word)
    }

    /// Whether the signature bucket at position `i` holds `word`.
    pub open spec fn signature_bucket_holds(&self, i: int, word: Seq<char>) -> bool {
        0 <= i < self.by_signature.len() && self.by_signature[i].words.deep_view().contains(word)
    }

    /// Every word of the word list is held by exactly one length bucket, the
    /// one for its length, and by exactly one signature bucket, the one for
    /// its hyphenation signature.
    pub proof fn lemma_one_bucket_each(&self, k: int)
        requires
            self.well_formed(),
            0 <= k < self.words().len(),
        ensures
            exists|i: int| self.length_bucket_holds(i, self.words()[k]),
            forall|i: int| #[trigger]
                self.length_bucket_holds(i, self.words()[k]) ==> self.by_length[i].length
                    == self.words()[k].len(),
            forall|i: int, j: int|
                self.length_bucket_holds(i, self.words()[k]) && self.length_bucket_holds(
                    j,
                    self.words()[k],
                ) ==> i == j,
            exists|i: int| self.signature_bucket_holds(i, self.words()[k]),
            forall|i: int| #[trigger]
                self.signature_bucket_holds(i, self.words()[k]) ==> self.by_signature[i].signature@
                    == signature_of(self.words()[k], self.language),
            forall|i: int, j: int|
                self.signature_bucket_holds(i, self.words()[k]) && self.signature_bucket_holds(
                    j,
                    self.words()[k],
                ) ==> i == j,
    {
        let word = self.words()[k];
        let source = self.words();
        assert forall|i: int| #[trigger]
            self.length_bucket_holds(i, word) implies self.by_length[i].length == word.len() by {
            let length = self.by_length[i].length as nat;
            lemma_selection(source, |w: Seq<char>| w.len() == length);
        }
        assert forall|i: int| #[trigger]
            self.signature_bucket_holds(i, word) implies self.by_signature[i].signature@
            == signature_of(word, self.language) by {
            let signature = self.by_signature[i].signature@;
            lemma_selection(source, |w: Seq<char>| signature_of(w, self.language) == signature);
        }
        let at = choose|i: int|
            0 <= i < self.by_length.len() && (#[trigger] self.by_length@[i]).length == word.len();
        lemma_selection(source, |w: Seq<char>| w.len() == word.len());
        assert(self.length_bucket_holds(at, word));
        let found = choose|i: int|
            0 <= i < self.by_signature.len() && (#[trigger] self.by_signature@[i]).signature@
                == signature_of(word, self.language);
        lemma_selection(
            source,
            |w: Seq<char>| signature_of(w, self.language) == signature_of(word, self.language),
        );
        assert(self.signature_bucket_holds(found, word));
    }
}

} // verus!
