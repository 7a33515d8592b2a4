//! The dictionary and the constraints that the solver puts on a word.

use vstd::prelude::*;
use vstd::string::StrSliceExecFns;
use vstd::utf8::{encode_utf8, is_ascii_chars};

verus! {

/// Why a dictionary could not be loaded.
#[derive(PartialEq, Eq, Structural, Clone, Copy, Debug)]
pub enum LoadWordsError {
    FileError,
    ParseError,
}

/// A condition on a candidate word.
#[derive(Debug, Clone)]
pub enum WordConstraint {
    /// The word is this many bytes long.
    Length(usize),
    /// The word has this letter at this index, counted in letters.
    CharAt(usize, char),
}

/// A dictionary: every entry is a word in lower case together with the
/// length in bytes of the word as it was given. No entry occurs twice.
pub struct WordList {
    pub entries: Vec<(usize, String)>,
}

#[verifier::external_type_specification]
#[verifier::external_body]
pub struct ExJsonError(serde_json::Error);

/// The lower-case form of a text, as the standard library computes it.
pub uninterp spec fn lowercase_text(text: Seq<char>) -> Seq<char>;

/// The array of strings that a JSON text holds, if it holds one.
pub uninterp spec fn json_words(raw: Seq<char>) -> Option<Seq<Seq<char>>>;

/// `str::to_lowercase`: the result is the lower-case form of the text, which
/// depends on the text alone.
#[verifier::external_body]
fn lowercase(word: &String) -> (lowered: String)
    ensures
        lowered@ == lowercase_text(word@),
{
    word.to_lowercase()
}

/// `serde_json::from_str` at the type of a vector of strings: it returns
/// the strings of the JSON array that the text holds, or an error if the
/// text is no such array. Which of the two depends on the text alone.
#[verifier::external_body]
fn parse_word_array(raw: &str) -> (parsed: Result<Vec<String>, serde_json::Error>)
    ensures
        match parsed {
            Ok(words) => json_words(raw@) == Some(texts(words@)),
            Err(_) => json_words(raw@) is None,
        },
{
    serde_json::from_str::<Vec<String>>(raw)
}

/// The length of a text in bytes.
pub open spec fn byte_len(text: Seq<char>) -> usize {
    encode_utf8(text).len() as usize
}

/// How often the letter occurs in the words of the entries.
pub open spec fn letter_count(entries: Seq<(usize, String)>, letter: char) -> nat
    decreases entries.len(),
{
    if entries.len() == 0 {
        0
    } else {
        letter_count(entries.drop_last(), letter) + entries.last().1@.to_multiset().count(letter)
    }
}

/// A count as a machine number: the largest one where it does not fit.
pub open spec fn capped(count: nat) -> usize {
    if count <= usize::MAX {
        count as usize
    } else {
        usize::MAX
    }
}

/// Whether the counts have an entry for the letter.
pub open spec fn counted(counts: Seq<(char, usize)>, letter: char) -> bool {
    exists|i: int| 0 <= i < counts.len() && (#[trigger] counts[i]).0 == letter
}

/// The texts of a sequence of strings.
pub open spec fn texts(words: Seq<String>) -> Seq<Seq<char>> {
    Seq::new(words.len(), |i: int| words[i]@)
}

/// Whether one of the strings has the text.
pub open spec fn listed(words: Seq<String>, text: Seq<char>) -> bool {
    exists|i: int| 0 <= i < words.len() && (#[trigger] words[i])@ == text
}

/// Whether no two of the strings have the same text.
pub open spec fn distinct(words: Seq<String>) -> bool {
    forall|i: int, j: int| 0 <= i < j < words.len() ==> (#[trigger] words[i])@ != (#[trigger] words[j])@
}

/// The number that a constraint mentions: a length or an index.
pub open spec fn mentioned(constraint: WordConstraint) -> nat {
    match constraint {
        WordConstraint::Length(length) => length as nat,
        WordConstraint::CharAt(index, _) => index as nat,
    }
}

/// The largest number that the constraints mention; zero without any.
pub open spec fn threshold(constraints: Seq<WordConstraint>) -> nat
    decreases constraints.len(),
{
    if constraints.len() == 0 {
        0
    } else {
        let before = threshold(constraints.drop_last());
        let last = mentioned(constraints.last());
        if last > before {
            last
        } else {
            before
        }
    }
}

/// Whether the text meets every constraint.
pub open spec fn meets_all(constraints: Seq<WordConstraint>, text: Seq<char>) -> bool {
    forall|i: int| 0 <= i < constraints.len() ==> (#[trigger] constraints[i]).spec_satisfies(text)
}

/// A text of at least one byte has at least one letter.
pub proof fn lemma_bytes_need_letters(text: Seq<char>)
    requires
        byte_len(text) > 0,
    ensures
        text.len() > 0,
{
}

impl WordConstraint {
    /// Whether the text meets the constraint.
    pub open spec fn spec_satisfies(&self, text: Seq<char>) -> bool {
        match *self {
            WordConstraint::Length(length) => byte_len(text) == length,
            WordConstraint::CharAt(index, letter) => index < text.len() && text[index as int] == letter,
        }
    }

    /// Whether the word meets the constraint.
    pub fn satisfies(&self, word: &String) -> (met: bool)
        ensures
            met == self.spec_satisfies(word@),
    {
        match self {
            WordConstraint::Length(length) => word.as_str().len() == *length,
            WordConstraint::CharAt(index, letter) => {
                let text = word.as_str();
                *index < text.unicode_len() && text.get_char(*index) == *letter
            },
        }
    }

    /// A copy of the constraint.
    pub fn duplicate(&self) -> (copy: WordConstraint)
        ensures
            copy == *self,
    {
        match self {
            WordConstraint::Length(length) => WordConstraint::Length(*length),
            WordConstraint::CharAt(index, letter) => WordConstraint::CharAt(*index, *letter),
        }
    }
}

impl WordList {
    /// No entry occurs twice.
    pub open spec fn wf(&self) -> bool {
        forall|i: int, j: int| 0 <= i < j < self.entries@.len()
            ==> !((#[trigger] self.entries@[i]).0 == (#[trigger] self.entries@[j]).0 && self.entries@[i].1@ == self.entries@[j].1@)
    }

    /// Every word of the dictionary is made of ASCII letters and is no longer
    /// than a machine number can count.
    pub open spec fn spec_is_ascii(&self) -> bool {
        forall|i: int| 0 <= i < self.entries@.len() ==> is_ascii_chars((#[trigger] self.entries@[i]).1@) && self.entries@[i].1@.len()
            <= usize::MAX
    }

    /// Whether the dictionary holds the text under the given length.
    pub open spec fn holds(&self, length: usize, text: Seq<char>) -> bool {
        exists|i: int| 0 <= i < self.entries@.len() && (#[trigger] self.entries@[i]).0 == length && self.entries@[i].1@ == text
    }

    /// Whether the dictionary offers the text to the constraints: it holds
    /// the text under a length that is no less than every number the
    /// constraints mention, and the text meets them all.
    pub open spec fn offers(&self, constraints: Seq<WordConstraint>, text: Seq<char>) -> bool {
        &&& exists|i: int| 0 <= i < self.entries@.len() && (#[trigger] self.entries@[i]).0 >= threshold(constraints) && self.entries@[i].1@ == text
        &&& meets_all(constraints, text)
    }

    /// Whether the dictionary holds the word under the given length.
    fn has_entry(&self, length: usize, word: &String) -> (found: bool)
        ensures
            found == self.holds(length, word@),
    {
        let mut i: usize = 0;
        while i < self.entries.len()
            invariant
                i <= self.entries@.len(),
                forall|j: int| 0 <= j < i ==> !((#[trigger] self.entries@[j]).0 == length && self.entries@[j].1@ == word@),
            decreases self.entries@.len() - i,
        {
            if self.entries[i].0 == length && self.entries[i].1 == *word {
                return true;
            }
            i += 1;
        }
        false
    }

    /// The dictionary of the given words: each in lower case, kept under the
    /// length in bytes that it had as given.
    pub fn from_words(words: Vec<String>) -> (list: WordList)
        ensures
            list.wf(),
            forall|length: usize, text: Seq<char>| #[trigger] list.holds(length, text) <==> exists|i: int|
                0 <= i < words@.len() && byte_len((#[trigger] words@[i])@) == length && lowercase_text(words@[i]@) == text,
    {
        let mut list = WordList { entries: Vec::new() };
        let mut i: usize = 0;
        while i < words.len()
            invariant
                i <= words@.len(),
                list.wf(),
                forall|length: usize, text: Seq<char>| #[trigger] list.holds(length, text) <==> exists|j: int|
                    0 <= j < i && byte_len((#[trigger] words@[j])@) == length && lowercase_text(words@[j]@) == text,
            decreases words@.len() - i,
        {
            let length = words[i].as_str().len();
            let lowered = lowercase(&words[i]);
            let ghost before = list;
            let ghost text = lowered@;
            if !list.has_entry(length, &lowered) {
                list.entries.push((length, lowered));
                assert(list.entries@[before.entries@.len() as int].0 == length);
                assert(list.holds(length, text));
            }
            proof {
                assert forall|l: usize, t: Seq<char>| #[trigger] list.holds(l, t) <==> exists|j: int|
                    0 <= j < i + 1 && byte_len((#[trigger] words@[j])@) == l && lowercase_text(words@[j]@) == t by {
                    if list.holds(l, t) {
                        let k = choose|k: int| 0 <= k < list.entries@.len() && (#[trigger] list.entries@[k]).0 == l && list.entries@[k].1@ == t;
                        if k < before.entries@.len() {
                            assert(before.entries@[k] == list.entries@[k]);
                            assert(before.holds(l, t));
                            let j = choose|j: int| 0 <= j < i && byte_len((#[trigger] words@[j])@) == l && lowercase_text(words@[j]@) == t;
                            assert(0 <= j < i + 1);
                        } else {
                            assert(byte_len(words@[i as int]@) == l && lowercase_text(words@[i as int]@) == t);
                        }
                    }
                    if exists|j: int| 0 <= j < i + 1 && byte_len((#[trigger] words@[j])@) == l && lowercase_text(words@[j]@) == t {
                        let j = choose|j: int| 0 <= j < i + 1 && byte_len((#[trigger] words@[j])@) == l && lowercase_text(words@[j]@) == t;
                        if j < i {
                            assert(before.holds(l, t));
                            let k = choose|k: int| 0 <= k < before.entries@.len() && (#[trigger] before.entries@[k]).0 == l && before.entries@[k].1@ == t;
                            assert(list.entries@[k] == before.entries@[k]);
                        }
                    }
                }
            }
            i += 1;
        }
        list
    }

    /// The dictionary of the words in a JSON array of strings.
    pub fn from_json(raw: &str) -> (loaded: Result<WordList, LoadWordsError>)
        ensures
            match loaded {
                Ok(list) => json_words(raw@) is Some && list.wf() && forall|length: usize, text: Seq<char>| #[trigger] list.holds(length, text) <==> exists|i: int|
                    0 <= i < json_words(raw@).unwrap().len() && byte_len(#[trigger] json_words(raw@).unwrap()[i]) == length
                        && lowercase_text(json_words(raw@).unwrap()[i]) == text,
                Err(error) => json_words(raw@) is None && error == LoadWordsError::ParseError,
            },
    {
        match parse_word_array(raw) {
            Ok(words) => {
                let ghost given = words@;
                let list = WordList::from_words(words);
                proof {
                    let parsed = json_words(raw@).unwrap();
                    assert(parsed == texts(given));
                    assert forall|length: usize, text: Seq<char>| #[trigger] list.holds(length, text) <==> exists|i: int|
                        0 <= i < parsed.len() && byte_len(#[trigger] parsed[i]) == length && lowercase_text(parsed[i]) == text by {
                        if list.holds(length, text) {
                            let i = choose|i: int| 0 <= i < given.len() && byte_len((#[trigger] given[i])@) == length && lowercase_text(given[i]@) == text;
                            assert(parsed[i] == given[i]@);
                        }
                        if exists|i: int| 0 <= i < parsed.len() && byte_len(#[trigger] parsed[i]) == length && lowercase_text(parsed[i]) == text {
                            let i = choose|i: int| 0 <= i < parsed.len() && byte_len(#[trigger] parsed[i]) == length && lowercase_text(parsed[i]) == text;
                            assert(parsed[i] == given[i]@);
                        }
                    }
                }
                Ok(list)
            },
            Err(_) => Err(LoadWordsError::ParseError),
        }
    }

    /// The number of entries.
    pub fn size(&self) -> (count: usize)
        ensures
            count == self.entries@.len(),
    {
        self.entries.len()
    }

    /// Whether the dictionary holds the word under the word's own length.
    pub fn is_word_valid(&self, word: &String) -> (valid: bool)
        ensures
            valid == self.holds(byte_len(word@), word@),
    {
        self.has_entry(word.as_str().len(), word)
    }

    /// The letters that occur in the dictionary, each once, with the number
    /// of times it occurs in the dictionary's words.
    pub fn frequencies(&self) -> (counts: Vec<(char, usize)>)
        ensures
            forall|i: int, j: int| 0 <= i < j < counts@.len() ==> (#[trigger] counts@[i]).0 != (#[trigger] counts@[j]).0,
            forall|i: int| 0 <= i < counts@.len() ==> (#[trigger] counts@[i]).1 >= 1
                && counts@[i].1 == capped(letter_count(self.entries@, counts@[i].0)),
            forall|letter: char| letter_count(self.entries@, letter) > 0 <==> counted(counts@, letter),
    {
        let mut counts: Vec<(char, usize)> = Vec::new();
        let mut e: usize = 0;
        assert(self.entries@.take(0) =~= Seq::empty());
        while e < self.entries.len()
            invariant
                e <= self.entries@.len(),
                forall|i: int, j: int| 0 <= i < j < counts@.len() ==> (#[trigger] counts@[i]).0 != (#[trigger] counts@[j]).0,
                forall|i: int| 0 <= i < counts@.len() ==> (#[trigger] counts@[i]).1 >= 1
                    && counts@[i].1 == capped(letter_count(self.entries@.take(e as int), counts@[i].0)),
                forall|letter: char| letter_count(self.entries@.take(e as int), letter) > 0 <==> counted(counts@, letter),
            decreases self.entries@.len() - e,
        {
            let word = self.entries[e].1.as_str();
            let letters = word.unicode_len();
            let ghost done = self.entries@.take(e as int);
            let mut k: usize = 0;
            proof {
                assert(word@.take(0) =~= Seq::empty());
                assert forall|letter: char| word@.take(0).to_multiset().count(letter) == 0 by {
                    word@.take(0).to_multiset_ensures();
                }
            }
            while k < letters
                invariant
                    e < self.entries@.len(),
                    k <= letters,
                    letters == word@.len(),
                    word@ == self.entries@[e as int].1@,
                    done == self.entries@.take(e as int),
                    forall|i: int, j: int| 0 <= i < j < counts@.len() ==> (#[trigger] counts@[i]).0 != (#[trigger] counts@[j]).0,
                    forall|i: int| 0 <= i < counts@.len() ==> (#[trigger] counts@[i]).1 >= 1
                        && counts@[i].1 == capped(letter_count(done, counts@[i].0) + word@.take(k as int).to_multiset().count(counts@[i].0)),
                    forall|letter: char| letter_count(done, letter) + word@.take(k as int).to_multiset().count(letter) > 0 <==> counted(counts@, letter),
                decreases letters - k,
            {
                let letter = word.get_char(k);
                let ghost before = counts@;
                let mut at: usize = 0;
                while at < counts.len() && counts[at].0 != letter
                    invariant
                        at <= counts@.len(),
                        forall|i: int| 0 <= i < at ==> (#[trigger] counts@[i]).0 != letter,
                    decreases counts@.len() - at,
                {
                    at += 1;
                }
                if at < counts.len() {
                    let seen = counts[at].1;
                    let more: usize = if seen < usize::MAX { seen + 1 } else { seen };
                    counts.set(at, (letter, more));
                } else {
                    proof {
                        assert(!counted(before, letter));
                    }
                    counts.push((letter, 1));
                }
                proof {
                    let shorter = word@.take(k as int);
                    let longer = word@.take(k + 1);
                    assert(longer =~= shorter.push(letter));
                    shorter.to_multiset_ensures();
                    assert(longer.to_multiset() =~= shorter.to_multiset().insert(letter));
                    assert forall|other: char| longer.to_multiset().count(other) == shorter.to_multiset().count(other) + (if other == letter { 1int } else { 0int }) by {}
                    assert(counts@[at as int].0 == letter);
                    assert forall|i: int| 0 <= i < before.len() implies (#[trigger] counts@[i]).0 == before[i].0 by {}
                    assert forall|other: char| counted(before, other) implies counted(counts@, other) by {
                        let i = choose|i: int| 0 <= i < before.len() && (#[trigger] before[i]).0 == other;
                        assert(counts@[i].0 == other);
                    }
                    assert(counted(counts@, letter));
                    assert forall|other: char| counted(counts@, other) implies other == letter || counted(before, other) by {
                        let i = choose|i: int| 0 <= i < counts@.len() && (#[trigger] counts@[i]).0 == other;
                        if i < before.len() {
                            assert(before[i].0 == other);
                        }
                    }
                    assert forall|other: char| letter_count(done, other) + longer.to_multiset().count(other) > 0 <==> counted(counts@, other) by {
                        assert(longer.to_multiset().count(other) == shorter.to_multiset().count(other) + (if other == letter { 1int } else { 0int }));
                        if other != letter {
                            assert(letter_count(done, other) + shorter.to_multiset().count(other) > 0 <==> counted(before, other));
                            if counted(counts@, other) {
                                assert(counted(before, other));
                            }
                        }
                    }
                    assert forall|i: int| 0 <= i < counts@.len() implies (#[trigger] counts@[i]).1 >= 1
                        && counts@[i].1 == capped(letter_count(done, counts@[i].0) + longer.to_multiset().count(counts@[i].0)) by {
                        if i != at {
                            assert(counts@[i] == before[i]);
                        }
                    }
                }
                k += 1;
            }
            proof {
                assert(word@.take(letters as int) =~= word@);
                assert(self.entries@.take(e + 1).drop_last() =~= done);
                assert(self.entries@.take(e + 1).last() == self.entries@[e as int]);
                assert forall|letter: char| letter_count(self.entries@.take(e + 1), letter) == letter_count(done, letter) + word@.to_multiset().count(letter) by {}
            }
            e += 1;
        }
        assert(self.entries@.take(self.entries@.len() as int) =~= self.entries@);
        counts
    }

    /// The words that the dictionary offers to the constraints, each once.
    pub fn find_constrained_words(&self, constraints: Vec<WordConstraint>) -> (found: Vec<String>)
        ensures
            distinct(found@),
            forall|text: Seq<char>| listed(found@, text) <==> self.offers(constraints@, text),
    {
        let mut least: usize = 0;
        let mut c: usize = 0;
        while c < constraints.len()
            invariant
                c <= constraints@.len(),
                least == threshold(constraints@.take(c as int)),
            decreases constraints@.len() - c,
        {
            let number = match constraints[c] {
                WordConstraint::Length(length) => length,
                WordConstraint::CharAt(index, _) => index,
            };
            assert(constraints@.take(c + 1).drop_last() =~= constraints@.take(c as int));
            if number > least {
                least = number;
            }
            c += 1;
        }
        assert(constraints@.take(constraints@.len() as int) =~= constraints@);
        let mut found: Vec<String> = Vec::new();
        let mut e: usize = 0;
        while e < self.entries.len()
            invariant
                e <= self.entries@.len(),
                least == threshold(constraints@),
                distinct(found@),
                forall|i: int| 0 <= i < found@.len() ==> self.offers(constraints@, (#[trigger] found@[i])@),
                forall|f: int| 0 <= f < e && (#[trigger] self.entries@[f]).0 >= least && meets_all(constraints@, self.entries@[f].1@)
                    ==> listed(found@, self.entries@[f].1@),
            decreases self.entries@.len() - e,
        {
            let ghost before = found@;
            if self.entries[e].0 >= least {
                let word = &self.entries[e].1;
                let mut met = true;
                let mut k: usize = 0;
                while k < constraints.len() && met
                    invariant
                        k <= constraints@.len(),
                        met ==> forall|i: int| 0 <= i < k ==> (#[trigger] constraints@[i]).spec_satisfies(word@),
                        !met ==> !meets_all(constraints@, word@),
                    decreases constraints@.len() - k,
                {
                    met = constraints[k].satisfies(word);
                    k += 1;
                }
                if met {
                    let mut at: usize = 0;
                    while at < found.len() && found[at] != *word
                        invariant
                            at <= found@.len(),
                            forall|i: int| 0 <= i < at ==> (#[trigger] found@[i])@ != word@,
                        decreases found@.len() - at,
                    {
                        at += 1;
                    }
                    if at == found.len() {
                        found.push(word.clone());
                        assert(found@[before.len() as int]@ == word@);
                    }
                    assert(listed(found@, word@)) by {
                        assert(found@[at as int]@ == word@);
                    }
                }
            }
            proof {
                assert forall|f: int| 0 <= f < e + 1 && (#[trigger] self.entries@[f]).0 >= least && meets_all(constraints@, self.entries@[f].1@)
                    implies listed(found@, self.entries@[f].1@) by {
                    if f < e {
                        let i = choose|i: int| 0 <= i < before.len() && (#[trigger] before[i])@ == self.entries@[f].1@;
                        assert(found@[i]@ == self.entries@[f].1@);
                    }
                }
            }
            e += 1;
        }
        proof {
            assert forall|text: Seq<char>| listed(found@, text) <==> self.offers(constraints@, text) by {
                if self.offers(constraints@, text) {
                    let i = choose|i: int| 0 <= i < self.entries@.len() && (#[trigger] self.entries@[i]).0 >= threshold(constraints@) && self.entries@[i].1@ == text;
                    assert(listed(found@, self.entries@[i].1@));
                }
            }
        }
        found
    }
}

} // verus!
