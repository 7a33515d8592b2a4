//! The solver: it assigns one word to each segment of a path, so that each
//! word is as long as its segment and shares a letter with the word before
//! it where their segments meet.

use vstd::prelude::*;
use vstd::string::StrSliceExecFns;
use vstd::utf8::is_ascii_chars_encode_utf8;
use crate::chance::random_index;
use crate::position::Position;
use crate::words::{byte_len, lemma_bytes_need_letters, listed, meets_all, WordConstraint, WordList};

verus! {

/// A segment with the word assigned to it.
pub struct SolutionWord {
    pub start: Position,
    pub end: Position,
    pub word: String,
}

/// The segments of a path and the words assigned so far, in segment order.
pub struct Solution {
    pub words: Vec<SolutionWord>,
    pub segments: Vec<(Position, Position)>,
}

/// The number of cells of a segment.
pub open spec fn segment_len(segment: (Position, Position)) -> nat {
    segment.0.spec_manhattan(segment.1) + 1
}

/// The index at which a word on `segment` shares a letter with the word
/// before it: the first letter if the segment starts at an end of the
/// earlier one, else the last.
pub open spec fn junction_index(before: SolutionWord, segment: (Position, Position)) -> usize {
    if segment.0 == before.end || segment.0 == before.start {
        0
    } else {
        (segment_len(segment) - 1) as usize
    }
}

/// The letter of the earlier word that a word on `segment` has to share:
/// the letter at the end of the earlier segment where the two meet.
pub open spec fn junction_letter(before: SolutionWord, segment: (Position, Position)) -> char {
    if segment.0 == before.end {
        before.word@.last()
    } else if segment.0 == before.start {
        before.word@[0]
    } else if segment.1 == before.start {
        before.word@[0]
    } else {
        before.word@.last()
    }
}

/// Whether `next` shares the junction letter with the word before it.
pub open spec fn joined(before: SolutionWord, next: SolutionWord) -> bool {
    &&& junction_index(before, (next.start, next.end)) < next.word@.len()
    &&& next.word@[junction_index(before, (next.start, next.end)) as int] == junction_letter(before, (next.start, next.end))
}

/// The letter that a word has on an end of its segment: the first letter
/// on the start, the letter with the number of the segment's length on the
/// end.
pub open spec fn letter_on(word: SolutionWord, cell: Position) -> char {
    if cell == word.start {
        word.word@[0]
    } else {
        word.word@[segment_len((word.start, word.end)) - 1]
    }
}

/// The constraints on the next word of a solution with these words and
/// segments: the length of the next segment, and after the first word the
/// letter shared with the word before. None where every segment has a word.
pub open spec fn constraints_for(words: Seq<SolutionWord>, segments: Seq<(Position, Position)>) -> Seq<WordConstraint> {
    if words.len() >= segments.len() {
        seq![]
    } else {
        let segment = segments[words.len() as int];
        let length = WordConstraint::Length(segment_len(segment) as usize);
        if words.len() == 0 {
            seq![length]
        } else {
            seq![length, WordConstraint::CharAt(junction_index(words.last(), segment), junction_letter(words.last(), segment))]
        }
    }
}

impl SolutionWord {
    /// The first letter of the word.
    pub fn first_letter(&self) -> (letter: char)
        requires
            self.word@.len() > 0,
        ensures
            letter == self.word@[0],
    {
        self.word.as_str().get_char(0)
    }

    /// The last letter of the word.
    pub fn last_letter(&self) -> (letter: char)
        requires
            self.word@.len() > 0,
        ensures
            letter == self.word@.last(),
    {
        let text = self.word.as_str();
        text.get_char(text.unicode_len() - 1)
    }
}

impl Solution {
    /// Every segment has a length that fits the machine, and the words
    /// assigned so far belong to the first segments, each as long in bytes
    /// as its segment has cells.
    pub open spec fn wf(&self) -> bool {
        &&& self.words@.len() <= self.segments@.len()
        &&& forall|i: int| 0 <= i < self.segments@.len() ==> segment_len(#[trigger] self.segments@[i]) <= usize::MAX
        &&& forall|i: int| 0 <= i < self.words@.len() ==> (#[trigger] self.words@[i]).start == self.segments@[i].0
                && self.words@[i].end == self.segments@[i].1
                && byte_len(self.words@[i].word@) == segment_len(self.segments@[i])
    }

    /// Every word but the first shares the junction letter with the word
    /// before it.
    pub open spec fn chained(&self) -> bool {
        forall|i: int| 1 <= i < self.words@.len() ==> joined(self.words@[i - 1], #[trigger] self.words@[i])
    }

    /// Whether every segment has its word.
    pub open spec fn spec_is_complete(&self) -> bool {
        self.words@.len() == self.segments@.len()
    }

    /// The constraints on the word of the next segment: its length, and
    /// after the first word the letter shared with the word before.
    pub open spec fn spec_next_constraints(&self) -> Seq<WordConstraint> {
        constraints_for(self.words@, self.segments@)
    }

    /// Every word from the one numbered `from` on was offered by the
    /// dictionary to the constraints that held when it was assigned.
    pub open spec fn offered_from(&self, word_list: WordList, from: int) -> bool {
        forall|i: int| from <= i < self.words@.len() ==> word_list.offers(
            constraints_for(self.words@.take(i), self.segments@),
            (#[trigger] self.words@[i]).word@,
        )
    }

    /// A solution for the segments, with no word assigned yet.
    pub fn new(segments: Vec<(Position, Position)>) -> (solution: Solution)
        requires
            forall|i: int| 0 <= i < segments@.len() ==> segment_len(#[trigger] segments@[i]) <= usize::MAX,
        ensures
            solution.wf(),
            solution.chained(),
            solution.words@.len() == 0,
            solution.segments@ == segments@,
    {
        Solution { words: Vec::new(), segments }
    }

    /// The assigned words, in segment order.
    pub fn all_words(&self) -> (words: Vec<&String>)
        ensures
            words@.len() == self.words@.len(),
            forall|i: int| 0 <= i < words@.len() ==> *(#[trigger] words@[i]) == self.words@[i].word,
    {
        let mut words: Vec<&String> = Vec::new();
        let mut i: usize = 0;
        while i < self.words.len()
            invariant
                i <= self.words@.len(),
                words@.len() == i,
                forall|j: int| 0 <= j < i ==> *(#[trigger] words@[j]) == self.words@[j].word,
            decreases self.words@.len() - i,
        {
            words.push(&self.words[i].word);
            i += 1;
        }
        words
    }

    /// The word assigned last, if any.
    pub fn last_word(&self) -> (last: Option<&SolutionWord>)
        ensures
            match last {
                Some(word) => self.words@.len() > 0 && *word == self.words@.last(),
                None => self.words@.len() == 0,
            },
    {
        if self.words.len() == 0 {
            None
        } else {
            Some(&self.words[self.words.len() - 1])
        }
    }

    /// Whether every segment has its word.
    pub fn is_complete(&self) -> (complete: bool)
        ensures
            complete == (self.words@.len() == self.segments@.len()),
    {
        self.words.len() == self.segments.len()
    }

    /// The first segment without a word; none when the solution is complete.
    pub fn next_segment(&self) -> (next: Option<(Position, Position)>)
        requires
            self.wf(),
        ensures
            next == (if self.spec_is_complete() {
                None
            } else {
                Some(self.segments@[self.words@.len() as int])
            }),
    {
        if self.is_complete() {
            None
        } else {
            Some(self.segments[self.words.len()])
        }
    }

    /// Assigns the word to the next segment; a complete solution stays as it
    /// is.
    pub fn add_word(&mut self, word: &String)
        requires
            old(self).wf(),
            !old(self).spec_is_complete() ==> byte_len(word@) == segment_len(old(self).segments@[old(self).words@.len() as int]),
        ensures
            final(self).wf(),
            final(self).segments@ == old(self).segments@,
            old(self).spec_is_complete() ==> final(self).words@ == old(self).words@,
            !old(self).spec_is_complete() ==> final(self).words@ == old(self).words@.push(
                (SolutionWord {
                    start: old(self).segments@[old(self).words@.len() as int].0,
                    end: old(self).segments@[old(self).words@.len() as int].1,
                    word: *word,
                }),
            ),
    {
        if let Some((start, end)) = self.next_segment() {
            self.words.push(SolutionWord { start, end, word: word.clone() });
        }
    }

    /// The constraints on the word of the next segment: its length, and after
    /// the first word the letter it shares with the word before. None for a
    /// complete solution.
    pub fn next_constraints(&self) -> (constraints: Vec<WordConstraint>)
        requires
            self.wf(),
        ensures
            constraints@ == self.spec_next_constraints(),
    {
        let mut constraints: Vec<WordConstraint> = Vec::new();
        match self.next_segment() {
            None => {
                assert(constraints@ =~= self.spec_next_constraints());
                constraints
            },
            Some((next_start, next_stop)) => {
                assert(segment_len(self.segments@[self.words@.len() as int]) <= usize::MAX);
                let next_length = next_start.manhattan_distance(next_stop) + 1;
                constraints.push(WordConstraint::Length(next_length));
                match self.last_word() {
                    None => {
                        assert(constraints@ =~= self.spec_next_constraints());
                        constraints
                    },
                    Some(word) => {
                        proof {
                            let at = self.words@.len() - 1;
                            assert(*word == self.words@[at]);
                            assert(segment_len(self.segments@[at]) >= 1);
                            lemma_bytes_need_letters(word.word@);
                        }
                        let start_letter = word.first_letter();
                        let last_letter = word.last_letter();
                        let start = word.start;
                        let end = word.end;
                        if next_start == end {
                            constraints.push(WordConstraint::CharAt(0, last_letter));
                        } else if next_start == start {
                            constraints.push(WordConstraint::CharAt(0, start_letter));
                        } else if next_stop == start {
                            constraints.push(WordConstraint::CharAt(next_length - 1, start_letter));
                        } else {
                            constraints.push(WordConstraint::CharAt(next_length - 1, last_letter));
                        }
                        assert(constraints@ =~= self.spec_next_constraints());
                        constraints
                    },
                }
            },
        }
    }

    /// Takes what was drawn from the candidates for the next segment: the
    /// candidate with the drawn number becomes the next word; without a
    /// draw the solution stays as it is.
    pub fn commit_choice(&mut self, candidates: &Vec<String>, picked: Option<usize>) -> (advanced: bool)
        requires
            old(self).wf(),
            old(self).chained(),
            !old(self).spec_is_complete(),
            picked is Some ==> picked.unwrap() < candidates@.len(),
            forall|j: int| 0 <= j < candidates@.len() ==> meets_all(old(self).spec_next_constraints(), (#[trigger] candidates@[j])@),
        ensures
            final(self).wf(),
            final(self).chained(),
            final(self).segments@ == old(self).segments@,
            advanced == picked is Some,
            picked is None ==> final(self).words@ == old(self).words@,
            picked is Some ==> final(self).words@ == old(self).words@.push(
                (SolutionWord {
                    start: old(self).segments@[old(self).words@.len() as int].0,
                    end: old(self).segments@[old(self).words@.len() as int].1,
                    word: candidates@[picked.unwrap() as int],
                }),
            ),
    {
        match picked {
            Some(pick) => {
                let ghost before = *self;
                let ghost wanted = self.spec_next_constraints();
                let word = &candidates[pick];
                proof {
                    assert(meets_all(wanted, word@));
                    assert(wanted[0].spec_satisfies(word@));
                }
                self.add_word(word);
                proof {
                    let at = before.words@.len() as int;
                    assert(self.words@[at].word@ == word@);
                    assert forall|i: int| 1 <= i < self.words@.len() implies joined(self.words@[i - 1], #[trigger] self.words@[i]) by {
                        if i < at {
                            assert(self.words@[i] == before.words@[i]);
                            assert(self.words@[i - 1] == before.words@[i - 1]);
                        } else {
                            assert(self.words@[i - 1] == before.words@.last());
                            assert(wanted[1].spec_satisfies(word@));
                        }
                    }
                }
                true
            },
            None => false,
        }
    }

    /// Fills the segments one after the other with a word that the
    /// dictionary offers to the constraints of the moment, picked at
    /// random. Where the dictionary offers none, an attempt is spent; the
    /// words assigned before stay. A complete solution is a success at
    /// once. Otherwise the result is a success exactly when the solution
    /// ends complete, which takes at least one attempt; it is a failure
    /// when the solution ends incomplete, and then, if there were attempts,
    /// the dictionary offers no word to its next constraints. Every word
    /// that is added is one that the dictionary offered.
    pub fn attempt_solve(&mut self, word_list: &WordList, max_attempts: usize) -> (solved: Option<()>)
        requires
            old(self).wf(),
            old(self).chained(),
        ensures
            final(self).wf(),
            final(self).chained(),
            final(self).segments@ == old(self).segments@,
            final(self).words@.len() >= old(self).words@.len(),
            final(self).words@.take(old(self).words@.len() as int) == old(self).words@,
            final(self).offered_from(*word_list, old(self).words@.len() as int),
            solved is Some <==> final(self).spec_is_complete(),
            old(self).spec_is_complete() ==> solved is Some,
            solved is Some && !old(self).spec_is_complete() ==> max_attempts > 0,
            max_attempts == 0 ==> final(self).words@ == old(self).words@,
            solved is None && max_attempts > 0 ==> forall|text: Seq<char>| !word_list.offers(final(self).spec_next_constraints(), text),
    {
        assert(self.words@.take(self.words@.len() as int) =~= self.words@);
        if self.is_complete() {
            return Some(());
        }
        let mut attempts: usize = 0;
        while attempts < max_attempts
            invariant
                self.wf(),
                self.chained(),
                attempts <= max_attempts,
                self.segments@ == old(self).segments@,
                self.words@.len() >= old(self).words@.len(),
                self.words@.take(old(self).words@.len() as int) == old(self).words@,
                self.offered_from(*word_list, old(self).words@.len() as int),
                !old(self).spec_is_complete(),
                max_attempts == 0 ==> self.words@ == old(self).words@,
                attempts > 0 ==> !self.spec_is_complete() && forall|text: Seq<char>|
                    !word_list.offers(self.spec_next_constraints(), text),
                !self.spec_is_complete(),
            decreases (max_attempts - attempts) + (self.segments@.len() - self.words@.len()),
        {
            let constraints = self.next_constraints();
            let ghost wanted = constraints@;
            let candidates = word_list.find_constrained_words(constraints);
            let picked = random_index(candidates.len());
            let ghost before = *self;
            proof {
                assert forall|j: int| 0 <= j < candidates@.len() implies meets_all(wanted, (#[trigger] candidates@[j])@) by {
                    assert(listed(candidates@, candidates@[j]@));
                    assert(word_list.offers(wanted, candidates@[j]@));
                }
            }
            if self.commit_choice(&candidates, picked) {
                proof {
                    let at = before.words@.len() as int;
                    let word = candidates@[picked.unwrap() as int];
                    assert(listed(candidates@, word@));
                    assert(word_list.offers(wanted, word@));
                    assert(self.words@.take(old(self).words@.len() as int) =~= before.words@.take(old(self).words@.len() as int));
                    assert forall|i: int| old(self).words@.len() <= i < self.words@.len() implies word_list.offers(
                        constraints_for(self.words@.take(i), self.segments@),
                        (#[trigger] self.words@[i]).word@,
                    ) by {
                        if i < at {
                            assert(self.words@.take(i) =~= before.words@.take(i));
                            assert(self.words@[i] == before.words@[i]);
                        } else {
                            assert(self.words@.take(i) =~= before.words@);
                        }
                    }
                }
                if self.is_complete() {
                    return Some(());
                }
            } else {
                proof {
                    assert forall|text: Seq<char>| !word_list.offers(self.spec_next_constraints(), text) by {
                        if word_list.offers(wanted, text) {
                            assert(listed(candidates@, text));
                        }
                    }
                }
                attempts += 1;
            }
        }
        None
    }
}

/// Where two consecutive words meet, they have the same letter: if both
/// segments run from their smaller end to their larger one, are not the
/// same segment, and each word has as many letters as its segment has
/// cells, then on a cell that is an end of both segments the two words
/// carry the same letter.
pub proof fn lemma_shared_letter(solution: Solution, i: int, cell: Position)
    requires
        solution.wf(),
        solution.chained(),
        1 <= i < solution.words@.len(),
        solution.words@[i - 1].start.spec_le(solution.words@[i - 1].end),
        solution.words@[i].start.spec_le(solution.words@[i].end),
        solution.words@[i - 1].start != solution.words@[i].start || solution.words@[i - 1].end != solution.words@[i].end,
        solution.words@[i - 1].word@.len() == segment_len(solution.segments@[i - 1]),
        solution.words@[i].word@.len() == segment_len(solution.segments@[i]),
        cell == solution.words@[i - 1].start || cell == solution.words@[i - 1].end,
        cell == solution.words@[i].start || cell == solution.words@[i].end,
    ensures
        letter_on(solution.words@[i - 1], cell) == letter_on(solution.words@[i], cell),
{
    let before = solution.words@[i - 1];
    let next = solution.words@[i];
    assert(joined(before, next));
    assert(before.start == solution.segments@[i - 1].0 && before.end == solution.segments@[i - 1].1);
    assert(next.start == solution.segments@[i].0 && next.end == solution.segments@[i].1);
}

/// Where two consecutive words of an ASCII dictionary meet, they have the
/// same letter: if every word was offered by a dictionary of ASCII words, the
/// two segments run from their smaller end to their larger one and are not
/// the same segment, then on a cell that is an end of both segments the two
/// words carry the same letter.
pub proof fn lemma_shared_letter_ascii(solution: Solution, word_list: WordList, i: int, cell: Position)
    requires
        solution.wf(),
        solution.chained(),
        solution.offered_from(word_list, 0),
        word_list.spec_is_ascii(),
        1 <= i < solution.words@.len(),
        solution.words@[i - 1].start.spec_le(solution.words@[i - 1].end),
        solution.words@[i].start.spec_le(solution.words@[i].end),
        solution.words@[i - 1].start != solution.words@[i].start || solution.words@[i - 1].end != solution.words@[i].end,
        cell == solution.words@[i - 1].start || cell == solution.words@[i - 1].end,
        cell == solution.words@[i].start || cell == solution.words@[i].end,
    ensures
        letter_on(solution.words@[i - 1], cell) == letter_on(solution.words@[i], cell),
{
    lemma_offered_is_ascii(solution, word_list, i - 1);
    lemma_offered_is_ascii(solution, word_list, i);
    lemma_shared_letter(solution, i, cell);
}

/// A word that a dictionary of ASCII words offered has as many letters as
/// its segment has cells.
pub proof fn lemma_offered_is_ascii(solution: Solution, word_list: WordList, i: int)
    requires
        solution.wf(),
        solution.offered_from(word_list, 0),
        word_list.spec_is_ascii(),
        0 <= i < solution.words@.len(),
    ensures
        solution.words@[i].word@.len() == segment_len(solution.segments@[i]),
{
    let text = solution.words@[i].word@;
    assert(word_list.offers(constraints_for(solution.words@.take(i), solution.segments@), text));
    is_ascii_chars_encode_utf8(text);
}

} // verus!
