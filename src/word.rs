//! Encoding of five-letter words and the consistency rule between a
//! candidate, a guess and an answer.
use vstd::prelude::*;
use vstd::string::StringSliceAdditionalSpecFns;
use crate::bits::{bit8, bit32, lemma_bit8_set, lemma_bit32_set, lemma_bit8_zero, lemma_bit32_zero};

verus! {

/// Number of letters in every word.
pub const WORD_LEN: usize = 5;

/// Size of the alphabet (`a` to `z`).
pub const ALPHABET: usize = 26;

/// How often letter `l` occurs among the first `n` letters of `s`.
pub open spec fn count_prefix(s: Seq<u8>, l: int, n: int) -> int
    decreases n,
{
    if n <= 0 {
        0
    } else {
        count_prefix(s, l, n - 1) + if s[n - 1] as int == l { 1int } else { 0int }
    }
}

/// How often letter `l` occurs in the five-letter word `s`.
pub open spec fn count_in(s: Seq<u8>, l: int) -> int {
    count_prefix(s, l, 5)
}

pub open spec fn min_int(a: int, b: int) -> int {
    if a <= b {
        a
    } else {
        b
    }
}

/// What position `j` of `guess` tells about a candidate `w`, when the secret
/// word is `ans`: the square is green for `w` exactly when it is green for
/// `ans`, and the number of squares of that letter coloured green or yellow
/// (the smaller of the guess's and the word's count of it) is the same.
pub open spec fn position_consistent(w: Seq<u8>, guess: Seq<u8>, ans: Seq<u8>, j: int) -> bool {
    let l = guess[j] as int;
    &&& (guess[j] == ans[j]) == (guess[j] == w[j])
    &&& min_int(count_in(guess, l), count_in(ans, l)) == min_int(
        count_in(guess, l),
        count_in(w, l),
    )
}

/// `w` would show the same feedback for `guess` as `ans` does, with repeated
/// letters bounded by their occurrence counts.
pub open spec fn consistent(w: Seq<u8>, guess: Seq<u8>, ans: Seq<u8>) -> bool {
    forall|j: int| 0 <= j < 5 ==> #[trigger] position_consistent(w, guess, ans, j)
}

/// The text is five lowercase ASCII letters.
pub open spec fn is_word_text(b: Seq<u8>) -> bool {
    b.len() == 5 && forall|i: int| 0 <= i < 5 ==> 97 <= #[trigger] b[i] <= 122
}

/// Letters of a word text, `a` as 0 up to `z` as 25.
pub open spec fn letters_of(b: Seq<u8>) -> Seq<u8> {
    Seq::new(5, |i: int| (b[i] - 97) as u8)
}

/// The letters of a word read as a number in base 32.
pub open spec fn code_of(w: Seq<u8>) -> int {
    w[0] + 32 * w[1] + 1024 * w[2] + 32768 * w[3] + 1048576 * w[4]
}

/// Why a text is not a word.
#[derive(Debug, Clone, Copy, PartialEq, Eq, Structural)]
pub enum WordError {
    /// Not exactly five letters from `a` to `z`.
    Malformed,
}

/// A five-letter word with its letters (0 to 25), for each letter the mask
/// of positions holding it and how many times it occurs, and the mask of the
/// letters that occur at all.
#[derive(Clone, Copy, Debug)]
pub struct Word {
    pub bytes: [u8; 5],
    pub positions: [u8; 26],
    pub unique_bytes: u32,
    pub counts: [u8; 26],
}

impl View for Word {
    type V = Seq<u8>;

    open spec fn view(&self) -> Seq<u8> {
        self.bytes@
    }
}

impl Word {
    /// The masks and counts agree with the letters.
    pub open spec fn wf(&self) -> bool {
        &&& forall|i: int| 0 <= i < 5 ==> #[trigger] self.bytes@[i] < 26
        &&& forall|l: int, k: u8|
            0 <= l < 26 && k < 8 ==> (#[trigger] bit8(self.positions@[l], k) <==> (k < 5
                && self.bytes@[k as int] == l))
        &&& forall|l: u32|
            l < 32 ==> (#[trigger] bit32(self.unique_bytes, l) <==> (l < 26 && count_in(
                self.bytes@,
                l as int,
            ) > 0))
        &&& forall|l: int| 0 <= l < 26 ==> #[trigger] self.counts@[l] as int == count_in(self.bytes@, l)
    }

    /// Encodes a word; fails unless the text is five letters `a` to `z`.
    pub fn new(word: &str) -> (r: Result<Word, WordError>)
        ensures
            match r {
                Ok(w) => is_word_text(word.spec_bytes()) && w.wf() && w@ == letters_of(
                    word.spec_bytes(),
                ),
                Err(e) => !is_word_text(word.spec_bytes()) && e == WordError::Malformed,
            },
    {
        let b = word.as_bytes();
        if b.len() != 5 {
            return Err(WordError::Malformed);
        }
        let mut bytes = [0u8; 5];
        for i in 0..5
            invariant
                b@ == word.spec_bytes(),
                b@.len() == 5,
                forall|j: int| 0 <= j < i ==> 97 <= #[trigger] b@[j] <= 122,
                forall|j: int| 0 <= j < i ==> #[trigger] bytes@[j] == (b@[j] - 97) as u8,
        {
            let c = b[i];
            if c < 97 || c > 122 {
                return Err(WordError::Malformed);
            }
            bytes[i] = c - 97;
        }
        assert(bytes@ =~= letters_of(b@));
        let mut positions = [0u8; 26];
        let mut counts = [0u8; 26];
        let mut unique_bytes: u32 = 0;
        proof {
            assert forall|l: int, k: u8| 0 <= l < 26 && k < 8 implies !#[trigger] bit8(
                positions@[l],
                k,
            ) by {
                lemma_bit8_zero(k);
            }
            assert forall|l: u32| l < 32 implies !#[trigger] bit32(unique_bytes, l) by {
                lemma_bit32_zero(l);
            }
        }
        for i in 0..5
            invariant
                bytes@ == letters_of(b@),
                is_word_text(b@),
                forall|j: int| 0 <= j < 5 ==> #[trigger] bytes@[j] < 26,
                forall|l: int, k: u8|
                    0 <= l < 26 && k < 8 ==> (#[trigger] bit8(positions@[l], k) <==> (k < i
                        && bytes@[k as int] == l)),
                forall|l: u32|
                    l < 32 ==> (#[trigger] bit32(unique_bytes, l) <==> (l < 26 && count_prefix(
                        bytes@,
                        l as int,
                        i as int,
                    ) > 0)),
                forall|l: int|
                    0 <= l < 26 ==> #[trigger] counts@[l] as int == count_prefix(
                        bytes@,
                        l,
                        i as int,
                    ),
        {
            let c = bytes[i];
            assert(c < 26);
            proof {
                assert forall|l: int| 0 <= l < 26 implies count_prefix(bytes@, l, i as int) <= i by {
                    lemma_count_prefix_bound(bytes@, l, i as int);
                }
            }
            let old_positions = positions;
            let old_counts = counts;
            let old_unique = unique_bytes;
            positions[c as usize] = positions[c as usize] | (1u8 << (i as u8));
            counts[c as usize] = counts[c as usize] + 1;
            unique_bytes = unique_bytes | (1u32 << (c as u32));
            proof {
                assert forall|l: int, k: u8| 0 <= l < 26 && k < 8 implies (#[trigger] bit8(
                    positions@[l],
                    k,
                ) <==> (k < i + 1 && bytes@[k as int] == l)) by {
                    if l == c as int {
                        lemma_bit8_set(old_positions@[l], i as u8, k);
                    } else {
                        assert(positions@[l] == old_positions@[l]);
                    }
                }
                assert forall|l: u32| l < 32 implies (#[trigger] bit32(unique_bytes, l) <==> (l
                    < 26 && count_prefix(bytes@, l as int, i + 1) > 0)) by {
                    lemma_bit32_set(old_unique, c as u32, l);
                    assert(bit32(old_unique, l) <==> (l < 26 && count_prefix(bytes@, l as int, i as int) > 0));
                    if l < 26 {
                        lemma_count_prefix_nonneg(bytes@, l as int, i as int);
                    }
                }
                assert forall|l: int| 0 <= l < 26 implies #[trigger] counts@[l] as int
                    == count_prefix(bytes@, l, i + 1) by {
                    if l != c as int {
                        assert(counts@[l] == old_counts@[l]);
                    }
                }
            }
        }
        let w = Word { bytes, positions, unique_bytes, counts };
        Ok(w)
    }

    /// A number that identifies the word by its letters.
    pub fn code(&self) -> (r: u32)
        requires
            self.wf(),
        ensures
            r as int == code_of(self@),
    {
        (self.bytes[0] as u32) + 32 * (self.bytes[1] as u32) + 1024 * (self.bytes[2] as u32) + 32768
            * (self.bytes[3] as u32) + 1048576 * (self.bytes[4] as u32)
    }

    /// Whether the letter `b` (0 to 25) occurs in the word.
    pub fn contains(&self, b: u8) -> (r: bool)
        requires
            self.wf(),
            b < 26,
        ensures
            r == (count_in(self@, b as int) > 0),
    {
        assert(bit32(self.unique_bytes, b as u32) == ((self.unique_bytes >> (b as u32)) & 1u32
            == 1u32));
        (self.unique_bytes >> (b as u32)) & 1 == 1
    }

    /// Whether this word is still possible after `guess` was played and the
    /// secret word was `ans`.
    pub fn is_valid(&self, guess: &Word, ans: &Word) -> (r: bool)
        requires
            self.wf(),
            guess.wf(),
            ans.wf(),
        ensures
            r == consistent(self@, guess@, ans@),
    {
        for i in 0..5
            invariant
                self.wf(),
                guess.wf(),
                ans.wf(),
                forall|j: int| 0 <= j < i ==> #[trigger] position_consistent(self@, guess@, ans@, j),
        {
            let g = guess.bytes[i];
            if (g == ans.bytes[i]) != (g == self.bytes[i]) {
                assert(!position_consistent(self@, guess@, ans@, i as int));
                return false;
            }
            let cg = guess.counts[g as usize];
            let ca = ans.counts[g as usize];
            let cw = self.counts[g as usize];
            let ma = if cg <= ca { cg } else { ca };
            let mw = if cg <= cw { cg } else { cw };
            if ma != mw {
                assert(!position_consistent(self@, guess@, ans@, i as int));
                return false;
            }
        }
        true
    }
}

pub proof fn lemma_count_prefix_nonneg(s: Seq<u8>, l: int, n: int)
    ensures
        0 <= count_prefix(s, l, n),
    decreases n,
{
    if n > 0 {
        lemma_count_prefix_nonneg(s, l, n - 1);
    }
}

pub proof fn lemma_count_prefix_bound(s: Seq<u8>, l: int, n: int)
    requires
        n >= 0,
    ensures
        0 <= count_prefix(s, l, n) <= n,
    decreases n,
{
    if n > 0 {
        lemma_count_prefix_bound(s, l, n - 1);
    }
}

/// Every word is consistent with its own feedback: the secret word survives
/// any filtering by a guess played against it.
pub proof fn lemma_answer_survives(guess: Seq<u8>, ans: Seq<u8>)
    ensures
        consistent(ans, guess, ans),
{
}

/// A word other than the guess never matches the guess's own feedback
/// against it: only the secret word itself turns a guess all green.
pub proof fn lemma_guess_excluded(guess: Seq<u8>, ans: Seq<u8>)
    requires
        guess.len() == 5,
        ans.len() == 5,
        consistent(guess, guess, ans),
    ensures
        guess == ans,
{
    assert forall|j: int| 0 <= j < 5 implies guess[j] == ans[j] by {
        assert(position_consistent(guess, guess, ans, j));
    }
    assert(guess =~= ans);
}

} // verus!
