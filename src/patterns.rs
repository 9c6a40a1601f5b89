//! Feedback patterns: a canonical descriptor of what a guess reveals about
//! the secret word, and a table that interns the patterns of all
//! (answer, guess) pairs of a vocabulary.
use vstd::prelude::*;
use std::collections::HashMap;
use crate::bits::{bit8, bit32, lemma_bit8_and, lemma_bit8_xor, lemma_bit8_ext, lemma_bit8_zero,
    lemma_bit32_and, lemma_bit32_xor};
use vstd::string::StringSliceAdditionalSpecFns;
use crate::word::{Word, WordError, count_in, count_prefix, consistent, position_consistent, is_word_text, letters_of};

verus! {

/// What a guess reveals: the guess letters that the answer shares and those
/// it lacks, and for each shared letter the green positions, the guess
/// positions that are not green, and the bounds on how often the letter
/// occurs in the answer.
#[derive(Clone, Copy, Debug)]
pub struct Pattern {
    pub missing: u32,
    pub shared: u32,
    pub green: [u8; 26],
    pub orange: [u8; 26],
    pub min_count: [u8; 26],
    pub max_count: [u8; 26],
}

/// `p` is the pattern of `guess` played against `ans`.
pub open spec fn describes(p: Pattern, ans: Word, guess: Word) -> bool {
    &&& p.shared == guess.unique_bytes & ans.unique_bytes
    &&& p.missing == guess.unique_bytes ^ p.shared
    &&& forall|l: int| 0 <= l < 26 ==> #[trigger] letter_described(p, ans, guess, l)
}

pub open spec fn letter_described(p: Pattern, ans: Word, guess: Word, l: int) -> bool {
    let x = ans.positions@[l];
    let y = guess.positions@[l];
    let cx = ans.counts@[l];
    let cy = guess.counts@[l];
    if bit32(p.shared, l as u32) {
        &&& p.green@[l] == x & y
        &&& p.orange@[l] == (x & y) ^ y
        &&& p.min_count@[l] == if cy <= cx { cy } else { cx }
        &&& p.max_count@[l] == if cy > cx { cx } else { 5u8 }
    } else {
        &&& p.green@[l] == 0
        &&& p.orange@[l] == 0
        &&& p.min_count@[l] == 0
        &&& p.max_count@[l] == 0
    }
}

/// Word `w` fits the pattern: it lacks every missing letter, and each shared
/// letter stands on its green positions, on none of its other guess
/// positions, and occurs within the count bounds.
pub open spec fn admits(p: Pattern, w: Word) -> bool {
    forall|l: int| 0 <= l < 26 ==> #[trigger] letter_admits(p, w, l)
}

pub open spec fn letter_admits(p: Pattern, w: Word, l: int) -> bool {
    &&& bit32(p.shared, l as u32) ==> {
        &&& w.positions@[l] & p.green@[l] == p.green@[l]
        &&& (w.positions@[l] ^ p.green@[l]) & p.orange@[l] == 0
        &&& p.min_count@[l] <= w.counts@[l] <= p.max_count@[l]
    }
    &&& bit32(p.missing, l as u32) ==> w.counts@[l] == 0
}

/// The key under which a pattern is interned.
pub open spec fn pattern_key(p: Pattern) -> u64 {
    (p.shared as u64) | ((p.missing as u64) << 32u64)
}

/// No two patterns have the same fields.
pub open spec fn distinct_patterns(ps: Seq<Pattern>) -> bool {
    forall|p: int, q: int| 0 <= p < ps.len() && 0 <= q < ps.len() && p != q ==> !same_fields(#[trigger] ps[p], #[trigger] ps[q])
}

/// Every pattern is listed under its key, and every listed id is a pattern.
pub open spec fn index_ok(index: Map<u64, Vec<usize>>, ps: Seq<Pattern>) -> bool {
    &&& forall|k: u64, j: int|
        index.contains_key(k) && 0 <= j < index[k].len() ==> #[trigger] index[k][j] < ps.len()
    &&& forall|p: int|
        0 <= p < ps.len() ==> index.contains_key(pattern_key(#[trigger] ps[p])) && index[pattern_key(
            ps[p],
        )]@.contains(p as usize)
}

/// Two patterns with the same fields.
pub open spec fn same_fields(p: Pattern, q: Pattern) -> bool {
    &&& p.missing == q.missing
    &&& p.shared == q.shared
    &&& p.green@ == q.green@
    &&& p.orange@ == q.orange@
    &&& p.min_count@ == q.min_count@
    &&& p.max_count@ == q.max_count@
}

proof fn lemma_count_facts(s: Seq<u8>, l: int)
    ensures
        0 <= count_in(s, l) <= 5,
        count_in(s, l) > 0 <==> exists|k: int| 0 <= k < 5 && s[k] as int == l,
{
    reveal_with_fuel(count_prefix, 6);
}

proof fn lemma_letter(p: Pattern, w: Word, ans: Word, guess: Word, l: int)
    requires
        w.wf(),
        ans.wf(),
        guess.wf(),
        0 <= l < 26,
        p.shared == guess.unique_bytes & ans.unique_bytes,
        p.missing == guess.unique_bytes ^ p.shared,
        letter_described(p, ans, guess, l),
    ensures
        letter_admits(p, w, l) <==> (forall|j: int|
            0 <= j < 5 && guess@[j] as int == l ==> #[trigger] position_consistent(
                w@,
                guess@,
                ans@,
                j,
            )),
{
    let lu = l as u32;
    lemma_bit32_and(guess.unique_bytes, ans.unique_bytes, lu);
    lemma_bit32_xor(guess.unique_bytes, p.shared, lu);
    assert(bit32(guess.unique_bytes, lu) <==> count_in(guess@, l) > 0);
    assert(bit32(ans.unique_bytes, lu) <==> count_in(ans@, l) > 0);
    lemma_count_facts(guess@, l);
    lemma_count_facts(ans@, l);
    lemma_count_facts(w@, l);
    let x = ans.positions@[l];
    let y = guess.positions@[l];
    let z = w.positions@[l];
    let g = x & y;
    let o = g ^ y;
    assert forall|k: u8| k < 8 implies (#[trigger] bit8(g, k) <==> (k < 5 && ans@[k as int] == l
        && guess@[k as int] == l)) && (bit8(o, k) <==> (k < 5 && guess@[k as int] == l && ans@[k as int]
        != l)) && (bit8(z, k) <==> (k < 5 && w@[k as int] == l)) && (bit8(z & g, k) <==> (bit8(z, k)
        && bit8(g, k))) && (bit8((z ^ g) & o, k) <==> ((bit8(z, k) != bit8(g, k)) && bit8(o, k))) by {
        lemma_bit8_and(x, y, k);
        lemma_bit8_xor(g, y, k);
        lemma_bit8_and(z, g, k);
        lemma_bit8_and(z ^ g, o, k);
        lemma_bit8_xor(z, g, k);
        assert(bit8(x, k) <==> (k < 5 && ans@[k as int] == l));
        assert(bit8(y, k) <==> (k < 5 && guess@[k as int] == l));
    }
    let rhs = forall|j: int|
        0 <= j < 5 && guess@[j] as int == l ==> #[trigger] position_consistent(w@, guess@, ans@, j);
    let cy = count_in(guess@, l);
    let cx = count_in(ans@, l);
    let cw = count_in(w@, l);
    assert(guess.counts@[l] as int == cy);
    assert(ans.counts@[l] as int == cx);
    assert(w.counts@[l] as int == cw);
    if bit32(p.shared, lu) {
        if letter_admits(p, w, l) {
            assert forall|j: int| 0 <= j < 5 && guess@[j] as int == l implies #[trigger] position_consistent(
                w@,
                guess@,
                ans@,
                j,
            ) by {
                let k = j as u8;
                assert(bit8(z & g, k) == bit8(g, k));
                assert(!bit8((z ^ g) & o, k)) by {
                    lemma_bit8_zero(k);
                }
            }
        }
        if rhs {
            let j0 = choose|k: int| 0 <= k < 5 && guess@[k] as int == l;
            assert(position_consistent(w@, guess@, ans@, j0));
            assert forall|k: u8| k < 8 implies #[trigger] bit8(z & g, k) == bit8(g, k) by {
                if k < 5 && guess@[k as int] == l {
                    assert(position_consistent(w@, guess@, ans@, k as int));
                }
            }
            lemma_bit8_ext(z & g, g);
            assert forall|k: u8| k < 8 implies #[trigger] bit8((z ^ g) & o, k) == bit8(0u8, k) by {
                lemma_bit8_zero(k);
                assert(bit8(g, k) <==> (k < 5 && ans@[k as int] == l && guess@[k as int] == l));
                assert(bit8(o, k) <==> (k < 5 && guess@[k as int] == l && ans@[k as int] != l));
                assert(bit8(z, k) <==> (k < 5 && w@[k as int] == l));
                if k < 5 && guess@[k as int] == l {
                    assert(position_consistent(w@, guess@, ans@, k as int));
                }
            }
            lemma_bit8_ext((z ^ g) & o, 0u8);
        }
    } else if bit32(p.missing, lu) {
        if letter_admits(p, w, l) {
            assert forall|j: int| 0 <= j < 5 && guess@[j] as int == l implies #[trigger] position_consistent(
                w@,
                guess@,
                ans@,
                j,
            ) by {
                assert(w@[j] as int != l);
                assert(ans@[j] as int != l);
            }
        }
        if rhs {
            let j0 = choose|k: int| 0 <= k < 5 && guess@[k] as int == l;
            assert(position_consistent(w@, guess@, ans@, j0));
        }
    } else {
        assert(cy == 0);
        assert forall|j: int| 0 <= j < 5 && guess@[j] as int == l implies false by {
            assert(exists|k: int| 0 <= k < 5 && guess@[k] as int == l);
        }
    }
}

/// A word fits the pattern of `guess` against `ans` exactly when it is
/// consistent with that feedback.
pub proof fn lemma_pattern_decides(p: Pattern, w: Word, ans: Word, guess: Word)
    requires
        w.wf(),
        ans.wf(),
        guess.wf(),
        describes(p, ans, guess),
    ensures
        admits(p, w) == consistent(w@, guess@, ans@),
{
    assert forall|l: int| 0 <= l < 26 implies (#[trigger] letter_admits(p, w, l) <==> (forall|j: int|
        0 <= j < 5 && guess@[j] as int == l ==> #[trigger] position_consistent(w@, guess@, ans@, j))) by {
        assert(letter_described(p, ans, guess, l));
        lemma_letter(p, w, ans, guess, l);
    }
    if admits(p, w) {
        assert forall|j: int| 0 <= j < 5 implies #[trigger] position_consistent(w@, guess@, ans@, j) by {
            assert(guess@[j] < 26);
            assert(letter_admits(p, w, guess@[j] as int));
        }
    }
    if consistent(w@, guess@, ans@) {
        assert forall|l: int| 0 <= l < 26 implies #[trigger] letter_admits(p, w, l) by {
            assert forall|j: int| 0 <= j < 5 && guess@[j] as int == l implies #[trigger] position_consistent(
                w@,
                guess@,
                ans@,
                j,
            ) by {}
        }
    }
}

impl Pattern {
    /// The pattern of `guess` played against `ans`.
    pub fn new(ans: &Word, guess: &Word) -> (pat: Pattern)
        requires
            ans.wf(),
            guess.wf(),
        ensures
            describes(pat, *ans, *guess),
    {
        let shared = guess.unique_bytes & ans.unique_bytes;
        let missing = guess.unique_bytes ^ shared;
        let mut green = [0u8; 26];
        let mut orange = [0u8; 26];
        let mut min_count = [0u8; 26];
        let mut max_count = [0u8; 26];
        for l in 0..26
            invariant
                ans.wf(),
                guess.wf(),
                forall|m: int|
                    0 <= m < l ==> #[trigger] letter_described(
                        Pattern { missing, shared, green, orange, min_count, max_count },
                        *ans,
                        *guess,
                        m,
                    ),
                forall|m: int| l <= m < 26 ==> #[trigger] green@[m] == 0,
                forall|m: int| l <= m < 26 ==> #[trigger] orange@[m] == 0,
                forall|m: int| l <= m < 26 ==> #[trigger] min_count@[m] == 0,
                forall|m: int| l <= m < 26 ==> #[trigger] max_count@[m] == 0,
        {
            let ghost before = Pattern { missing, shared, green, orange, min_count, max_count };
            if (shared >> (l as u32)) & 1 == 1 {
                let x = ans.positions[l];
                let y = guess.positions[l];
                let g = x & y;
                green[l] = g;
                orange[l] = g ^ y;
                let cx = ans.counts[l];
                let cy = guess.counts[l];
                min_count[l] = if cy <= cx { cy } else { cx };
                max_count[l] = if cy > cx { cx } else { 5 };
            }
            proof {
                let now = Pattern { missing, shared, green, orange, min_count, max_count };
                assert forall|m: int| 0 <= m < l + 1 implies #[trigger] letter_described(now, *ans, *guess, m) by {
                    if m < l {
                        assert(letter_described(before, *ans, *guess, m));
                    } else {
                        assert(green@[m] == before.green@[m] || m == l);
                    }
                }
            }
        }
        Pattern { missing, shared, green, orange, min_count, max_count }
    }

    /// Whether `w` fits this pattern.
    pub fn admits(&self, w: &Word) -> (r: bool)
        ensures
            r == admits(*self, *w),
    {
        for l in 0..26
            invariant
                forall|m: int| 0 <= m < l ==> #[trigger] letter_admits(*self, *w, m),
        {
            if (self.shared >> (l as u32)) & 1 == 1 {
                let p = w.positions[l];
                let g = self.green[l];
                if p & g != g || (p ^ g) & self.orange[l] != 0 {
                    assert(!letter_admits(*self, *w, l as int));
                    return false;
                }
                if w.counts[l] < self.min_count[l] || w.counts[l] > self.max_count[l] {
                    assert(!letter_admits(*self, *w, l as int));
                    return false;
                }
            }
            if (self.missing >> (l as u32)) & 1 == 1 && w.counts[l] != 0 {
                assert(!letter_admits(*self, *w, l as int));
                return false;
            }
        }
        true
    }

    /// Whether the two patterns have the same fields.
    pub fn same_as(&self, other: &Pattern) -> (r: bool)
        ensures
            r == same_fields(*self, *other),
    {
        if self.missing != other.missing || self.shared != other.shared {
            return false;
        }
        for l in 0..26
            invariant
                forall|m: int| 0 <= m < l ==> #[trigger] self.green@[m] == other.green@[m],
                forall|m: int| 0 <= m < l ==> #[trigger] self.orange@[m] == other.orange@[m],
                forall|m: int| 0 <= m < l ==> #[trigger] self.min_count@[m] == other.min_count@[m],
                forall|m: int| 0 <= m < l ==> #[trigger] self.max_count@[m] == other.max_count@[m],
        {
            if self.green[l] != other.green[l] || self.orange[l] != other.orange[l]
                || self.min_count[l] != other.min_count[l] || self.max_count[l]
                != other.max_count[l] {
                return false;
            }
        }
        assert(self.green@ =~= other.green@);
        assert(self.orange@ =~= other.orange@);
        assert(self.min_count@ =~= other.min_count@);
        assert(self.max_count@ =~= other.max_count@);
        true
    }

    /// The shared and missing letter masks side by side: patterns with
    /// the same fields have the same key.
    pub fn key(&self) -> (r: u64)
        ensures
            r == pattern_key(*self),
    {
        (self.shared as u64) | ((self.missing as u64) << 32u64)
    }
}

/// Patterns with the same fields describe the same feedback.
pub proof fn lemma_same_fields_describe(p: Pattern, q: Pattern, ans: Word, guess: Word)
    requires
        describes(p, ans, guess),
        same_fields(p, q),
    ensures
        describes(q, ans, guess),
{
    assert forall|l: int| 0 <= l < 26 implies #[trigger] letter_described(q, ans, guess, l) by {
        assert(letter_described(p, ans, guess, l));
    }
}

/// A word guessed against itself turns every position green: each letter's
/// green mask is its whole position mask and no position is left yellow or
/// grey.
pub proof fn lemma_self_feedback_all_green(p: Pattern, w: Word)
    requires
        w.wf(),
        describes(p, w, w),
    ensures
        p.missing == 0,
        forall|l: int|
            0 <= l < 26 && count_in(w@, l) > 0 ==> #[trigger] p.green@[l] == w.positions@[l]
                && p.orange@[l] == 0,
{
    let (s, m, u) = (p.shared, p.missing, w.unique_bytes);
    assert(m == 0) by (bit_vector)
        requires
            s == u & u,
            m == u ^ s,
    ;
    assert forall|l: int| 0 <= l < 26 && count_in(w@, l) > 0 implies #[trigger] p.green@[l]
        == w.positions@[l] && p.orange@[l] == 0 by {
        assert(letter_described(p, w, w, l));
        lemma_bit32_and(w.unique_bytes, w.unique_bytes, l as u32);
        let x = w.positions@[l];
        assert(x & x == x) by (bit_vector);
        assert((x & x) ^ x == 0) by (bit_vector);
    }
}

/// A guess that shares no letter with the answer turns every position grey:
/// no letter is shared, every guess letter is missing and nothing is green.
pub proof fn lemma_disjoint_feedback_all_grey(p: Pattern, ans: Word, guess: Word)
    requires
        ans.wf(),
        guess.wf(),
        describes(p, ans, guess),
        forall|l: int| 0 <= l < 26 && count_in(guess@, l) > 0 ==> count_in(ans@, l) == 0,
    ensures
        forall|l: u32| l < 32 ==> !#[trigger] bit32(p.shared, l),
        forall|l: u32| l < 32 ==> #[trigger] bit32(p.missing, l) == bit32(guess.unique_bytes, l),
        forall|l: int| 0 <= l < 26 ==> #[trigger] p.green@[l] == 0 && p.orange@[l] == 0,
{
    assert forall|i: u32| i < 32 implies !#[trigger] bit32(p.shared, i) by {
        lemma_bit32_and(guess.unique_bytes, ans.unique_bytes, i);
        assert(bit32(guess.unique_bytes, i) <==> (i < 26 && count_in(guess@, i as int) > 0));
        assert(bit32(ans.unique_bytes, i) <==> (i < 26 && count_in(ans@, i as int) > 0));
    }
    assert forall|i: u32| i < 32 implies #[trigger] bit32(p.missing, i) == bit32(
        guess.unique_bytes,
        i,
    ) by {
        lemma_bit32_xor(guess.unique_bytes, p.shared, i);
    }
    assert forall|l: int| 0 <= l < 26 implies #[trigger] p.green@[l] == 0 && p.orange@[l] == 0 by {
        assert(letter_described(p, ans, guess, l));
    }
}

/// For each letter, the indices of the words that contain it, ascending
/// and each once.
pub fn get_letter_to_word_idx_lookup(words: &Vec<Word>) -> (r: Vec<Vec<usize>>)
    requires
        forall|i: int| 0 <= i < words.len() ==> (#[trigger] words[i]).wf(),
    ensures
        r.len() == 26,
        forall|b: int, k1: int, k2: int|
            0 <= b < 26 && 0 <= k1 < k2 < r[b].len() ==> #[trigger] r[b][k1] < #[trigger] r[b][k2],
        forall|b: int, k: int|
            0 <= b < 26 && 0 <= k < r[b].len() ==> #[trigger] r[b][k] < words.len() && count_in(
                words[r[b][k] as int]@,
                b,
            ) > 0,
        forall|b: int, w: int|
            0 <= b < 26 && 0 <= w < words.len() && count_in(#[trigger] words[w]@, b) > 0
                ==> #[trigger] r[b]@.contains(w as usize),
{
    let mut lookup: Vec<Vec<usize>> = Vec::new();
    for b in 0..26
        invariant
            lookup.len() == b,
            forall|c: int| 0 <= c < b ==> #[trigger] lookup[c].len() == 0,
    {
        lookup.push(Vec::new());
    }
    for word_idx in 0..words.len()
        invariant
            lookup.len() == 26,
            forall|i: int| 0 <= i < words.len() ==> (#[trigger] words[i]).wf(),
            forall|b: int, k1: int, k2: int|
                0 <= b < 26 && 0 <= k1 < k2 < lookup[b].len() ==> #[trigger] lookup[b][k1] < #[trigger] lookup[b][k2],
            forall|b: int, k: int|
                0 <= b < 26 && 0 <= k < lookup[b].len() ==> #[trigger] lookup[b][k] < word_idx
                    && count_in(words[lookup[b][k] as int]@, b) > 0,
            forall|b: int, w: int|
                0 <= b < 26 && 0 <= w < word_idx && count_in(#[trigger] words[w]@, b) > 0
                    ==> #[trigger] lookup[b]@.contains(w as usize),
    {
        let word = &words[word_idx];
        for i in 0..5
            invariant
                lookup.len() == 26,
                word == &words[word_idx as int],
                forall|b: int, k1: int, k2: int|
                    0 <= b < 26 && 0 <= k1 < k2 < lookup[b].len() ==> #[trigger] lookup[b][k1] < #[trigger] lookup[b][k2],
                word.wf(),
                forall|b: int, k: int|
                    0 <= b < 26 && 0 <= k < lookup[b].len() ==> #[trigger] lookup[b][k]
                        <= word_idx && count_in(words[lookup[b][k] as int]@, b) > 0,
                forall|b: int, w: int|
                    0 <= b < 26 && 0 <= w < word_idx && count_in(#[trigger] words[w]@, b) > 0
                        ==> #[trigger] lookup[b]@.contains(w as usize),
                forall|j: int|
                    0 <= j < i ==> #[trigger] lookup[word@[j] as int]@.contains(word_idx),
        {
            let b = word.bytes[i] as usize;
            proof {
                reveal_with_fuel(count_prefix, 6);
            }
            let n_b = lookup[b].len();
            if n_b == 0 || lookup[b][n_b - 1] != word_idx {
                let ghost before = lookup;
                let mut row = lookup[b].clone();
                row.push(word_idx);
                lookup.set(b, row);
                proof {
                    assert forall|c: int, k1: int, k2: int|
                        0 <= c < 26 && 0 <= k1 < k2 < lookup[c].len() implies #[trigger] lookup[c][k1] < #[trigger] lookup[c][k2] by {
                        if c == b as int && k2 == n_b as int {
                            assert(before[c][k1] <= word_idx);
                            if k1 < n_b - 1 {
                                assert(before[c][k1] < before[c][n_b - 1]);
                            }
                            assert(before[c][n_b - 1] != word_idx);
                        } else if c == b as int {
                            assert(lookup[c][k1] == before[c][k1]);
                            assert(lookup[c][k2] == before[c][k2]);
                        } else {
                            assert(lookup[c] == before[c]);
                        }
                    }
                    assert forall|c: int, w: int|
                        0 <= c < 26 && 0 <= w < word_idx && count_in(#[trigger] words[w]@, c) > 0
                            implies #[trigger] lookup[c]@.contains(w as usize) by {
                        assert(before[c]@.contains(w as usize));
                        if c == b as int {
                            let k = choose|k: int| 0 <= k < before[c].len() && before[c][k] == w as usize;
                            assert(lookup[c][k] == w as usize);
                        }
                    }
                    assert forall|j: int| 0 <= j < i + 1 implies #[trigger] lookup[word@[j] as int]@.contains(
                        word_idx,
                    ) by {
                        if j < i {
                            assert(before[word@[j] as int]@.contains(word_idx));
                            if word@[j] as int == b as int {
                                let k = choose|k: int|
                                    0 <= k < before[b as int].len() && before[b as int][k] == word_idx;
                                assert(lookup[b as int][k] == word_idx);
                            }
                        } else {
                            assert(lookup[b as int][n_b as int] == word_idx);
                        }
                    }
                }
            } else {
                assert(lookup[b as int][n_b - 1] == word_idx);
            }
        }
        proof {
            reveal_with_fuel(count_prefix, 6);
            assert forall|c: int, w: int|
                0 <= c < 26 && 0 <= w < word_idx + 1 && count_in(#[trigger] words[w]@, c) > 0
                    implies #[trigger] lookup[c]@.contains(w as usize) by {
                if w == word_idx as int {
                    let j = if word@[0] == c { 0int } else if word@[1] == c { 1int } else if word@[2] == c {
                        2int
                    } else if word@[3] == c { 3int } else { 4int };
                    assert(lookup[word@[j] as int]@.contains(word_idx));
                }
            }
        }
    }
    lookup
}

/// The interned patterns of every (answer, guess) pair of a vocabulary, and
/// which words fit each pattern.
pub struct PatternTable {
    pub words: Vec<Word>,
    pub patterns: Vec<Pattern>,
    /// `ans_guess_pattern[a][g]` is the pattern of guess `g` against answer `a`.
    pub ans_guess_pattern: Vec<Vec<usize>>,
    /// `word_pattern_valid[w][p]` holds when word `w` fits pattern `p`.
    pub word_pattern_valid: Vec<Vec<bool>>,
}

/// The letters of each word of a vocabulary.
pub open spec fn letters(words: Seq<Word>) -> Seq<Seq<u8>> {
    Seq::new(words.len(), |i: int| words[i]@)
}

pub open spec fn all_wf(words: Seq<Word>) -> bool {
    forall|i: int| 0 <= i < words.len() ==> (#[trigger] words[i]).wf()
}

impl PatternTable {
    pub open spec fn wf(&self) -> bool {
        let n = self.words.len();
        &&& all_wf(self.words@)
        &&& distinct_patterns(self.patterns@)
        &&& self.ans_guess_pattern.len() == n
        &&& self.word_pattern_valid.len() == n
        &&& forall|a: int| 0 <= a < n ==> (#[trigger] self.ans_guess_pattern[a]).len() == n
        &&& forall|a: int, g: int|
            0 <= a < n && 0 <= g < n ==> #[trigger] self.ans_guess_pattern[a][g]
                < self.patterns.len() && describes(
                self.patterns[self.ans_guess_pattern[a][g] as int],
                self.words[a],
                self.words[g],
            )
        &&& forall|w: int|
            0 <= w < n ==> (#[trigger] self.word_pattern_valid[w]).len() == self.patterns.len()
        &&& forall|w: int, p: int|
            0 <= w < n && 0 <= p < self.patterns.len() ==> #[trigger] self.word_pattern_valid[w][p]
                == admits(self.patterns[p], self.words[w])
    }

    /// Whether word `word_idx` is still possible after guess `guess_idx` was
    /// played against the secret word `ans_idx`.
    pub fn is_valid(&self, word_idx: usize, guess_idx: usize, ans_idx: usize) -> (r: bool)
        requires
            self.wf(),
            word_idx < self.words.len(),
            guess_idx < self.words.len(),
            ans_idx < self.words.len(),
        ensures
            r == consistent(
                self.words[word_idx as int]@,
                self.words[guess_idx as int]@,
                self.words[ans_idx as int]@,
            ),
    {
        let p = self.ans_guess_pattern[ans_idx][guess_idx];
        proof {
            lemma_pattern_decides(
                self.patterns[p as int],
                self.words[word_idx as int],
                self.words[ans_idx as int],
                self.words[guess_idx as int],
            );
        }
        self.word_pattern_valid[word_idx][p]
    }
}

fn empty_pattern() -> (p: Pattern)
    ensures
        p.shared == 0,
{
    Pattern {
        missing: 0,
        shared: 0,
        green: [0u8; 26],
        orange: [0u8; 26],
        min_count: [0u8; 26],
        max_count: [0u8; 26],
    }
}

/// Returns the index of the pattern with the fields of `pat`, adding it
/// when there is none.
fn intern(patterns: &mut Vec<Pattern>, index: &mut HashMap<u64, Vec<usize>>, pat: Pattern) -> (id: usize)
    requires
        old(patterns).len() < usize::MAX,
        index_ok(old(index)@, old(patterns)@),
        distinct_patterns(old(patterns)@),
    ensures
        old(patterns).len() <= final(patterns).len() <= old(patterns).len() + 1,
        forall|i: int| 0 <= i < old(patterns).len() ==> #[trigger] final(patterns)[i] == old(patterns)[i],
        forall|i: int| old(patterns).len() <= i < final(patterns).len() ==> #[trigger] final(patterns)[i] == pat,
        id < final(patterns).len(),
        same_fields(final(patterns)[id as int], pat),
        index_ok(final(index)@, final(patterns)@),
        distinct_patterns(final(patterns)@),
{
    broadcast use vstd::std_specs::hash::group_hash_axioms;
    let key = pat.key();
    let ghost pats0 = patterns@;
    match index.get(&key) {
        Some(bucket) => {
            let mut i: usize = 0;
            while i < bucket.len()
                invariant
                    index@.contains_key(key),
                    bucket == &index@[key],
                    index_ok(index@, patterns@),
                    distinct_patterns(patterns@),
                    patterns@ == pats0,
                    index@ == old(index)@,
                    forall|j: int| 0 <= j < i ==> !same_fields(patterns[#[trigger] bucket@[j] as int], pat),
                decreases bucket.len() - i,
            {
                let id = bucket[i];
                if patterns[id].same_as(&pat) {
                    return id;
                }
                i = i + 1;
            }
            proof {
                assert forall|p: int| 0 <= p < patterns.len() implies !same_fields(#[trigger] patterns[p], pat) by {
                    if same_fields(patterns[p], pat) {
                        assert(pattern_key(patterns[p]) == key);
                        let j = choose|j: int| 0 <= j < bucket.len() && bucket@[j] == p as usize;
                        assert(!same_fields(patterns[bucket@[j] as int], pat));
                    }
                }
            }
        },
        None => {
            proof {
                assert forall|p: int| 0 <= p < patterns.len() implies !same_fields(#[trigger] patterns[p], pat) by {
                    if same_fields(patterns[p], pat) {
                        assert(pattern_key(patterns[p]) == key);
                    }
                }
            }
        },
    }
    let id = patterns.len();
    let ghost index0 = index@;
    patterns.push(pat);
    let mut bucket = match index.remove(&key) {
        Some(b) => b,
        None => Vec::new(),
    };
    let ghost bucket0 = bucket@;
    bucket.push(id);
    let ghost bucket1 = bucket;
    index.insert(key, bucket);
    proof {
        assert(same_fields(pat, pat));
        assert(index@ == index0.insert(key, bucket1));
        assert forall|k: u64, j: int| index@.contains_key(k) && 0 <= j < index@[k].len() implies #[trigger] index@[k][j]
            < patterns.len() by {
            if k == key && j < bucket0.len() {
                assert(index@[k][j] == bucket0[j]);
            }
        }
        assert forall|p: int| 0 <= p < patterns.len() implies index@.contains_key(pattern_key(#[trigger] patterns[p]))
            && index@[pattern_key(patterns[p])]@.contains(p as usize) by {
            if p == id as int {
                assert(bucket1@[bucket0.len() as int] == id);
            } else {
                assert(patterns[p] == pats0[p]);
                if pattern_key(pats0[p]) == key {
                    let j = choose|j: int| 0 <= j < bucket0.len() && bucket0[j] == p as usize;
                    assert(bucket1@[j] == p as usize);
                }
            }
        }
        assert forall|p: int, q: int| 0 <= p < patterns.len() && 0 <= q < patterns.len() && p != q implies !same_fields(
            #[trigger] patterns[p],
            #[trigger] patterns[q],
        ) by {
            if p < id && q < id {
                assert(patterns[p] == pats0[p] && patterns[q] == pats0[q]);
            } else if p < id {
                assert(patterns[p] == pats0[p]);
            } else {
                assert(patterns[q] == pats0[q]);
            }
        }
    }
    id
}

/// Every shared letter of the pattern occurs at least once in the answer.
pub open spec fn counted(p: Pattern) -> bool {
    forall|l: int| 0 <= l < 26 && #[trigger] bit32(p.shared, l as u32) ==> p.min_count@[l] >= 1
}

proof fn lemma_describes_counted(p: Pattern, ans: Word, guess: Word)
    requires
        ans.wf(),
        guess.wf(),
        describes(p, ans, guess),
    ensures
        counted(p),
{
    assert forall|l: int| 0 <= l < 26 && #[trigger] bit32(p.shared, l as u32) implies p.min_count@[l] >= 1 by {
        assert(letter_described(p, ans, guess, l));
        lemma_bit32_and(guess.unique_bytes, ans.unique_bytes, l as u32);
        assert(bit32(guess.unique_bytes, l as u32) <==> (l < 26 && count_in(guess@, l) > 0));
        assert(bit32(ans.unique_bytes, l as u32) <==> (l < 26 && count_in(ans@, l) > 0));
    }
}

/// A word lacking a shared letter of a counted pattern does not fit it.
proof fn lemma_lacking_shared_letter(p: Pattern, w: Word, l: int)
    requires
        w.wf(),
        counted(p),
        0 <= l < 26,
        bit32(p.shared, l as u32),
        count_in(w@, l) == 0,
    ensures
        !admits(p, w),
{
    assert(!letter_admits(p, w, l));
}

/// Interns the pattern of every (answer, guess) pair of `words` and records
/// which words fit each pattern.
pub fn build_patterns(words: Vec<Word>) -> (t: PatternTable)
    requires
        all_wf(words@),
        words.len() * words.len() < usize::MAX,
    ensures
        t.wf(),
        t.words@ == words@,
{
    broadcast use vstd::std_specs::hash::group_hash_axioms;
    let n = words.len();
    let mut patterns: Vec<Pattern> = Vec::new();
    patterns.push(empty_pattern());
    let mut index: HashMap<u64, Vec<usize>> = HashMap::new();
    let first_key = patterns[0].key();
    let mut first_bucket: Vec<usize> = Vec::new();
    first_bucket.push(0);
    index.insert(first_key, first_bucket);
    proof {
        assert(index@[first_key]@[0] == 0usize);
    }
    let mut ans_guess_pattern: Vec<Vec<usize>> = Vec::new();
    proof {
        assert forall|l: int| 0 <= l < 26 && #[trigger] bit32(patterns[0].shared, l as u32) implies patterns[0].min_count@[l] >= 1 by {
            crate::bits::lemma_bit32_zero(l as u32);
        }
    }
    for ans_idx in 0..n
        invariant
            n == words.len(),
            all_wf(words@),
            n * n < usize::MAX,
            ans_guess_pattern.len() == ans_idx,
            1 <= patterns.len() <= 1 + ans_idx * n,
            index_ok(index@, patterns@),
            distinct_patterns(patterns@),
            forall|p: int| 0 <= p < patterns.len() ==> counted(#[trigger] patterns[p]),
            forall|a: int| 0 <= a < ans_idx ==> (#[trigger] ans_guess_pattern[a]).len() == n,
            forall|a: int, g: int|
                0 <= a < ans_idx && 0 <= g < n ==> #[trigger] ans_guess_pattern[a][g]
                    < patterns.len() && describes(
                    patterns[ans_guess_pattern[a][g] as int],
                    words[a],
                    words[g],
                ),
    {
        let mut row: Vec<usize> = Vec::new();
        let ghost start = patterns@;
        for guess_idx in 0..n
            invariant
                n == words.len(),
                all_wf(words@),
                n * n < usize::MAX,
                ans_idx < n,
                row.len() == guess_idx,
                start.len() <= patterns.len() <= start.len() + guess_idx,
                1 <= start.len() <= 1 + ans_idx * n,
                forall|i: int| 0 <= i < start.len() ==> #[trigger] patterns[i] == start[i],
                index_ok(index@, patterns@),
            distinct_patterns(patterns@),
                forall|p: int| 0 <= p < patterns.len() ==> counted(#[trigger] patterns[p]),
                forall|g: int|
                    0 <= g < guess_idx ==> #[trigger] row[g] < patterns.len() && describes(
                        patterns[row[g] as int],
                        words[ans_idx as int],
                        words[g],
                    ),
        {
            proof {
                assert((ans_idx + 1) * n <= n * n) by (nonlinear_arith)
                    requires
                        ans_idx < n,
                ;
                assert((ans_idx + 1) * n == ans_idx * n + n) by (nonlinear_arith);
            }
            let pat = Pattern::new(&words[ans_idx], &words[guess_idx]);
            let ghost before = patterns@;
            let id = intern(&mut patterns, &mut index, pat);
            proof {
                lemma_same_fields_describe(pat, patterns[id as int], words[ans_idx as int], words[guess_idx as int]);
                lemma_describes_counted(pat, words[ans_idx as int], words[guess_idx as int]);
                assert forall|p: int| 0 <= p < patterns.len() implies counted(#[trigger] patterns[p]) by {
                    if p < before.len() {
                        assert(patterns[p] == before[p]);
                    }
                }
                assert forall|g: int| 0 <= g < guess_idx implies #[trigger] row[g] < patterns.len() && describes(
                    patterns[row[g] as int],
                    words[ans_idx as int],
                    words[g],
                ) by {
                    assert(patterns[row[g] as int] == before[row[g] as int]);
                }
            }
            row.push(id);
        }
        proof {
            assert((ans_idx + 1) * n == ans_idx * n + n) by (nonlinear_arith);
            assert forall|a: int, g: int| 0 <= a < ans_idx && 0 <= g < n implies #[trigger] ans_guess_pattern[a][g]
                < patterns.len() && describes(
                patterns[ans_guess_pattern[a][g] as int],
                words[a],
                words[g],
            ) by {
                assert(patterns[ans_guess_pattern[a][g] as int] == start[ans_guess_pattern[a][g] as int]);
            }
        }
        ans_guess_pattern.push(row);
    }
    let lookup = get_letter_to_word_idx_lookup(&words);
    let n_patterns = patterns.len();
    let mut word_pattern_valid: Vec<Vec<bool>> = Vec::new();
    for w in 0..n
        invariant
            word_pattern_valid.len() == w,
            forall|v: int| 0 <= v < w ==> (#[trigger] word_pattern_valid[v]).len() == n_patterns,
            forall|v: int, p: int|
                0 <= v < w && 0 <= p < n_patterns ==> #[trigger] word_pattern_valid[v][p] == false,
    {
        let mut row: Vec<bool> = Vec::new();
        for p in 0..n_patterns
            invariant
                row.len() == p,
                forall|q: int| 0 <= q < p ==> #[trigger] row[q] == false,
        {
            row.push(false);
        }
        word_pattern_valid.push(row);
    }
    for p in 0..n_patterns
        invariant
            n == words.len(),
            all_wf(words@),
            n_patterns == patterns.len(),
            lookup.len() == 26,
            forall|b: int, k: int|
                0 <= b < 26 && 0 <= k < lookup[b].len() ==> #[trigger] lookup[b][k] < words.len()
                    && count_in(words[lookup[b][k] as int]@, b) > 0,
            forall|b: int, v: int|
                0 <= b < 26 && 0 <= v < words.len() && count_in(#[trigger] words[v]@, b) > 0
                    ==> #[trigger] lookup[b]@.contains(v as usize),
            forall|q: int| 0 <= q < patterns.len() ==> counted(#[trigger] patterns[q]),
            word_pattern_valid.len() == n,
            forall|v: int| 0 <= v < n ==> (#[trigger] word_pattern_valid[v]).len() == n_patterns,
            forall|v: int, q: int|
                0 <= v < n && 0 <= q < n_patterns ==> #[trigger] word_pattern_valid[v][q] == if q
                    < p {
                    admits(patterns[q], words[v])
                } else {
                    false
                },
    {
        let pat = &patterns[p];
        let mut first: usize = 26;
        for l in 0..26
            invariant
                first == 26 || (first < 26 && bit32(pat.shared, first as u32)),
        {
            if first == 26 && (pat.shared >> (l as u32)) & 1 == 1 {
                first = l;
            }
        }
        if first == 26 {
            for v in 0..n
                invariant
                    n == words.len(),
                    p < n_patterns,
                    n_patterns == patterns.len(),
                    *pat == patterns[p as int],
                    word_pattern_valid.len() == n,
                    forall|u: int| 0 <= u < n ==> (#[trigger] word_pattern_valid[u]).len() == n_patterns,
                    forall|u: int, q: int|
                        0 <= u < n && 0 <= q < n_patterns ==> #[trigger] word_pattern_valid[u][q]
                            == if q < p || (q == p && u < v) {
                            admits(patterns[q], words[u])
                        } else {
                            false
                        },
            {
                let ok = pat.admits(&words[v]);
                let ghost before = word_pattern_valid@;
                word_pattern_valid[v][p] = ok;
                proof {
                    assert forall|u: int, q: int| 0 <= u < n && 0 <= q < n_patterns implies #[trigger] word_pattern_valid[u][q]
                        == if q < p || (q == p && u < v + 1) {
                        admits(patterns[q], words[u])
                    } else {
                        false
                    } by {
                        if u != v || q != p {
                            assert(word_pattern_valid[u][q] == before[u][q]);
                        }
                    }
                }
            }
        } else {
            let candidates = &lookup[first];
            for k in 0..candidates.len()
                invariant
                    n == words.len(),
                    p < n_patterns,
                    n_patterns == patterns.len(),
                    *pat == patterns[p as int],
                    word_pattern_valid.len() == n,
                    candidates == &lookup[first as int],
                    forall|j: int| 0 <= j < candidates.len() ==> #[trigger] candidates[j] < n,
                    forall|u: int| 0 <= u < n ==> (#[trigger] word_pattern_valid[u]).len() == n_patterns,
                    forall|u: int, q: int|
                        0 <= u < n && 0 <= q < n_patterns ==> #[trigger] word_pattern_valid[u][q]
                            == if q < p || (q == p && candidates@.take(k as int).contains(u as usize)) {
                            admits(patterns[q], words[u])
                        } else {
                            false
                        },
            {
                let v = candidates[k];
                let ok = pat.admits(&words[v]);
                let ghost before = word_pattern_valid@;
                word_pattern_valid[v][p] = ok;
                proof {
                    assert forall|u: int, q: int| 0 <= u < n && 0 <= q < n_patterns && (u != v || q != p) implies #[trigger] word_pattern_valid[u][q]
                        == before[u][q] by {}
                    let t0 = candidates@.take(k as int);
                    let t1 = candidates@.take(k + 1);
                    assert forall|u: int| 0 <= u < n implies #[trigger] t1.contains(u as usize) == (
                    t0.contains(u as usize) || u == v as int) by {
                        if t0.contains(u as usize) {
                            let j = choose|j: int| 0 <= j < t0.len() && #[trigger] t0[j] == u as usize;
                            assert(t1[j] == u as usize);
                        }
                        if u == v as int {
                            assert(t1[k as int] == u as usize);
                        }
                        if t1.contains(u as usize) {
                            let j = choose|j: int| 0 <= j < t1.len() && #[trigger] t1[j] == u as usize;
                            if j < k {
                                assert(t0[j] == u as usize);
                            }
                        }
                    }
                }
            }
            proof {
                assert(candidates@.take(candidates.len() as int) =~= candidates@);
                assert forall|u: int| 0 <= u < n && !candidates@.contains(u as usize) implies !admits(
                    patterns[p as int],
                    words[u],
                ) by {
                    assert(counted(patterns[p as int]));
                    assert(words[u].wf());
                    lemma_count_facts(words[u]@, first as int);
                    if count_in(words[u]@, first as int) > 0 {
                        assert(lookup[first as int]@.contains(u as usize));
                    }
                    lemma_lacking_shared_letter(patterns[p as int], words[u], first as int);
                }
            }
        }
    }
    PatternTable { words, patterns, ans_guess_pattern, word_pattern_valid }
}

/// A pair of words has one pattern: two descriptions of it agree field by
/// field.
pub proof fn lemma_describes_unique(p: Pattern, q: Pattern, ans: Word, guess: Word)
    requires
        describes(p, ans, guess),
        describes(q, ans, guess),
    ensures
        same_fields(p, q),
{
    assert forall|l: int| 0 <= l < 26 implies #[trigger] p.green@[l] == q.green@[l] by {
        assert(letter_described(p, ans, guess, l));
        assert(letter_described(q, ans, guess, l));
    }
    assert forall|l: int| 0 <= l < 26 implies #[trigger] p.orange@[l] == q.orange@[l] by {
        assert(letter_described(p, ans, guess, l));
        assert(letter_described(q, ans, guess, l));
    }
    assert forall|l: int| 0 <= l < 26 implies #[trigger] p.min_count@[l] == q.min_count@[l] by {
        assert(letter_described(p, ans, guess, l));
        assert(letter_described(q, ans, guess, l));
    }
    assert forall|l: int| 0 <= l < 26 implies #[trigger] p.max_count@[l] == q.max_count@[l] by {
        assert(letter_described(p, ans, guess, l));
        assert(letter_described(q, ans, guess, l));
    }
    assert(p.green@ =~= q.green@);
    assert(p.orange@ =~= q.orange@);
    assert(p.min_count@ =~= q.min_count@);
    assert(p.max_count@ =~= q.max_count@);
}

/// Two (answer, guess) pairs with the same pattern share one pattern id.
pub proof fn lemma_equal_patterns_share_id(t: PatternTable, a1: int, g1: int, a2: int, g2: int)
    requires
        t.wf(),
        0 <= a1 < t.words.len(),
        0 <= g1 < t.words.len(),
        0 <= a2 < t.words.len(),
        0 <= g2 < t.words.len(),
        describes(t.patterns[t.ans_guess_pattern[a1][g1] as int], t.words[a2], t.words[g2]),
    ensures
        t.ans_guess_pattern[a1][g1] == t.ans_guess_pattern[a2][g2],
{
    let p1 = t.ans_guess_pattern[a1][g1] as int;
    let p2 = t.ans_guess_pattern[a2][g2] as int;
    lemma_describes_unique(t.patterns[p1], t.patterns[p2], t.words[a2], t.words[g2]);
    if p1 != p2 {
        assert(!same_fields(t.patterns[p1], t.patterns[p2]));
    }
}

/// How many words of the vocabulary the pattern table is built over.
pub const PATTERN_VOCABULARY: usize = 200;

/// Encodes the first `PATTERN_VOCABULARY` words of `vocabulary` (or all, if
/// fewer) and builds their pattern table; fails on the first malformed word.
pub fn run_faster(vocabulary: &Vec<&str>) -> (r: Result<PatternTable, WordError>)
    ensures
        ({
            let n = if vocabulary.len() < PATTERN_VOCABULARY { vocabulary.len() as int } else { PATTERN_VOCABULARY as int };
            match r {
                Ok(t) => {
                    &&& t.wf()
                    &&& t.words.len() == n
                    &&& forall|i: int| 0 <= i < n ==> is_word_text(#[trigger] vocabulary[i].spec_bytes())
                    &&& forall|i: int| 0 <= i < n ==> #[trigger] t.words[i]@ == letters_of(vocabulary[i].spec_bytes())
                },
                Err(e) => exists|i: int| 0 <= i < n && !is_word_text(#[trigger] vocabulary[i].spec_bytes()),
            }
        }),
{
    let n = if vocabulary.len() < PATTERN_VOCABULARY { vocabulary.len() } else { PATTERN_VOCABULARY };
    let mut words: Vec<Word> = Vec::new();
    for i in 0..n
        invariant
            n <= vocabulary.len(),
            n <= PATTERN_VOCABULARY,
            words.len() == i,
            all_wf(words@),
            forall|j: int| 0 <= j < i ==> is_word_text(#[trigger] vocabulary[j].spec_bytes()),
            forall|j: int| 0 <= j < i ==> #[trigger] words[j]@ == letters_of(vocabulary[j].spec_bytes()),
    {
        match Word::new(vocabulary[i]) {
            Ok(w) => {
                words.push(w);
            },
            Err(e) => {
                return Err(e);
            },
        }
    }
    assert(words.len() * words.len() <= 200 * 200) by (nonlinear_arith)
        requires
            words.len() <= 200,
    ;
    let t = build_patterns(words);
    Ok(t)
}

} // verus!
