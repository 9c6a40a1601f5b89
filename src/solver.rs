//! The expected-value solver: the expected number of guesses needed to find
//! the secret word, playing optimally among the remaining candidates, with
//! results of candidate sets memoized.
use vstd::prelude::*;
use std::collections::{HashMap, HashSet};
use rand::rngs::StdRng;
use crate::word::{Word, consistent, code_of, lemma_answer_survives};
use crate::patterns::{PatternTable, build_patterns, letters, all_wf};
use crate::random::{seeded_rng, random_below};

verus! {

/// Costs are counted in millionths of a guess; each average is rounded down.
pub const SCALE: u64 = 1_000_000;

/// The largest vocabulary a solver takes, so that costs fit in `u64`.
pub const MAX_WORDS: usize = 1_000_000;

/// Upper bound (exclusive) of the random tags whose sums identify sets.
pub const TAG_BOUND: u64 = 1_000_000_000_000_000;

/// The members of `s[..k]` that stay possible after guess `g` was played
/// against the secret word `a`, in their order in `s`.
pub open spec fn survivors(words: Seq<Seq<u8>>, s: Seq<usize>, g: usize, a: usize, k: int) -> Seq<usize>
    decreases k,
{
    if k <= 0 {
        Seq::empty()
    } else {
        let t = survivors(words, s, g, a, k - 1);
        if consistent(words[s[k - 1] as int], words[g as int], words[a as int]) {
            t.push(s[k - 1])
        } else {
            t
        }
    }
}

/// What the secret word `a` adds beyond the guess itself once `g` was played
/// against it, with `t` the candidates left: one more guess for a single
/// candidate, 1.5 on average for two, otherwise the best play on `t`.
pub open spec fn after_feedback(words: Seq<Seq<u8>>, s: Seq<usize>, t: Seq<usize>) -> int
    decreases s.len(), 0int, 0int,
{
    if t.len() == 1 {
        SCALE as int
    } else if t.len() == 2 {
        (5 * SCALE / 2) as int
    } else if 3 <= t.len() < s.len() {
        best_cost(words, t, t.len() as int)
    } else {
        0
    }
}

/// The sum over the first `k` secret words of `s` of the guesses needed when
/// `g` is played first.
pub open spec fn total_cost(words: Seq<Seq<u8>>, s: Seq<usize>, g: usize, k: int) -> int
    decreases s.len(), 1int, k,
{
    if k <= 0 {
        0
    } else {
        let a = s[k - 1];
        total_cost(words, s, g, k - 1) + SCALE + if a == g {
            0
        } else {
            after_feedback(words, s, survivors(words, s, g, a, s.len() as int))
        }
    }
}

/// Expected number of guesses to find a secret word drawn uniformly from
/// `s` when `g` is played first (rounded down).
pub open spec fn guess_cost(words: Seq<Seq<u8>>, s: Seq<usize>, g: usize) -> int
    decreases s.len(), 2int, 0int,
{
    total_cost(words, s, g, s.len() as int) / (s.len() as int)
}

/// The least expected cost over first guesses taken from `t[..k]`.
pub open spec fn best_cost(words: Seq<Seq<u8>>, t: Seq<usize>, k: int) -> int
    decreases t.len(), 3int, k,
{
    if k <= 1 {
        guess_cost(words, t, t[0])
    } else {
        let rest = best_cost(words, t, k - 1);
        let here = guess_cost(words, t, t[k - 1]);
        if here < rest {
            here
        } else {
            rest
        }
    }
}

/// The indices `0..n`.
pub open spec fn all_indices(n: nat) -> Seq<usize> {
    Seq::new(n, |i: int| i as usize)
}

/// Every index names a word of a vocabulary of `n` words.
pub open spec fn in_vocabulary(s: Seq<usize>, n: int) -> bool {
    forall|i: int| 0 <= i < s.len() ==> #[trigger] s[i] < n
}

/// A ranking of first guesses over the vocabulary `words`: each entry is
/// (expected cost, word index) with the exact cost of that guess, the
/// entries are in ascending order of cost, no index appears twice, and the
/// indices are exactly those whose word code is in `guesses`.
pub open spec fn is_ranking(words: Seq<Seq<u8>>, guesses: Set<u32>, r: Seq<(u64, usize)>) -> bool {
    &&& forall|i: int, j: int| 0 <= i < j < r.len() ==> r[i].0 <= r[j].0
    &&& forall|i: int, j: int| 0 <= i < j < r.len() ==> r[i].1 != r[j].1
    &&& forall|i: int, j: int| 0 <= i < j < r.len() && r[i].0 == r[j].0 ==> r[i].1 < r[j].1
    &&& forall|i: int|
        0 <= i < r.len() ==> {
            &&& #[trigger] r[i].1 < words.len()
            &&& guesses.contains(code_of(words[r[i].1 as int]) as u32)
            &&& r[i].0 as int == guess_cost(words, all_indices(words.len()), r[i].1)
        }
    &&& forall|g: int|
        0 <= g < words.len() && guesses.contains(code_of(#[trigger] words[g]) as u32) ==> exists|i: int|
            0 <= i < r.len() && r[i].1 == g
}

/// The memo entries stored under each fingerprint, oldest first.
pub type Memo = Map<u64, Seq<(Seq<usize>, u64)>>;

/// `new` keeps every entry of `old`, in place: the memo only grows.
pub open spec fn memo_extends(old: Memo, new: Memo) -> bool {
    forall|k: u64|
        #[trigger] old.contains_key(k) ==> {
            &&& new.contains_key(k)
            &&& old[k].len() <= new[k].len()
            &&& forall|i: int| 0 <= i < old[k].len() ==> #[trigger] new[k][i] == old[k][i]
        }
}

/// The entries stored under fingerprint `h`.
pub open spec fn bucket_of(m: Memo, h: u64) -> Seq<(Seq<usize>, u64)> {
    if m.contains_key(h) {
        m[h]
    } else {
        Seq::empty()
    }
}

/// Some entry of the bucket is for the set `s`.
pub open spec fn has_entry(bucket: Seq<(Seq<usize>, u64)>, s: Seq<usize>) -> bool {
    exists|i: int| 0 <= i < bucket.len() && #[trigger] bucket[i].0 == s
}

/// The fingerprint of `s[..k]`: the wrapping sum of the tags of its indices.
pub open spec fn fingerprint_of(tags: Seq<u64>, s: Seq<usize>, k: int) -> u64
    decreases k,
{
    if k <= 0 {
        0
    } else {
        fingerprint_of(tags, s, k - 1).wrapping_add(tags[s[k - 1] as int])
    }
}

/// Exact expected-value solver over one vocabulary.
pub struct FastSolver {
    /// Best costs of candidate sets, bucketed by their fingerprints; each
    /// entry keeps its set, so a fingerprint collision is never taken for a
    /// hit, and no entry is ever replaced.
    cache: HashMap<u64, Vec<(Vec<usize>, u64)>>,
    table: PatternTable,
    rand: Vec<u64>,
    use_cache: bool,
    /// Scratch buffers for candidate lists, reused across calls.
    buffer_pool: Vec<Vec<usize>>,
}

impl FastSolver {
    /// The letters of the vocabulary's words.
    pub closed spec fn vocab(&self) -> Seq<Seq<u8>> {
        letters(self.table.words@)
    }

    pub closed spec fn cache_sound(&self) -> bool {
        forall|k: u64, i: int|
            self.cached_sets().contains_key(k) && 0 <= i < self.cached_sets()[k].len() ==> {
                let (s, c) = #[trigger] self.cached_sets()[k][i];
                &&& 1 <= s.len() <= MAX_WORDS
                &&& in_vocabulary(s, self.table.words.len() as int)
                &&& c as int == best_cost(self.vocab(), s, s.len() as int)
                &&& c as int <= (s.len() + 3) * SCALE
            }
    }

    /// The random tags of the vocabulary's words.
    pub closed spec fn tags(&self) -> Seq<u64> {
        self.rand@
    }

    pub closed spec fn inv(&self) -> bool {
        &&& self.table.wf()
        &&& self.table.words.len() <= MAX_WORDS
        &&& self.rand.len() == self.table.words.len()
        &&& self.cache_sound()
    }

    /// Number of words in the vocabulary.
    pub closed spec fn len(&self) -> nat {
        self.table.words.len() as nat
    }

    /// Builds a solver over `all_words`, drawing the set tags from a
    /// generator seeded with `seed`; `use_cache` turns memoization on.
    pub fn new(all_words: Vec<Word>, seed: u64, use_cache: bool) -> (s: FastSolver)
        requires
            all_wf(all_words@),
            all_words.len() <= MAX_WORDS,
            all_words.len() * all_words.len() < usize::MAX,
        ensures
            s.inv(),
            s.vocab() == letters(all_words@),
            s.len() == all_words.len(),
            s.vocab().len() == s.len(),
            s.caching() == use_cache,
            s.cached_sets() == Memo::empty(),
            s.tags().len() == all_words.len(),
            forall|i: int| 0 <= i < s.tags().len() ==> #[trigger] s.tags()[i] < TAG_BOUND,
    {
        let n = all_words.len();
        let table = build_patterns(all_words);
        let mut rng: StdRng = seeded_rng(seed);
        let mut rand: Vec<u64> = Vec::new();
        for i in 0..n
            invariant
                rand.len() == i,
                forall|j: int| 0 <= j < i ==> #[trigger] rand@[j] < TAG_BOUND,
        {
            rand.push(random_below(&mut rng, TAG_BOUND));
        }
        let s = FastSolver { cache: HashMap::new(), table, rand, use_cache, buffer_pool: Vec::new() };
        proof {
            broadcast use vstd::std_specs::hash::group_hash_axioms;
            assert(s.cached_sets() =~= Memo::empty());
        }
        s
    }

    /// Order-independent fingerprint of a set of indices: the sum of their
    /// tags.
    fn fingerprint(&self, idxs: &Vec<usize>) -> (r: u64)
        requires
            self.inv(),
            in_vocabulary(idxs@, self.table.words.len() as int),
        ensures
            r == fingerprint_of(self.tags(), idxs@, idxs.len() as int),
    {
        let mut h: u64 = 0;
        for j in 0..idxs.len()
            invariant
                self.inv(),
                in_vocabulary(idxs@, self.table.words.len() as int),
                h == fingerprint_of(self.tags(), idxs@, j as int),
        {
            h = h.wrapping_add(self.rand[idxs[j]]);
        }
        h
    }

    /// Fills `out` with the members of `idxs` still possible after
    /// `guess_idx` was played against `ans_idx`.
    fn survivors_into(&self, guess_idx: usize, ans_idx: usize, idxs: &Vec<usize>, out: &mut Vec<usize>)
        requires
            self.inv(),
            guess_idx < self.table.words.len(),
            ans_idx < self.table.words.len(),
            in_vocabulary(idxs@, self.table.words.len() as int),
        ensures
            final(out)@ == survivors(self.vocab(), idxs@, guess_idx, ans_idx, idxs.len() as int),
            final(out).len() <= idxs.len(),
            in_vocabulary(final(out)@, self.table.words.len() as int),
    {
        out.clear();
        for k in 0..idxs.len()
            invariant
                self.inv(),
                guess_idx < self.table.words.len(),
                ans_idx < self.table.words.len(),
                in_vocabulary(idxs@, self.table.words.len() as int),
                out@ == survivors(self.vocab(), idxs@, guess_idx, ans_idx, k as int),
                out.len() <= k,
                in_vocabulary(out@, self.table.words.len() as int),
        {
            let w = idxs[k];
            if self.table.is_valid(w, guess_idx, ans_idx) {
                out.push(w);
            }
        }
    }

    /// A scratch buffer from the pool, or a new one.
    fn take_buffer(&mut self) -> (b: Vec<usize>)
        requires
            old(self).inv(),
        ensures
            final(self).inv(),
            final(self).cached_sets() == old(self).cached_sets(),
            final(self).table == old(self).table,
            final(self).rand == old(self).rand,
            final(self).cache == old(self).cache,
            final(self).use_cache == old(self).use_cache,
    {
        let b = match self.buffer_pool.pop() {
            Some(b) => b,
            None => Vec::new(),
        };
        proof {
            assert(self.cached_sets() == old(self).cached_sets());
            assert(self.vocab() == old(self).vocab());
            assert(self.cache_sound());
        }
        b
    }

    /// Expected number of guesses (in millionths) to find a secret word
    /// drawn from `idxs` when `guess_idx` is played first.
    fn evaluate_guess(&mut self, guess_idx: usize, idxs: &Vec<usize>) -> (r: u64)
        requires
            old(self).inv(),
            guess_idx < old(self).table.words.len(),
            idxs@.contains(guess_idx),
            1 <= idxs.len() <= MAX_WORDS,
            in_vocabulary(idxs@, old(self).table.words.len() as int),
        ensures
            final(self).inv(),
            final(self).table == old(self).table,
            final(self).rand == old(self).rand,
            final(self).use_cache == old(self).use_cache,
            memo_extends(old(self).cached_sets(), final(self).cached_sets()),
            !old(self).caching() ==> final(self).cached_sets() == old(self).cached_sets(),
            r as int == guess_cost(old(self).vocab(), idxs@, guess_idx),
            r as int <= (idxs.len() + 3) * SCALE,
        decreases idxs.len(), 1int,
    {
        let ghost words = self.vocab();
        let ghost table0 = self.table;
        let ghost rand0 = self.rand;
        let ghost memo0 = self.cached_sets();
        let len = idxs.len();
        let mut total: u64 = 0;
        let mut new_idxs = self.take_buffer();
        for j in 0..len
            invariant
                self.inv(),
                self.table == table0,
                self.rand == rand0,
                self.use_cache == old(self).use_cache,
                memo_extends(memo0, self.cached_sets()),
                !old(self).caching() ==> self.cached_sets() == memo0,
                words == self.vocab(),
                guess_idx < self.table.words.len(),
                len == idxs.len(),
                1 <= len <= MAX_WORDS,
                in_vocabulary(idxs@, self.table.words.len() as int),
                total as int == total_cost(words, idxs@, guess_idx, j as int),
                total as int <= j * (len + 3) * SCALE,
        {
            proof {
                assert((j + 1) * (len + 3) * SCALE <= len * (len + 3) * SCALE) by (nonlinear_arith)
                    requires
                        j < len,
                ;
                assert(len * (len + 3) * SCALE <= MAX_WORDS * (MAX_WORDS + 3) * SCALE) by (nonlinear_arith)
                    requires
                        len <= MAX_WORDS,
                ;
                assert((j + 1) * (len + 3) * SCALE == j * (len + 3) * SCALE + (len + 3) * SCALE) by (nonlinear_arith);
            }
            let ans_idx = idxs[j];
            let mut add: u64 = SCALE;
            if ans_idx != guess_idx {
                self.survivors_into(guess_idx, ans_idx, idxs, &mut new_idxs);
                let n_new = new_idxs.len();
                let extra: u64 = if n_new == 1 {
                    SCALE
                } else if n_new == 2 {
                    5 * SCALE / 2
                } else if 3 <= n_new && n_new < len {
                    self.evaluate_next_guess(&new_idxs)
                } else {
                    0
                };
                add = SCALE + extra;
                assert(extra as int == after_feedback(words, idxs@, new_idxs@));
            }
            assert(total_cost(words, idxs@, guess_idx, j + 1) == total_cost(words, idxs@, guess_idx, j as int) + add);
            total = total + add;
        }
        proof {
            assert(total / (len as u64) <= (len + 3) * SCALE) by (nonlinear_arith)
                requires
                    total as int <= len * (len + 3) * SCALE,
                    len >= 1,
            ;
        }
        total / (len as u64)
    }

    /// Whether two index lists are equal.
    fn same_indices(a: &Vec<usize>, b: &Vec<usize>) -> (r: bool)
        ensures
            r == (a@ == b@),
    {
        if a.len() != b.len() {
            return false;
        }
        for j in 0..a.len()
            invariant
                a.len() == b.len(),
                forall|i: int| 0 <= i < j ==> #[trigger] a@[i] == b@[i],
        {
            if a[j] != b[j] {
                return false;
            }
        }
        assert(a@ =~= b@);
        true
    }

    /// The least expected cost (in millionths) over first guesses drawn from
    /// `idxs`, from the cache when this set was seen before.
    fn evaluate_next_guess(&mut self, idxs: &Vec<usize>) -> (r: u64)
        requires
            old(self).inv(),
            1 <= idxs.len() <= MAX_WORDS,
            in_vocabulary(idxs@, old(self).table.words.len() as int),
        ensures
            final(self).inv(),
            final(self).table == old(self).table,
            final(self).rand == old(self).rand,
            final(self).use_cache == old(self).use_cache,
            r as int == best_cost(old(self).vocab(), idxs@, idxs.len() as int),
            r as int <= (idxs.len() + 3) * SCALE,
            memo_extends(old(self).cached_sets(), final(self).cached_sets()),
            !old(self).caching() ==> final(self).cached_sets() == old(self).cached_sets(),
            ({
                let h = fingerprint_of(old(self).tags(), idxs@, idxs.len() as int);
                &&& old(self).caching() && has_entry(bucket_of(old(self).cached_sets(), h), idxs@)
                    ==> final(self).cached_sets() == old(self).cached_sets()
                &&& old(self).caching() && !has_entry(bucket_of(old(self).cached_sets(), h), idxs@)
                    ==> final(self).cached_sets().contains_key(h) && final(self).cached_sets()[h].last() == (idxs@, r)
            }),
        decreases idxs.len(), 2int,
    {
        broadcast use vstd::std_specs::hash::group_hash_axioms;
        let ghost words = self.vocab();
        let ghost table0 = self.table;
        let ghost rand0 = self.rand;
        let ghost memo0 = self.cached_sets();
        let hash = self.fingerprint(idxs);
        if self.use_cache {
            match self.cache.get(&hash) {
                Some(bucket) => {
                    let mut i: usize = 0;
                    while i < bucket.len()
                        invariant
                            self.inv(),
                            self.cache@.contains_key(hash),
                            bucket == &self.cache@[hash],
                            memo0 == self.cached_sets(),
                            memo0 == old(self).cached_sets(),
                            hash == fingerprint_of(old(self).tags(), idxs@, idxs.len() as int),
                            words == self.vocab(),
                            forall|j: int| 0 <= j < i ==> #[trigger] bucket@[j].0@ != idxs@,
                        decreases bucket.len() - i,
                    {
                        if Self::same_indices(&bucket[i].0, idxs) {
                            proof {
                                assert(memo0[hash][i as int] == (bucket@[i as int].0@, bucket@[i as int].1));
                                assert(bucket_of(memo0, hash)[i as int].0 == idxs@);
                                assert(has_entry(bucket_of(memo0, hash), idxs@));
                                assert(memo0 == old(self).cached_sets());
                                assert(hash == fingerprint_of(old(self).tags(), idxs@, idxs.len() as int));
                            }
                            return bucket[i].1;
                        }
                        i = i + 1;
                    }
                    proof {
                        assert forall|j: int| 0 <= j < memo0[hash].len() implies #[trigger] memo0[hash][j].0 != idxs@ by {
                            assert(memo0[hash][j] == (bucket@[j].0@, bucket@[j].1));
                        }
                    }
                },
                None => {},
            }
        }
        assert(idxs@[0] == idxs[0]);
        let mut best = self.evaluate_guess(idxs[0], idxs);
        for k in 1..idxs.len()
            invariant
                self.inv(),
                self.table == table0,
                self.rand == rand0,
                self.use_cache == old(self).use_cache,
                memo_extends(memo0, self.cached_sets()),
                !old(self).caching() ==> self.cached_sets() == memo0,
                words == self.vocab(),
                1 <= idxs.len() <= MAX_WORDS,
                in_vocabulary(idxs@, self.table.words.len() as int),
                best as int == best_cost(words, idxs@, k as int),
                best as int <= (idxs.len() + 3) * SCALE,
        {
            assert(idxs@[k as int] == idxs[k as int]);
            let avg = self.evaluate_guess(idxs[k], idxs);
            if avg < best {
                best = avg;
            }
        }
        if self.use_cache {
            let ghost mid = self.cached_sets();
            let ghost mid_cache = self.cache@;
            let mut bucket = match self.cache.remove(&hash) {
                Some(b) => b,
                None => Vec::new(),
            };
            let ghost old_bucket = bucket@;
            assert(Seq::new(old_bucket.len() as nat, |i: int| (old_bucket[i].0@, old_bucket[i].1)) =~= bucket_of(mid, hash));
            let key_set = idxs.clone();
            bucket.push((key_set, best));
            let ghost new_bucket = bucket;
            self.cache.insert(hash, bucket);
            proof {
                assert(self.cache@ == mid_cache.insert(hash, new_bucket));
                assert(self.cached_sets()[hash] =~= bucket_of(mid, hash).push((idxs@, best)));
                assert(self.cached_sets() =~= mid.insert(hash, bucket_of(mid, hash).push((idxs@, best))));
            }
        }
        best
    }

    /// Expected number of guesses (in millionths) to find a secret word drawn
    /// uniformly from the whole vocabulary when word `guess_idx` is played
    /// first.
    pub fn evaluate_one_guess(&mut self, guess_idx: usize) -> (r: u64)
        requires
            old(self).inv(),
            guess_idx < old(self).len(),
        ensures
            final(self).inv(),
            final(self).vocab() == old(self).vocab(),
            final(self).len() == old(self).len(),
            final(self).tags() == old(self).tags(),
            final(self).caching() == old(self).caching(),
            memo_extends(old(self).cached_sets(), final(self).cached_sets()),
            !old(self).caching() ==> final(self).cached_sets() == old(self).cached_sets(),
            r as int == guess_cost(old(self).vocab(), all_indices(old(self).len()), guess_idx),
    {
        proof {
            reveal(FastSolver::inv);
            reveal(FastSolver::len);
        }
        let n = self.table.words.len();
        let mut idxs = self.take_buffer();
        idxs.clear();
        for i in 0..n
            invariant
                idxs@ == all_indices(i as nat),
        {
            idxs.push(i);
            assert(idxs@ =~= all_indices((i + 1) as nat));
        }
        assert(idxs@[guess_idx as int] == guess_idx);
        let r = self.evaluate_guess(guess_idx, &idxs);
        self.buffer_pool.push(idxs);
        r
    }

    /// Ranks the vocabulary words whose codes are in `initial_guesses` by
    /// expected cost, best first; words of equal cost keep vocabulary order.
    pub fn evaluate_guesses(&mut self, initial_guesses: &HashSet<u32>) -> (r: Vec<(u64, usize)>)
        requires
            old(self).inv(),
        ensures
            final(self).inv(),
            final(self).vocab() == old(self).vocab(),
            final(self).len() == old(self).len(),
            final(self).tags() == old(self).tags(),
            final(self).caching() == old(self).caching(),
            memo_extends(old(self).cached_sets(), final(self).cached_sets()),
            is_ranking(old(self).vocab(), initial_guesses@, r@),
            r.len() <= old(self).len(),
    {
        broadcast use vstd::std_specs::hash::group_hash_axioms;
        proof {
            reveal(FastSolver::len);
        }
        let ghost words = self.vocab();
        let ghost memo0 = self.cached_sets();
        let n = self.table.words.len();
        let mut results: Vec<(u64, usize)> = Vec::new();
        for guess_idx in 0..n
            invariant
                self.inv(),
                self.vocab() == words,
                self.tags() == old(self).tags(),
                self.caching() == old(self).caching(),
                memo_extends(memo0, self.cached_sets()),
                memo0 == old(self).cached_sets(),
                results.len() <= guess_idx,
                n == self.table.words.len(),
                words.len() == n,
                forall|i: int, j: int| 0 <= i < j < results.len() ==> results[i].0 <= results[j].0,
                forall|i: int, j: int| 0 <= i < j < results.len() ==> results[i].1 != results[j].1,
                forall|i: int, j: int|
                    0 <= i < j < results.len() && results[i].0 == results[j].0 ==> results[i].1 < results[j].1,
                forall|i: int|
                    0 <= i < results.len() ==> {
                        &&& #[trigger] results[i].1 < guess_idx
                        &&& initial_guesses@.contains(code_of(words[results[i].1 as int]) as u32)
                        &&& results[i].0 as int == guess_cost(words, all_indices(n as nat), results[i].1)
                    },
                forall|g: int|
                    0 <= g < guess_idx && initial_guesses@.contains(code_of(#[trigger] words[g]) as u32)
                        ==> exists|i: int| 0 <= i < results.len() && results[i].1 == g,
        {
            let code = self.table.words[guess_idx].code();
            assert(words[guess_idx as int] == self.table.words[guess_idx as int]@);
            if initial_guesses.contains(&code) {
                let avg = self.evaluate_one_guess(guess_idx);
                let mut pos: usize = 0;
                while pos < results.len() && results[pos].0 <= avg
                    invariant
                        pos <= results.len(),
                        forall|i: int| 0 <= i < pos ==> #[trigger] results[i].0 <= avg,
                    decreases results.len() - pos,
                {
                    pos = pos + 1;
                }
                let ghost before = results@;
                results.insert(pos, (avg, guess_idx));
                proof {
                    assert forall|i: int| 0 <= i < results.len() implies #[trigger] results@[i] == if i < pos {
                        before[i]
                    } else if i == pos {
                        (avg, guess_idx)
                    } else {
                        before[i - 1]
                    } by {}
                    assert forall|i: int, j: int| 0 <= i < j < results.len() implies results[i].0 <= results[j].0 by {
                        if pos < before.len() {
                            assert(before[pos as int].0 > avg);
                        }
                    }
                    assert forall|g: int|
                        0 <= g < guess_idx + 1 && initial_guesses@.contains(code_of(#[trigger] words[g]) as u32)
                            implies exists|i: int| 0 <= i < results.len() && results[i].1 == g by {
                        if g == guess_idx {
                            assert(results[pos as int].1 == g);
                        } else {
                            let i = choose|i: int| 0 <= i < before.len() && before[i].1 == g;
                            if i < pos {
                                assert(results[i].1 == g);
                            } else {
                                assert(results[i + 1].1 == g);
                            }
                        }
                    }
                }
            }
        }
        results
    }

    /// The word at index `idx` of the vocabulary.
    pub fn word(&self, idx: usize) -> (w: &Word)
        requires
            self.inv(),
            idx < self.len(),
        ensures
            w.wf(),
            w@ == self.vocab()[idx as int],
    {
        proof {
            reveal(FastSolver::len);
        }
        &self.table.words[idx]
    }

    /// Whether results of candidate sets are memoized.
    pub closed spec fn caching(&self) -> bool {
        self.use_cache
    }

    /// The memoized results: for each fingerprint, the candidate sets stored
    /// under it with their best expected costs, oldest first.
    pub closed spec fn cached_sets(&self) -> Memo {
        self.cache@.map_values(
            |b: Vec<(Vec<usize>, u64)>| Seq::new(b.len() as nat, |i: int| (b@[i].0@, b@[i].1)),
        )
    }
}

/// The secret word always survives the filtering by the feedback a guess
/// gets against it.
pub proof fn lemma_answer_remains(words: Seq<Seq<u8>>, s: Seq<usize>, g: usize, a: usize, k: int)
    requires
        0 <= k <= s.len(),
        exists|i: int| 0 <= i < k && s[i] == a,
    ensures
        survivors(words, s, g, a, k).contains(a),
    decreases k,
{
    let last = s[k - 1];
    if last == a {
        lemma_answer_survives(words[g as int], words[a as int]);
        let t = survivors(words, s, g, a, k - 1);
        assert(survivors(words, s, g, a, k)[t.len() as int] == a);
    } else {
        let i = choose|i: int| 0 <= i < k && s[i] == a;
        assert(i < k - 1);
        lemma_answer_remains(words, s, g, a, k - 1);
        let t = survivors(words, s, g, a, k - 1);
        let j = choose|j: int| 0 <= j < t.len() && t[j] == a;
        if consistent(words[last as int], words[g as int], words[a as int]) {
            assert(survivors(words, s, g, a, k)[j] == a);
        }
    }
}

/// A single remaining candidate costs exactly one more guess, and two
/// remaining candidates cost exactly 2.5 with the guess already made, i.e.
/// 1.5 beyond it.
pub proof fn lemma_closed_form_shortcuts(words: Seq<Seq<u8>>, s: Seq<usize>, t: Seq<usize>)
    ensures
        t.len() == 1 ==> after_feedback(words, s, t) == SCALE,
        t.len() == 2 ==> after_feedback(words, s, t) == 5 * SCALE / 2,
        t.len() == 2 ==> SCALE + after_feedback(words, s, t) == 7 * SCALE / 2,
{
}

/// Two solvers over the same vocabulary give the same expected cost for the
/// same first guess, whatever their random tags or their memoized sets.
pub proof fn lemma_repeatable(s1: FastSolver, s2: FastSolver, g: usize)
    requires
        s1.vocab() == s2.vocab(),
        s1.len() == s2.len(),
    ensures
        guess_cost(s1.vocab(), all_indices(s1.len()), g) == guess_cost(
            s2.vocab(),
            all_indices(s2.len()),
            g,
        ),
{
}

/// A memoized result is exactly the best expected cost of its candidate
/// set, so the cache never changes what a solver returns.
pub proof fn lemma_cache_transparent(s: FastSolver)
    requires
        s.inv(),
    ensures
        forall|k: u64, i: int|
            s.cached_sets().contains_key(k) && 0 <= i < s.cached_sets()[k].len() ==> (#[trigger] s.cached_sets()[k][i]).1 as int
                == best_cost(
                s.vocab(),
                s.cached_sets()[k][i].0,
                s.cached_sets()[k][i].0.len() as int,
            ),
{
}

/// The number of words is the length of the vocabulary.
pub proof fn lemma_len_is_vocabulary_len(s: FastSolver)
    requires
        s.inv(),
    ensures
        s.vocab().len() == s.len(),
{
}

/// A solver that memoizes and one that does not give the same expected
/// cost for a first guess over the same vocabulary.
pub proof fn lemma_cache_on_off_agree(cached: FastSolver, plain: FastSolver, g: usize)
    requires
        cached.caching(),
        !plain.caching(),
        cached.vocab() == plain.vocab(),
        cached.len() == plain.len(),
    ensures
        guess_cost(cached.vocab(), all_indices(cached.len()), g) == guess_cost(
            plain.vocab(),
            all_indices(plain.len()),
            g,
        ),
{
}

} // verus!
