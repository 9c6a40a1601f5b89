//! The narrowing driver: rounds of solvers over random chunks of the
//! vocabulary shortlist the first guesses, then one exact solver over the
//! whole vocabulary ranks the shortlist.
use vstd::prelude::*;
use vstd::arithmetic::div_mod::{lemma_fundamental_div_mod, lemma_mod_pos_bound};
use std::collections::HashSet;
use rayon::prelude::{IntoParallelIterator, ParallelIterator};
use crate::word::{Word, code_of};
use crate::patterns::{letters, all_wf};
use crate::solver::{FastSolver, MAX_WORDS, is_ranking, guess_cost, all_indices};
use crate::random::{seeded_rng, shuffle_indices};

verus! {

/// How many guesses each chunk passes on to the next round.
pub const SHORTLIST_KEEP: usize = 30;

/// Every code of `s` is the code of a word of `all`.
pub open spec fn codes_of_vocabulary(all: Seq<Word>, s: Set<u32>) -> bool {
    forall|c: u32| #[trigger] s.contains(c) ==> exists|i: int| 0 <= i < all.len() && c as int == code_of(all[i]@)
}

/// Every word of `chunk` is a word of `all`.
pub open spec fn drawn_from(all: Seq<Word>, chunk: Seq<Word>) -> bool {
    forall|j: int| 0 <= j < chunk.len() ==> exists|i: int| 0 <= i < all.len() && #[trigger] chunk[j] == all[i]
}

/// A chunk that a solver can be built over.
pub open spec fn chunk_ok(words: Seq<Word>) -> bool {
    &&& all_wf(words)
    &&& words.len() <= MAX_WORDS
    &&& words.len() * words.len() < usize::MAX
}

/// `r` holds the codes of the first `keep` entries (or all, if fewer) of the
/// ranking over `words` of the guesses whose codes are in `guesses`.
pub open spec fn shortlist_of(words: Seq<Word>, guesses: Set<u32>, keep: usize, r: Seq<u32>) -> bool {
    exists|ranking: Seq<(u64, usize)>|
        {
            &&& is_ranking(letters(words), guesses, ranking)
            &&& r.len() == if ranking.len() < keep { ranking.len() as int } else { keep as int }
            &&& forall|i: int|
                0 <= i < r.len() ==> #[trigger] r[i] as int == code_of(words[ranking[i].1 as int]@)
        }
}

/// Ranks the guesses of `guesses` on a solver over `words_chunk` and keeps
/// the codes of the best `keep`.
pub fn chunk_shortlist(words_chunk: Vec<Word>, guesses: &HashSet<u32>, keep: usize, seed: u64) -> (r: Vec<u32>)
    requires
        chunk_ok(words_chunk@),
    ensures
        shortlist_of(words_chunk@, guesses@, keep, r@),
{
    let ghost words = words_chunk@;
    let mut solver = FastSolver::new(words_chunk, seed, true);
    let ranking = solver.evaluate_guesses(guesses);
    let mut r: Vec<u32> = Vec::new();
    let mut i: usize = 0;
    while i < ranking.len() && i < keep
        invariant
            solver.inv(),
            solver.vocab() == letters(words),
            solver.len() == words.len(),
            is_ranking(letters(words), guesses@, ranking@),
            all_wf(words),
            i <= ranking.len(),
            i <= keep,
            r.len() == i,
            forall|j: int| 0 <= j < i ==> #[trigger] r[j] as int == code_of(words[ranking[j].1 as int]@),
        decreases ranking.len() - i,
    {
        let idx = ranking[i].1;
        assert(idx < words.len());
        let code = solver.word(idx).code();
        r.push(code);
        i = i + 1;
    }
    r
}

/// Relies on rayon's `into_par_iter().map(..).collect()` on a `Vec`: runs
/// `chunk_shortlist` on every chunk and collects the results in chunk order.
#[verifier::external_body]
fn shortlists_in_parallel(chunks: Vec<Vec<Word>>, guesses: &HashSet<u32>, keep: usize, seed: u64) -> (r: Vec<Vec<u32>>)
    requires
        forall|i: int| 0 <= i < chunks.len() ==> chunk_ok(#[trigger] chunks[i]@),
    ensures
        r.len() == chunks.len(),
        forall|i: int| 0 <= i < r.len() ==> shortlist_of(chunks[i]@, guesses@, keep, #[trigger] r[i]@),
{
    chunks.into_par_iter().map(|c| chunk_shortlist(c, guesses, keep, seed)).collect()
}

/// The chunk sizes of the rounds: a tenth, a fifth, then half of the
/// vocabulary.
pub fn default_chunk_sizes(n: usize) -> (r: Vec<usize>)
    ensures
        r@ == seq![n / 10, n / 5, n / 2],
{
    let r = vec![n / 10, n / 5, n / 2];
    assert(r@ =~= seq![n / 10, n / 5, n / 2]);
    r
}

/// The codes of the words of `all`.
pub open spec fn all_codes(all: Seq<Word>) -> Set<u32> {
    Set::new(|c: u32| exists|i: int| 0 <= i < all.len() && c as int == code_of(all[i]@))
}

/// The codes of the first `k` words of `all`.
pub open spec fn codes_upto(all: Seq<Word>, k: int) -> Set<u32> {
    Set::new(|c: u32| exists|i: int| 0 <= i < k && c as int == code_of(all[i]@))
}

/// Chunk `c` when `order` is cut into consecutive pieces of `size`: the
/// words at positions `c * size` up to `(c + 1) * size` (or the end).
pub open spec fn chunk_at(all: Seq<Word>, order: Seq<usize>, size: int, c: int) -> Seq<Word> {
    let start = c * size;
    let len = if order.len() - start < size { order.len() - start } else { size };
    Seq::new(len as nat, |j: int| all[order[start + j] as int])
}

/// The codes in the first `c` lists.
pub open spec fn union_upto(lists: Seq<Seq<u32>>, c: int) -> Set<u32>
    decreases c,
{
    if c <= 0 {
        Set::empty()
    } else {
        union_upto(lists, c - 1).union(lists[c - 1].to_set())
    }
}

/// One narrowing round from shortlist `s` to `t`: with size 0 nothing
/// changes; otherwise `order` is cut into consecutive chunks of `size`, each
/// chunk keeps the codes of its best `keep` guesses among `s`, and `t` is
/// the union of what the chunks keep.
pub open spec fn round_step(
    all: Seq<Word>,
    order: Seq<usize>,
    size: usize,
    keep: usize,
    s: Set<u32>,
    t: Set<u32>,
) -> bool {
    if size == 0 {
        t == s
    } else {
        exists|lists: Seq<Seq<u32>>| round_lists(all, order, size, keep, s, t, lists)
    }
}

/// `lists` holds what each chunk of a round of `size` keeps, and `t` is
/// their union.
pub open spec fn round_lists(
    all: Seq<Word>,
    order: Seq<usize>,
    size: usize,
    keep: usize,
    s: Set<u32>,
    t: Set<u32>,
    lists: Seq<Seq<u32>>,
) -> bool {
    &&& lists.len() * size >= order.len()
    &&& forall|c: int|
        0 <= c < lists.len() ==> c * size < order.len() && shortlist_of(
            chunk_at(all, order, size as int, c),
            s,
            keep,
            #[trigger] lists[c],
        )
    &&& t == union_upto(lists, lists.len() as int)
}

/// `h` is the sequence of shortlists: all codes first, then one more after
/// each round of `sizes`.
pub open spec fn rounds_history(
    all: Seq<Word>,
    order: Seq<usize>,
    sizes: Seq<usize>,
    keep: usize,
    h: Seq<Set<u32>>,
) -> bool {
    &&& h.len() == sizes.len() + 1
    &&& h[0] == all_codes(all)
    &&& forall|r: int| 0 <= r < sizes.len() ==> #[trigger] round_step(all, order, sizes[r], keep, h[r], h[r + 1])
}

proof fn lemma_union_contains(lists: Seq<Seq<u32>>, m: int, c: int, k: int)
    requires
        0 <= c < m <= lists.len(),
        0 <= k < lists[c].len(),
    ensures
        union_upto(lists, m).contains(lists[c][k]),
    decreases m,
{
    if c < m - 1 {
        lemma_union_contains(lists, m - 1, c, k);
    } else {
        assert(lists[c].contains(lists[c][k]));
    }
}

proof fn lemma_union_member(lists: Seq<Seq<u32>>, m: int, d: u32)
    requires
        0 <= m <= lists.len(),
        union_upto(lists, m).contains(d),
    ensures
        exists|c: int, k: int| 0 <= c < m && 0 <= k < lists[c].len() && #[trigger] lists[c][k] == d,
    decreases m,
{
    if m > 0 {
        if union_upto(lists, m - 1).contains(d) {
            lemma_union_member(lists, m - 1, d);
        } else {
            let last = lists[m - 1];
            assert(last.contains(d));
            let k = choose|k: int| 0 <= k < last.len() && #[trigger] last[k] == d;
            assert(lists[m - 1][k] == d);
        }
    }
}

/// Each round keeps only codes of its starting shortlist.
pub proof fn lemma_round_shrinks(all: Seq<Word>, order: Seq<usize>, size: usize, keep: usize, s: Set<u32>, t: Set<u32>)
    requires
        round_step(all, order, size, keep, s, t),
    ensures
        t.subset_of(s),
{
    if size != 0 {
        let lists = choose|lists: Seq<Seq<u32>>| round_lists(all, order, size, keep, s, t, lists);
        assert forall|d: u32| t.contains(d) implies s.contains(d) by {
            lemma_union_member(lists, lists.len() as int, d);
            let (c, k) = choose|c: int, k: int| 0 <= c < lists.len() && 0 <= k < lists[c].len() && #[trigger] lists[c][k] == d;
            let chunk = chunk_at(all, order, size as int, c);
            assert(shortlist_of(chunk, s, keep, lists[c]));
            let ranking = choose|ranking: Seq<(u64, usize)>|
                {
                    &&& is_ranking(letters(chunk), s, ranking)
                    &&& lists[c].len() == if ranking.len() < keep { ranking.len() as int } else { keep as int }
                    &&& forall|q: int|
                        0 <= q < lists[c].len() ==> #[trigger] lists[c][q] as int == code_of(chunk[ranking[q].1 as int]@)
                };
            assert(lists[c][k] as int == code_of(chunk[ranking[k].1 as int]@));
            assert(ranking[k].1 < letters(chunk).len());
            assert(letters(chunk)[ranking[k].1 as int] == chunk[ranking[k].1 as int]@);
        }
    }
}

/// Along the rounds, every shortlist is a subset of the one before it.
pub proof fn lemma_history_shrinks(all: Seq<Word>, order: Seq<usize>, sizes: Seq<usize>, keep: usize, h: Seq<Set<u32>>, r: int)
    requires
        rounds_history(all, order, sizes, keep, h),
        0 <= r < sizes.len(),
    ensures
        h[r + 1].subset_of(h[r]),
{
    assert(round_step(all, order, sizes[r], keep, h[r], h[r + 1]));
    lemma_round_shrinks(all, order, sizes[r], keep, h[r], h[r + 1]);
}

/// A round keeps at least one code when a word of the vocabulary has its
/// code in the shortlist and each chunk keeps at least one guess.
proof fn lemma_round_keeps_some(
    all: Seq<Word>,
    order: Seq<usize>,
    size: usize,
    keep: usize,
    s: Set<u32>,
    t: Set<u32>,
    i: int,
)
    requires
        all.len() <= MAX_WORDS,
        order.len() == all.len(),
        forall|q: usize| q < all.len() ==> #[trigger] order.contains(q),
        forall|j: int| 0 <= j < order.len() ==> #[trigger] order[j] < all.len(),
        size > 0,
        keep > 0,
        round_step(all, order, size, keep, s, t),
        0 <= i < all.len(),
        s.contains(code_of(all[i]@) as u32),
    ensures
        exists|d: u32| t.contains(d),
{
    let n = all.len() as int;
    let sz = size as int;
    assert(order.contains(i as usize));
    let p = choose|p: int| 0 <= p < order.len() && #[trigger] order[p] == i as usize;
    let lists = choose|lists: Seq<Seq<u32>>| round_lists(all, order, size, keep, s, t, lists);
    lemma_fundamental_div_mod(p, sz);
    lemma_mod_pos_bound(p, sz);
    let c = p / sz;
    let j = p % sz;
    assert(c * sz + j == p) by (nonlinear_arith)
        requires
            p == sz * c + j,
    ;
    assert(0 <= c) by (nonlinear_arith)
        requires
            p >= 0,
            sz > 0,
            c == p / sz,
    ;
    let big = lists.len() as int;
    if c >= big {
        assert(c * sz >= big * sz) by (nonlinear_arith)
            requires
                c >= big,
                sz > 0,
        ;
        assert(big * sz >= n);
        assert(false);
    }
    let chunk = chunk_at(all, order, sz, c);
    assert(c * size < order.len() && shortlist_of(chunk_at(all, order, size as int, c), s, keep, lists[c]));
    assert(shortlist_of(chunk, s, keep, lists[c]));
    assert(chunk.len() > j);
    assert(order[p] as int == i);
    assert(chunk[j] == all[order[c * sz + j] as int]);
    assert(chunk[j] == all[i]);
    let ranking = choose|ranking: Seq<(u64, usize)>|
        {
            &&& is_ranking(letters(chunk), s, ranking)
            &&& lists[c].len() == if ranking.len() < keep { ranking.len() as int } else { keep as int }
            &&& forall|q: int|
                0 <= q < lists[c].len() ==> #[trigger] lists[c][q] as int == code_of(chunk[ranking[q].1 as int]@)
        };
    assert(letters(chunk)[j] == all[i]@);
    assert(exists|q: int| 0 <= q < ranking.len() && ranking[q].1 == j);
    lemma_union_contains(lists, big, c, 0);
}

/// Runs the narrowing rounds over the vocabulary in the order `order`,
/// starting from every word's code, and returns the last shortlist.
pub fn narrow_rounds(
    all_words: &Vec<Word>,
    order: &Vec<usize>,
    chunk_sizes: &Vec<usize>,
    keep: usize,
    seed: u64,
) -> (r: HashSet<u32>)
    requires
        chunk_ok(all_words@),
        order.len() == all_words.len(),
        forall|j: int| 0 <= j < order.len() ==> #[trigger] order[j] < all_words.len(),
        forall|q: usize| q < all_words.len() ==> #[trigger] order@.contains(q),
    ensures
        exists|h: Seq<Set<u32>>| rounds_history(all_words@, order@, chunk_sizes@, keep, h) && r@ == h.last(),
        all_words.len() > 0 && keep > 0 ==> exists|d: u32| r@.contains(d),
        codes_of_vocabulary(all_words@, r@),
        (forall|i: int| 0 <= i < chunk_sizes.len() ==> #[trigger] chunk_sizes[i] == 0) ==> r@ == all_codes(all_words@),
{
    broadcast use vstd::std_specs::hash::group_hash_axioms;
    let n = all_words.len();
    let mut top_words: HashSet<u32> = HashSet::new();
    for i in 0..n
        invariant
            n == all_words.len(),
            all_wf(all_words@),
            top_words@ == codes_upto(all_words@, i as int),
    {
        let c = all_words[i].code();
        let ghost before = top_words@;
        top_words.insert(c);
        proof {
            assert forall|d: u32| #[trigger] top_words@.contains(d) == codes_upto(all_words@, i + 1).contains(d) by {
                if d == c {
                    assert(c as int == code_of(all_words[i as int]@));
                }
                if codes_upto(all_words@, i + 1).contains(d) && d != c {
                    let j = choose|j: int| 0 <= j < i + 1 && d as int == code_of(all_words[j]@);
                    if j == i as int {
                        assert(d as int == c as int);
                    }
                    assert(before.contains(d));
                }
            }
            assert(top_words@ =~= codes_upto(all_words@, i + 1));
        }
    }
    assert(top_words@ =~= all_codes(all_words@));
    if n > 0 {
        assert(top_words@.contains(code_of(all_words[0]@) as u32));
    }
    let ghost mut history: Seq<Set<u32>> = seq![top_words@];
    for round in 0..chunk_sizes.len()
        invariant
            n == all_words.len(),
            chunk_ok(all_words@),
            order.len() == n,
            forall|j: int| 0 <= j < order.len() ==> #[trigger] order[j] < n,
            history.len() == round + 1,
            history[0] == all_codes(all_words@),
            forall|r: int|
                0 <= r < round ==> #[trigger] round_step(
                    all_words@,
                    order@,
                    chunk_sizes@[r],
                    keep,
                    history[r],
                    history[r + 1],
                ),
            history.last() == top_words@,
            codes_of_vocabulary(all_words@, top_words@),
            forall|q: usize| q < all_words.len() ==> #[trigger] order@.contains(q),
            n > 0 && keep > 0 ==> exists|d: u32| top_words@.contains(d),
            (forall|i: int| 0 <= i < round ==> #[trigger] chunk_sizes@[i] == 0) ==> top_words@ == all_codes(all_words@),
    {
        let chunk_size = chunk_sizes[round];
        let ghost s0 = top_words@;
        if chunk_size > 0 {
            let mut chunks: Vec<Vec<Word>> = Vec::new();
            let mut start: usize = 0;
            assert(0 * chunk_size == 0) by (nonlinear_arith);
            while start < n
                invariant
                    n == all_words.len(),
                    chunk_ok(all_words@),
                    order.len() == n,
                    forall|j: int| 0 <= j < order.len() ==> #[trigger] order[j] < n,
                    chunk_size > 0,
                    top_words@ == s0,
                    start <= n,
                    start < n ==> start == chunks.len() * chunk_size,
                    start == n ==> chunks.len() * chunk_size >= n,
                    forall|c: int| 0 <= c < chunks.len() ==> chunk_ok(#[trigger] chunks[c]@),
                    forall|c: int| 0 <= c < chunks.len() ==> drawn_from(all_words@, #[trigger] chunks[c]@),
                    forall|c: int| 0 <= c < chunks.len() ==> #[trigger] (c * chunk_size) < n,
                    forall|c: int|
                        0 <= c < chunks.len() ==> #[trigger] chunks[c]@ == chunk_at(
                            all_words@,
                            order@,
                            chunk_size as int,
                            c,
                        ),
                decreases n - start,
            {
                let end = if n - start < chunk_size { n } else { start + chunk_size };
                let mut chunk: Vec<Word> = Vec::new();
                for k in start..end
                    invariant
                        n == all_words.len(),
                        chunk_ok(all_words@),
                        order.len() == n,
                        forall|j: int| 0 <= j < order.len() ==> #[trigger] order[j] < n,
                        end <= n,
                        start <= k,
                        chunk.len() == k - start,
                        all_wf(chunk@),
                        drawn_from(all_words@, chunk@),
                        forall|j: int| 0 <= j < chunk.len() ==> #[trigger] chunk@[j] == all_words[order[start + j] as int],
                {
                    let ghost before = chunk@;
                    chunk.push(all_words[order[k]]);
                    proof {
                        assert forall|j: int| 0 <= j < chunk.len() implies exists|i: int|
                            0 <= i < all_words.len() && #[trigger] chunk@[j] == all_words[i] by {
                            if j < before.len() {
                                assert(chunk@[j] == before[j]);
                            } else {
                                assert(chunk@[j] == all_words[order[k as int] as int]);
                            }
                        }
                    }
                }
                proof {
                    assert(chunk.len() <= n);
                    assert(chunk.len() * chunk.len() <= n * n) by (nonlinear_arith)
                        requires
                            chunk.len() <= n,
                    ;
                    assert(chunk@ =~= chunk_at(all_words@, order@, chunk_size as int, chunks.len() as int));
                    assert((chunks.len() + 1) * chunk_size == chunks.len() * chunk_size + chunk_size) by (nonlinear_arith);
                }
                let ghost before_chunks = chunks@;
                let ghost chunk_v = chunk@;
                let ghost c_new = chunks.len() as int;
                chunks.push(chunk);
                proof {
                    assert(c_new * chunk_size == start);
                    assert forall|c: int| 0 <= c < chunks.len() implies #[trigger] (c * chunk_size) < n && chunks[c]@
                        == chunk_at(all_words@, order@, chunk_size as int, c) by {
                        if c < before_chunks.len() {
                            assert(chunks[c] == before_chunks[c]);
                            assert(before_chunks[c]@ == chunk_at(all_words@, order@, chunk_size as int, c));
                            assert(c * chunk_size < n);
                        } else {
                            assert(c == c_new);
                            assert(chunks[c]@ == chunk_v);
                            assert(chunk_v == chunk_at(all_words@, order@, chunk_size as int, c_new));
                            assert(c * chunk_size < n);
                        }
                    }
                }
                start = end;
            }
            let ghost parts = chunks@;
            let shortlists = shortlists_in_parallel(chunks, &top_words, keep, seed);
            let ghost lists = Seq::new(shortlists.len() as nat, |c: int| shortlists[c]@);
            let mut next: HashSet<u32> = HashSet::new();
            for c in 0..shortlists.len()
                invariant
                    shortlists.len() == parts.len(),
                    lists == Seq::new(shortlists.len() as nat, |c: int| shortlists[c]@),
                    forall|i: int| 0 <= i < parts.len() ==> chunk_ok(#[trigger] parts[i]@),
                    forall|i: int| 0 <= i < parts.len() ==> drawn_from(all_words@, #[trigger] parts[i]@),
                    forall|i: int|
                        0 <= i < shortlists.len() ==> shortlist_of(parts[i]@, top_words@, keep, #[trigger] shortlists[i]@),
                    codes_of_vocabulary(all_words@, next@),
                    next@ == union_upto(lists, c as int),
            {
                let list = &shortlists[c];
                let ghost chunk = parts[c as int]@;
                proof {
                    assert(shortlist_of(chunk, top_words@, keep, list@));
                    assert(drawn_from(all_words@, chunk));
                }
                for k in 0..list.len()
                    invariant
                        list == &shortlists[c as int],
                        lists[c as int] == list@,
                        shortlist_of(chunk, top_words@, keep, list@),
                        drawn_from(all_words@, chunk),
                        codes_of_vocabulary(all_words@, next@),
                        next@ == union_upto(lists, c as int).union(list@.take(k as int).to_set()),
                {
                    let code = list[k];
                    let ghost before = next@;
                    next.insert(code);
                    proof {
                        let ranking = choose|ranking: Seq<(u64, usize)>|
                            {
                                &&& is_ranking(letters(chunk), top_words@, ranking)
                                &&& list@.len() == if ranking.len() < keep { ranking.len() as int } else { keep as int }
                                &&& forall|i: int|
                                    0 <= i < list@.len() ==> #[trigger] list@[i] as int == code_of(chunk[ranking[i].1 as int]@)
                            };
                        assert(list@[k as int] as int == code_of(chunk[ranking[k as int].1 as int]@));
                        assert(ranking[k as int].1 < letters(chunk).len());
                        let j = ranking[k as int].1 as int;
                        let i = choose|i: int| 0 <= i < all_words.len() && #[trigger] chunk[j] == all_words[i];
                        assert forall|d: u32| #[trigger] next@.contains(d) implies exists|m: int|
                            0 <= m < all_words.len() && d as int == code_of(all_words[m]@) by {
                            if d != code {
                                assert(before.contains(d));
                            } else {
                                assert(code as int == code_of(all_words[i]@));
                            }
                        }
                        let t0 = list@.take(k as int);
                        let t1 = list@.take(k + 1);
                        assert forall|d: u32| #[trigger] t1.contains(d) == (t0.contains(d) || d == code) by {
                            if t0.contains(d) {
                                let q = choose|q: int| 0 <= q < t0.len() && t0[q] == d;
                                assert(t1[q] == d);
                            }
                            if d == code {
                                assert(t1[k as int] == d);
                            }
                            if t1.contains(d) {
                                let q = choose|q: int| 0 <= q < t1.len() && t1[q] == d;
                                if q < k {
                                    assert(t0[q] == d);
                                }
                            }
                        }
                        assert(next@ =~= union_upto(lists, c as int).union(t1.to_set()));
                    }
                }
                proof {
                    assert(list@.take(list.len() as int) =~= list@);
                    assert(next@ =~= union_upto(lists, c + 1));
                }
            }
            proof {
                assert forall|c: int| 0 <= c < lists.len() implies c * chunk_size < order.len() && shortlist_of(
                    chunk_at(all_words@, order@, chunk_size as int, c),
                    s0,
                    keep,
                    #[trigger] lists[c],
                ) by {
                    assert(parts[c]@ == chunk_at(all_words@, order@, chunk_size as int, c));
                }
                assert(lists.len() == parts.len());
                assert forall|c: int| 0 <= c < lists.len() implies #[trigger] lists[c] == shortlists[c]@ by {}
                assert(lists.len() * chunk_size >= order.len());
                assert(next@ == union_upto(lists, lists.len() as int));
                assert(round_lists(all_words@, order@, chunk_size, keep, s0, next@, lists));
                assert(round_step(all_words@, order@, chunk_size, keep, s0, next@));
                if n > 0 && keep > 0 {
                    let d = choose|d: u32| s0.contains(d);
                    let i = choose|i: int| 0 <= i < all_words.len() && d as int == code_of(all_words[i]@);
                    lemma_round_keeps_some(all_words@, order@, chunk_size, keep, s0, next@, i);
                }
            }
            top_words = next;
        }
        proof {
            history = history.push(top_words@);
            assert forall|r: int|
                0 <= r < round + 1 implies #[trigger] round_step(
                all_words@,
                order@,
                chunk_sizes@[r],
                keep,
                history[r],
                history[r + 1],
            ) by {}
        }
    }
    top_words
}

impl FastSolver {
    /// Shortlists first guesses over rounds of random chunks (sizes from
    /// `chunk_sizes`, a round of size 0 is skipped; each chunk keeps its
    /// best `keep`), then ranks the shortlist exactly over the whole
    /// vocabulary. The chunking follows a shuffle of the indices seeded
    /// with `seed`.
    pub fn anneal(all_words: Vec<Word>, chunk_sizes: &Vec<usize>, keep: usize, seed: u64) -> (r: Vec<(u64, usize)>)
        requires
            chunk_ok(all_words@),
        ensures
            r.len() <= all_words.len(),
            all_words.len() > 0 && keep > 0 ==> r.len() > 0,
            exists|order: Seq<usize>, h: Seq<Set<u32>>|
                {
                    &&& order.to_multiset() == all_indices(all_words.len() as nat).to_multiset()
                    &&& rounds_history(all_words@, order, chunk_sizes@, keep, h)
                    &&& codes_of_vocabulary(all_words@, h.last())
                    &&& is_ranking(letters(all_words@), h.last(), r@)
                },
            (forall|i: int| 0 <= i < chunk_sizes.len() ==> #[trigger] chunk_sizes[i] == 0) ==> is_ranking(
                letters(all_words@),
                all_codes(all_words@),
                r@,
            ),
    {
        let n = all_words.len();
        let mut order: Vec<usize> = Vec::new();
        for i in 0..n
            invariant
                order@ == all_indices(i as nat),
        {
            order.push(i);
            assert(order@ =~= all_indices((i + 1) as nat));
        }
        let mut rng = seeded_rng(seed);
        let ghost before = order@;
        shuffle_indices(&mut order, &mut rng);
        proof {
            order@.to_multiset_ensures();
            before.to_multiset_ensures();
            assert forall|j: int| 0 <= j < order.len() implies #[trigger] order[j] < n by {
                assert(order@.contains(order[j]));
                assert(order@.to_multiset().count(order[j]) > 0);
                assert(before.to_multiset().count(order[j]) > 0);
                assert(before.contains(order[j]));
            }
            assert forall|q: usize| q < n implies #[trigger] order@.contains(q) by {
                assert(before[q as int] == q);
                assert(before.contains(q));
                assert(before.to_multiset().count(q) > 0);
                assert(order@.to_multiset().count(q) > 0);
            }
        }
        let top_words = narrow_rounds(&all_words, &order, chunk_sizes, keep, seed);
        let ghost words = all_words@;
        let mut final_solver = FastSolver::new(all_words, seed, true);
        let r = final_solver.evaluate_guesses(&top_words);
        proof {
            if n > 0 && keep > 0 {
                let d = choose|d: u32| top_words@.contains(d);
                let i = choose|i: int| 0 <= i < words.len() && d as int == code_of(words[i]@);
                assert(letters(words)[i] == words[i]@);
                assert(exists|q: int| 0 <= q < r.len() && r@[q].1 == i);
            }
        }
        r
    }
}

/// Every guess that the narrowing ranks is a word of the vocabulary, and
/// its score equals the expected cost that a fresh solver over the whole
/// vocabulary computes for it.
pub proof fn lemma_narrowed_scores_exact(all_words: Seq<Word>, r: Seq<(u64, usize)>, fresh: FastSolver, i: int)
    requires
        exists|shortlist: Set<u32>| is_ranking(letters(all_words), shortlist, r),
        fresh.vocab() == letters(all_words),
        fresh.len() == all_words.len(),
        0 <= i < r.len(),
    ensures
        r[i].1 < all_words.len(),
        r[i].0 as int == guess_cost(fresh.vocab(), all_indices(fresh.len()), r[i].1),
{
    let shortlist = choose|shortlist: Set<u32>| is_ranking(letters(all_words), shortlist, r);
    assert(r[i].1 < letters(all_words).len());
}

} // verus!
