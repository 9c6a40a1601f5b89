//! The dense validity cube: one consistency bit for every (guess, answer,
//! candidate) triple of a vocabulary.
use vstd::prelude::*;
use vstd::arithmetic::div_mod::lemma_fundamental_div_mod_converse;
use crate::word::{Word, consistent, lemma_answer_survives};
use crate::patterns::{PatternTable, all_wf, lemma_pattern_decides};
use crate::solver::FastSolver;
use rayon::prelude::{IntoParallelIterator, ParallelIterator};

verus! {

/// Position in the cube of the bit for guess `g`, answer `a` and
/// candidate `w`.
pub open spec fn cube_index(n: int, g: int, a: int, w: int) -> int {
    (g * n + a) * n + w
}

/// The bit stored at position `i` of the cube of `words`.
pub open spec fn cube_cell(words: Seq<Word>, i: int) -> bool {
    let n = words.len() as int;
    consistent(words[i % n]@, words[(i / n) / n]@, words[(i / n) % n]@)
}

/// `v` is the cube of `words`.
pub open spec fn is_cube(words: Seq<Word>, v: Seq<bool>) -> bool {
    let n = words.len() as int;
    &&& v.len() == n * n * n
    &&& forall|g: int, a: int, w: int|
        0 <= g < n && 0 <= a < n && 0 <= w < n ==> #[trigger] v[cube_index(n, g, a, w)]
            == consistent(words[w]@, words[g]@, words[a]@)
}

proof fn lemma_decode(n: int, g: int, a: int, w: int)
    requires
        0 <= g < n,
        0 <= a < n,
        0 <= w < n,
    ensures
        cube_index(n, g, a, w) % n == w,
        (cube_index(n, g, a, w) / n) % n == a,
        (cube_index(n, g, a, w) / n) / n == g,
{
    lemma_fundamental_div_mod_converse(cube_index(n, g, a, w), n, g * n + a, w);
    lemma_fundamental_div_mod_converse(g * n + a, n, g, a);
}

/// One row of the cube: for guess `row / n` and answer `row % n`, the
/// consistency bit of every candidate.
pub fn cube_row(words: &Vec<Word>, row: usize) -> (r: Vec<bool>)
    requires
        all_wf(words@),
        row < words.len() * words.len(),
    ensures
        r.len() == words.len(),
        forall|w: int|
            0 <= w < words.len() ==> #[trigger] r[w] == consistent(
                words[w]@,
                words[row as int / words.len() as int]@,
                words[row as int % words.len() as int]@,
            ),
{
    let n = words.len();
    proof {
        assert(n > 0) by (nonlinear_arith)
            requires
                row < n * n,
        ;
        assert(row / n < n) by (nonlinear_arith)
            requires
                row < n * n,
                n > 0,
        ;
    }
    let g = row / n;
    let a = row % n;
    let mut r: Vec<bool> = Vec::new();
    for w in 0..n
        invariant
            n == words.len(),
            all_wf(words@),
            g < n,
            a < n,
            g == row / n,
            a == row % n,
            r.len() == w,
            forall|u: int| 0 <= u < w ==> #[trigger] r[u] == consistent(words[u]@, words[g as int]@, words[a as int]@),
    {
        r.push(words[w].is_valid(&words[g], &words[a]));
    }
    r
}

/// Relies on rayon's `into_par_iter().map(..).collect()` on the range
/// `0..rows`: runs `cube_row` on every row in parallel and collects the
/// rows in order.
#[verifier::external_body]
fn cube_rows_in_parallel(words: &Vec<Word>, rows: usize) -> (r: Vec<Vec<bool>>)
    requires
        all_wf(words@),
        rows == words.len() * words.len(),
    ensures
        r.len() == rows,
        forall|k: int|
            0 <= k < rows ==> (#[trigger] r[k]).len() == words.len() && forall|w: int|
                0 <= w < words.len() ==> #[trigger] r[k][w] == consistent(
                    words[w]@,
                    words[k / words.len() as int]@,
                    words[k % words.len() as int]@,
                ),
{
    (0..rows).into_par_iter().map(|k| cube_row(words, k)).collect()
}

impl FastSolver {
    /// Builds the dense cube of `all_words`, its rows in parallel.
    pub fn get_valid_cache(all_words: &Vec<Word>) -> (v: Vec<bool>)
        requires
            all_wf(all_words@),
            all_words.len() * all_words.len() * all_words.len() < usize::MAX,
        ensures
            is_cube(all_words@, v@),
    {
        let n = all_words.len();
        let ghost ni = n as int;
        proof {
            assert(n * n <= n * n * n) by (nonlinear_arith);
        }
        let rows = cube_rows_in_parallel(all_words, n * n);
        let mut v: Vec<bool> = Vec::new();
        assert(0 * n == 0) by (nonlinear_arith);
        for row in 0..n * n
            invariant
                n == all_words.len(),
                ni == n as int,
                n * n * n < usize::MAX,
                all_wf(all_words@),
                rows.len() == n * n,
                forall|k: int|
                    0 <= k < n * n ==> (#[trigger] rows[k]).len() == n && forall|w: int|
                        0 <= w < n ==> #[trigger] rows[k][w] == consistent(
                            all_words[w]@,
                            all_words[k / ni]@,
                            all_words[k % ni]@,
                        ),
                v.len() == row * n,
                forall|i: int| 0 <= i < v.len() ==> #[trigger] v[i] == cube_cell(all_words@, i),
        {
            let line = &rows[row];
            proof {
                assert(row * n + n <= n * n * n) by (nonlinear_arith)
                    requires
                        row < n * n,
                ;
            }
            for w in 0..n
                invariant
                    n == all_words.len(),
                    ni == n as int,
                    row < n * n,
                    row * n + n <= n * n * n,
                    n * n * n < usize::MAX,
                    line.len() == n,
                    forall|u: int|
                        0 <= u < n ==> #[trigger] line[u] == consistent(
                            all_words[u]@,
                            all_words[row as int / ni]@,
                            all_words[row as int % ni]@,
                        ),
                    v.len() == row * n + w,
                    forall|i: int| 0 <= i < v.len() ==> #[trigger] v[i] == cube_cell(all_words@, i),
            {
                proof {
                    lemma_fundamental_div_mod_converse(row * n + w, ni, row as int, w as int);
                }
                let ghost at = v.len() as int;
                v.push(line[w]);
                proof {
                    assert(v[at] == cube_cell(all_words@, at));
                }
            }
            proof {
                assert((row + 1) * n == row * n + n) by (nonlinear_arith);
            }
        }
        proof {
            assert forall|g: int, a: int, w: int|
                0 <= g < ni && 0 <= a < ni && 0 <= w < ni implies #[trigger] v[cube_index(ni, g, a, w)]
                    == consistent(all_words[w]@, all_words[g]@, all_words[a]@) by {
                lemma_decode(ni, g, a, w);
                assert(cube_index(ni, g, a, w) < ni * ni * ni) by (nonlinear_arith)
                    requires
                        0 <= g < ni,
                        0 <= a < ni,
                        0 <= w < ni,
                ;
                assert(0 <= cube_index(ni, g, a, w)) by (nonlinear_arith)
                    requires
                        0 <= g < ni,
                        0 <= a < ni,
                        0 <= w < ni,
                ;
            }
        }
        v
    }
}

/// The dense cube and the pattern table of one vocabulary give the same
/// bit for every (guess, answer, candidate) triple.
pub proof fn lemma_cube_agrees_with_patterns(v: Seq<bool>, t: PatternTable, g: int, a: int, w: int)
    requires
        t.wf(),
        is_cube(t.words@, v),
        0 <= g < t.words.len(),
        0 <= a < t.words.len(),
        0 <= w < t.words.len(),
    ensures
        v[cube_index(t.words.len() as int, g, a, w)] == t.word_pattern_valid[w][t.ans_guess_pattern[a][g] as int],
{
    let p = t.ans_guess_pattern[a][g] as int;
    lemma_pattern_decides(t.patterns[p], t.words[w], t.words[a], t.words[g]);
}

/// In both tables, the secret word stays possible after any guess played
/// against it.
pub proof fn lemma_answer_stays_valid(v: Seq<bool>, t: PatternTable, g: int, a: int)
    requires
        t.wf(),
        is_cube(t.words@, v),
        0 <= g < t.words.len(),
        0 <= a < t.words.len(),
    ensures
        v[cube_index(t.words.len() as int, g, a, a)],
        t.word_pattern_valid[a][t.ans_guess_pattern[a][g] as int],
{
    lemma_answer_survives(t.words[g]@, t.words[a]@);
    lemma_cube_agrees_with_patterns(v, t, g, a, a);
}

} // verus!
