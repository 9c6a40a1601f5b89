use std::collections::HashSet;
use wordle_solver::word::Word;
use wordle_solver::patterns::{build_patterns, get_letter_to_word_idx_lookup};
use wordle_solver::solver::{FastSolver, SCALE};
use wordle_solver::narrowing::{chunk_shortlist, default_chunk_sizes, SHORTLIST_KEEP};

fn words(list: &[&str]) -> Vec<Word> {
    list.iter().map(|s| Word::new(s).unwrap()).collect()
}

const SAMPLE: [&str; 16] = [
    "trace", "crate", "react", "cater", "caret", "plumb", "dingy", "stuck", "pluck", "truck",
    "brick", "crane", "slate", "stale", "least", "steal",
];

#[test]
fn single_word_costs_one_guess() {
    let mut s = FastSolver::new(words(&["trace"]), 1, true);
    assert_eq!(s.evaluate_one_guess(0), SCALE);
}

#[test]
fn one_survivor_adds_one_guess() {
    let mut s = FastSolver::new(words(&["abcde", "fghij"]), 1, true);
    // right away: 1 guess; otherwise 1 + 1
    assert_eq!(s.evaluate_one_guess(0), 3 * SCALE / 2);
    assert_eq!(s.evaluate_one_guess(1), 3 * SCALE / 2);
}

#[test]
fn two_survivors_add_two_and_a_half() {
    let mut s = FastSolver::new(words(&["abcde", "fghij", "klmno"]), 1, true);
    // (1 + 3.5 + 3.5) / 3
    assert_eq!(s.evaluate_one_guess(0), 8 * SCALE / 3);
}

#[test]
fn three_survivors_recurse() {
    let mut s = FastSolver::new(words(&["abcde", "fghij", "klmno", "pqrst"]), 1, true);
    // the three others stay: each costs 1 + 8/3 on top of the first guess
    let inner = 8 * SCALE / 3;
    assert_eq!(s.evaluate_one_guess(0), (SCALE + 3 * (SCALE + inner)) / 4);
}

#[test]
fn answer_survives_its_own_feedback() {
    let t = build_patterns(words(&SAMPLE));
    for g in 0..SAMPLE.len() {
        for a in 0..SAMPLE.len() {
            assert!(t.is_valid(a, g, a));
        }
    }
}

#[test]
fn dense_cube_matches_pattern_table() {
    let v = words(&SAMPLE);
    let cube = FastSolver::get_valid_cache(&v);
    let t = build_patterns(v.clone());
    let n = v.len();
    assert_eq!(cube.len(), n * n * n);
    for g in 0..n {
        for a in 0..n {
            for w in 0..n {
                let direct = v[w].is_valid(&v[g], &v[a]);
                assert_eq!(cube[(g * n + a) * n + w], direct);
                assert_eq!(t.is_valid(w, g, a), direct);
            }
        }
    }
}

#[test]
fn letter_lookup_lists_words_in_order() {
    let v = words(&["abcde", "bcdef", "aaaaa", "zzzzz"]);
    let l = get_letter_to_word_idx_lookup(&v);
    assert_eq!(l.len(), 26);
    assert_eq!(l[0], vec![0, 2]);
    assert_eq!(l[1], vec![0, 1]);
    assert_eq!(l[5], vec![1]);
    assert_eq!(l[25], vec![3]);
    assert!(l[24].is_empty());
}

#[test]
fn repeated_runs_agree() {
    let mut a = FastSolver::new(words(&SAMPLE), 7, true);
    let mut b = FastSolver::new(words(&SAMPLE), 99, true);
    for g in 0..SAMPLE.len() {
        let x = a.evaluate_one_guess(g);
        assert_eq!(x, a.evaluate_one_guess(g));
        assert_eq!(x, b.evaluate_one_guess(g));
    }
}

#[test]
fn cache_does_not_change_results() {
    let mut cached = FastSolver::new(words(&SAMPLE), 3, true);
    let mut plain = FastSolver::new(words(&SAMPLE), 3, false);
    for g in 0..SAMPLE.len() {
        assert_eq!(cached.evaluate_one_guess(g), plain.evaluate_one_guess(g));
    }
}

#[test]
fn ranking_is_sorted_and_complete() {
    let v = words(&SAMPLE);
    let mut s = FastSolver::new(v.clone(), 5, true);
    let mut guesses = HashSet::new();
    for i in [0usize, 3, 5, 9, 12] {
        guesses.insert(v[i].code());
    }
    let r = s.evaluate_guesses(&guesses);
    assert_eq!(r.len(), 5);
    let mut seen: Vec<usize> = r.iter().map(|e| e.1).collect();
    seen.sort();
    assert_eq!(seen, vec![0, 3, 5, 9, 12]);
    for k in 1..r.len() {
        assert!(r[k - 1].0 <= r[k].0);
    }
    for e in &r {
        assert_eq!(e.0, s.evaluate_one_guess(e.1));
    }
}

#[test]
fn chunk_keeps_best_guesses() {
    let v = words(&SAMPLE);
    let all: HashSet<u32> = v.iter().map(|w| w.code()).collect();
    let kept = chunk_shortlist(v.clone(), &all, 4, 11);
    assert_eq!(kept.len(), 4);
    let mut s = FastSolver::new(v.clone(), 11, true);
    let r = s.evaluate_guesses(&all);
    for i in 0..4 {
        assert_eq!(kept[i], v[r[i].1].code());
    }
}

#[test]
fn narrowing_scores_match_fresh_solver() {
    let v = words(&SAMPLE);
    let sizes = vec![4, 8];
    let r = FastSolver::anneal(v.clone(), &sizes, 3, 42);
    assert!(!r.is_empty());
    let mut fresh = FastSolver::new(v.clone(), 0, false);
    for k in 0..r.len() {
        assert!(r[k].1 < v.len());
        assert_eq!(r[k].0, fresh.evaluate_one_guess(r[k].1));
        if k > 0 {
            assert!(r[k - 1].0 <= r[k].0);
        }
    }
}

#[test]
fn narrowing_without_rounds_ranks_everything() {
    let v = words(&SAMPLE);
    let r = FastSolver::anneal(v.clone(), &vec![], SHORTLIST_KEEP, 1);
    assert_eq!(r.len(), v.len());
}

#[test]
fn default_rounds() {
    assert_eq!(default_chunk_sizes(2000), vec![200, 400, 1000]);
    assert_eq!(default_chunk_sizes(9), vec![0, 1, 4]);
}

#[test]
fn cube_rows_follow_guess_then_answer() {
    let v = words(&["trace", "crate", "plumb"]);
    // row 1 * 3 + 2: guess "crate", answer "plumb"
    let row = wordle_solver::cube::cube_row(&v, 5);
    assert_eq!(row, vec![false, false, true]);
    let cube = FastSolver::get_valid_cache(&v);
    assert_eq!(&cube[15..18], &row[..]);
}

#[test]
fn two_left_after_every_miss() {
    let mut s = FastSolver::new(words(&["plumb", "fight", "night"]), 1, true);
    assert_eq!(s.evaluate_one_guess(0), 8 * SCALE / 3);
}

#[test]
fn interned_patterns_are_distinct() {
    let t = build_patterns(words(&SAMPLE));
    for p in 0..t.patterns.len() {
        for q in 0..t.patterns.len() {
            if p != q {
                assert!(!t.patterns[p].same_as(&t.patterns[q]));
            }
        }
    }
    let n = SAMPLE.len();
    for a1 in 0..n {
        for g1 in 0..n {
            for a2 in 0..n {
                for g2 in 0..n {
                    let v = words(&SAMPLE);
                    let same = wordle_solver::patterns::Pattern::new(&v[a1], &v[g1])
                        .same_as(&wordle_solver::patterns::Pattern::new(&v[a2], &v[g2]));
                    assert_eq!(same, t.ans_guess_pattern[a1][g1] == t.ans_guess_pattern[a2][g2]);
                }
            }
        }
    }
}

#[test]
fn rounds_shrink_and_stay_in_vocabulary() {
    let v = words(&SAMPLE);
    let all: HashSet<u32> = v.iter().map(|w| w.code()).collect();
    let order: Vec<usize> = (0..v.len()).rev().collect();
    let none = wordle_solver::narrowing::narrow_rounds(&v, &order, &vec![0, 0], 3, 5);
    assert_eq!(none, all);
    let one = wordle_solver::narrowing::narrow_rounds(&v, &order, &vec![4], 3, 5);
    assert!(!one.is_empty());
    assert!(one.len() <= 12);
    assert!(one.is_subset(&all));
    // each chunk of four keeps its best three
    let mut expected: HashSet<u32> = HashSet::new();
    for c in 0..4 {
        let chunk: Vec<Word> = order[c * 4..c * 4 + 4].iter().map(|&i| v[i]).collect();
        for code in chunk_shortlist(chunk, &all, 3, 5) {
            expected.insert(code);
        }
    }
    assert_eq!(one, expected);
    let two = wordle_solver::narrowing::narrow_rounds(&v, &order, &vec![4, 8], 3, 5);
    assert!(two.is_subset(&one));
    assert!(!two.is_empty());
}

#[test]
fn narrowing_never_returns_nothing() {
    let v = words(&SAMPLE);
    for seed in 0..4u64 {
        let r = FastSolver::anneal(v.clone(), &vec![2, 5, 8], 1, seed);
        assert!(!r.is_empty());
        assert!(r.len() <= v.len());
    }
}
