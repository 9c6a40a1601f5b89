use wordle_solver::word::{Word, WordError};
use wordle_solver::patterns::Pattern;

fn w(s: &str) -> Word {
    Word::new(s).unwrap()
}

#[test]
fn test_is_valid() {
    let guess = w("stuck");
    let word = w("pluck");

    assert!(word.is_valid(&w("xzuck"), &guess));
    assert!(!word.is_valid(&w("truck"), &guess));
}

#[test]
fn test_word() {
    let w1 = w("aaabc");
    let w2 = w("aabyz");
    let mut common = w1.unique_bytes & w2.unique_bytes;
    assert_eq!(common, 0b11);
    let mut v_green = vec![];
    while common != 0 {
        let j = common.trailing_zeros() as usize;
        let green = w1.positions[j] & w2.positions[j];
        v_green.push(green);
        common -= 1 << j;
    }
    assert_eq!(v_green, vec![0b11, 0b0]);
}

#[test]
fn malformed_words_are_rejected() {
    assert_eq!(Word::new("abc").unwrap_err(), WordError::Malformed);
    assert_eq!(Word::new("abcdef").unwrap_err(), WordError::Malformed);
    assert_eq!(Word::new("ABCDE").unwrap_err(), WordError::Malformed);
    assert_eq!(Word::new("ab1de").unwrap_err(), WordError::Malformed);
    assert!(Word::new("zebra").is_ok());
}

#[test]
fn encoding_fills_masks_and_counts() {
    let x = w("aabce");
    assert_eq!(x.bytes, [0, 0, 1, 2, 4]);
    assert_eq!(x.positions[0], 0b00011);
    assert_eq!(x.positions[1], 0b00100);
    assert_eq!(x.positions[2], 0b01000);
    assert_eq!(x.positions[3], 0);
    assert_eq!(x.positions[4], 0b10000);
    assert_eq!(x.unique_bytes, 0b10111);
    assert_eq!(x.counts[0], 2);
    assert!(x.contains(4));
    assert!(!x.contains(3));
}

#[test]
fn word_codes() {
    assert_eq!(w("aaaaa").code(), 0);
    assert_eq!(w("baaaa").code(), 1);
    assert_eq!(w("abaaa").code(), 32);
    assert_ne!(w("trace").code(), w("crate").code());
}

#[test]
fn repeated_letters_are_bounded_by_counts() {
    let guess = w("aaxyz");
    let ans = w("abcde");
    // the second `a` of the guess is grey: the answer has a single `a`
    assert!(!w("abade").is_valid(&guess, &ans));
    assert!(w("abcdf").is_valid(&guess, &ans));
    assert!(w("afghi").is_valid(&guess, &ans));
    assert!(!w("bacde").is_valid(&guess, &ans));
}

#[test]
fn yellow_letter_must_move() {
    let guess = w("crane");
    let ans = w("react");
    // c, r and e are yellow, a is green, n is grey
    assert!(w("react").is_valid(&guess, &ans));
    assert!(!w("trace").is_valid(&guess, &ans));
    assert!(!w("caret").is_valid(&guess, &ans));
    assert!(!w("rance").is_valid(&guess, &ans));
}

#[test]
fn own_feedback_is_all_green() {
    for s in ["trace", "aabce", "zzzzz", "pluck"] {
        let x = w(s);
        let p = Pattern::new(&x, &x);
        assert_eq!(p.missing, 0);
        assert_eq!(p.shared, x.unique_bytes);
        for l in 0..26 {
            assert_eq!(p.green[l], x.positions[l]);
            assert_eq!(p.orange[l], 0);
        }
        assert!(p.admits(&x));
        assert!(x.is_valid(&x, &x));
    }
}

#[test]
fn disjoint_feedback_is_all_grey() {
    let guess = w("trace");
    let ans = w("plumb");
    let p = Pattern::new(&ans, &guess);
    assert_eq!(p.shared, 0);
    assert_eq!(p.missing, guess.unique_bytes);
    for l in 0..26 {
        assert_eq!(p.green[l], 0);
        assert_eq!(p.orange[l], 0);
    }
    assert!(w("dingy").is_valid(&guess, &ans));
    assert!(w("dingo").is_valid(&guess, &ans));
    assert!(!w("taint").is_valid(&guess, &ans));
}

#[test]
fn pattern_counts_bounds() {
    let ans = w("abbey");
    let guess = w("babbb");
    let p = Pattern::new(&ans, &guess);
    // b: the guess has four, the answer two
    assert_eq!(p.min_count[1], 2);
    assert_eq!(p.max_count[1], 2);
    // a: the guess has one, the answer one
    assert_eq!(p.min_count[0], 1);
    assert_eq!(p.max_count[0], 5);
    assert_eq!(p.green[1], 0b00100);
    assert_eq!(p.orange[1], 0b11001);
}
