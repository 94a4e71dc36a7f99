use wordle::Correctness;
use wordle::Correctness::{Correct as C, Misplaced as M, Wrong as W};

#[test]
fn all_green() {
    assert_eq!(Correctness::compute("abcde", "abcde"), [C, C, C, C, C]);
}

#[test]
fn all_yellow() {
    assert_eq!(Correctness::compute("abcde", "bcdea"), [M, M, M, M, M]);
}

#[test]
fn all_grey() {
    assert_eq!(Correctness::compute("abcde", "zzzzz"), [W, W, W, W, W]);
}

#[test]
fn repeat_green() {
    assert_eq!(Correctness::compute("aabbb", "aaccc"), [C, C, W, W, W]);
}

#[test]
fn repeat_yellow() {
    assert_eq!(Correctness::compute("aabbb", "ccaac"), [W, W, M, M, W]);
}

#[test]
fn same_green_yellow() {
    assert_eq!(Correctness::compute("aabbb", "caacc"), [W, C, M, W, W]);
}

#[test]
fn same_green_yellow_but_one_too_many() {
    assert_eq!(Correctness::compute("aabbb", "caaac"), [W, C, M, W, W]);
}

#[test]
fn only_one_green() {
    assert_eq!(Correctness::compute("abcde", "aacde"), [C, W, C, C, C]);
}

#[test]
fn same_word_with_repeats_is_all_green() {
    assert_eq!(Correctness::compute("llama", "llama"), [C, C, C, C, C]);
}

#[test]
fn disjoint_letters_are_all_grey() {
    assert_eq!(Correctness::compute("crane", "bulky"), [W, W, W, W, W]);
}

#[test]
fn rearranged_repeats_are_all_yellow() {
    assert_eq!(Correctness::compute("aabbc", "bcaab"), [M, M, M, M, M]);
}

#[test]
fn scoring_is_repeatable() {
    let first = Correctness::compute("aabbb", "caaac");
    for _ in 0..10 {
        assert_eq!(Correctness::compute("aabbb", "caaac"), first);
    }
}

#[test]
fn green_consumes_before_yellow() {
    assert_eq!(Correctness::compute("abbbb", "baaaa"), [M, M, W, W, W]);
    assert_eq!(Correctness::compute("abcba", "aaaaa"), [C, W, W, W, C]);
}

#[test]
fn non_ascii_letters_count_as_one() {
    assert_eq!(Correctness::compute("éabcd", "aébcd"), [M, M, C, C, C]);
}
