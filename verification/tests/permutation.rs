//! The permutation codec: parsing, rendering, the swap table and the
//! decoding loop.

use lincoln::error::ParseError;
use lincoln::permutation::Permutation;

#[test]
fn it_works() {
    assert_eq!(2 + 2, 4);
}

#[test]
fn lib_it_works() {
    assert_eq!(2 + 2, 4);
}

#[test]
fn test_parse() {
    assert_eq!(Permutation::parse("ba").unwrap(), Permutation(1));
}

#[test]
fn test_swap() {
    assert_eq!(Permutation(1).render(), "ba");

    assert_eq!(Permutation::swap(0, 1), Permutation(1));
    assert_eq!(Permutation::swap(0, 2), Permutation(2));
    assert_eq!(Permutation::swap(1, 1), Permutation(4));
    assert_eq!(Permutation::swap(0, 3), Permutation(6));
    assert_eq!(Permutation::swap(1, 2), Permutation(12));
    assert_eq!(Permutation::swap(2, 1), Permutation(18));

    assert_eq!(Permutation::swap(0, 4), Permutation(24));

    assert_eq!(Permutation(35).render(), "ecabd");
    assert_eq!(Permutation(82).render(), "dceab");
    assert_eq!(Permutation(17).render(), "bdac");
    assert_eq!(Permutation(2).render(), "cba");
    assert_eq!(Permutation(4).render(), "acb");

    assert_eq!(Permutation::parse("ecabd").unwrap(), Permutation(35));
    assert_eq!(Permutation::parse("dceab").unwrap(), Permutation(82));
    assert_eq!(Permutation::parse("bdac").unwrap(), Permutation(17));
}

#[test]
fn permutation_test_swap() {
    assert_eq!(Permutation::swap(0, 1), Permutation(1));
    assert_eq!(Permutation::swap(1, 1), Permutation(4));
    assert_eq!(Permutation::swap(1, 2), Permutation(12));
}

#[test]
fn test_permutation() {
    let mut v = vec![1, 2, 3, 4];
    Permutation(1).permutate(&mut v);
    assert_eq!(v, vec![2, 1, 3, 4]);
    Permutation(2).permutate(&mut v);
    assert_eq!(v, vec![3, 1, 2, 4]);
    Permutation(4).permutate(&mut v);
    assert_eq!(v, vec![3, 2, 1, 4]);
}

#[test]
fn permutation_test_permutation() {
    let mut v = vec![1, 2, 3, 4];
    Permutation(1).permutate(&mut v);
    assert_eq!(v, vec![2, 1, 3, 4]);
}

#[test]
fn identity_leaves_values_in_place() {
    let mut v = vec![7u64, 8, 9, 10, 11];
    Permutation::identical().permutate(&mut v);
    assert_eq!(v, vec![7, 8, 9, 10, 11]);
}

#[test]
fn swap_applied_twice_restores() {
    // The transposition of positions 1 and 3 is swap(1, 2).
    let p = Permutation::swap(1, 2);
    let mut v = vec![10, 20, 30, 40, 50];
    p.permutate(&mut v);
    assert_eq!(v, vec![10, 40, 30, 20, 50]);
    p.permutate(&mut v);
    assert_eq!(v, vec![10, 20, 30, 40, 50]);
}

#[test]
fn parse_then_render_round_trips() {
    for s in ["ba", "cab", "ecabd", "dceab", "bdac", "cba", "acb"] {
        let p = Permutation::parse(s).unwrap();
        assert_eq!(p.render(), s);
    }
}

#[test]
fn parse_rejects_long_text() {
    let too_long = "abcdefghijklmnopqrstu";
    assert_eq!(Permutation::parse(too_long), Err(ParseError::TooLong));
}

#[test]
fn parse_rejects_missing_letter() {
    // Two letters, so both a and b must appear.
    assert_eq!(
        Permutation::parse("aa"),
        Err(ParseError::CharNotFound { letter: 'b' })
    );
    // A letter outside the two-letter prefix is no permutation either.
    assert_eq!(
        Permutation::parse("ca"),
        Err(ParseError::CharNotFound { letter: 'b' })
    );
}

#[test]
fn min_len_counts_needed_positions() {
    assert_eq!(Permutation(0).min_len(), 0);
    assert_eq!(Permutation(1).min_len(), 2);
    assert_eq!(Permutation(2).min_len(), 3);
    assert_eq!(Permutation(35).min_len(), 5);
    assert_eq!(Permutation(0).len(), 0);
    assert_eq!(Permutation(1).len(), 2);
}

#[test]
fn parse_handles_the_largest_permutation() {
    // All 20 letters, fully reversed: the largest text the codec
    // accepts.
    let reversed = "tsrqponmlkjihgfedcba";
    let p = Permutation::parse(reversed).unwrap();
    assert_eq!(p.render(), reversed);
    assert_eq!(p.min_len(), 20);
}

#[test]
fn sorted_text_is_the_identity() {
    // The sorted identity parses to code 0, whose rendering is the
    // empty text: a text that ends in its own highest letter renders
    // back without that redundant tail.
    let p = Permutation::parse("abcdefghijklmnopqrst").unwrap();
    assert_eq!(p, Permutation(0));
    assert_eq!(p.render(), "");
    assert_eq!(Permutation::parse("").unwrap(), Permutation(0));
}

#[test]
fn permutate_leaves_tail_beyond_min_len() {
    // Permutation 1 exchanges the first two positions only.
    let mut v = vec![1, 2, 3, 4, 5, 6, 7];
    Permutation(1).permutate(&mut v);
    assert_eq!(v, vec![2, 1, 3, 4, 5, 6, 7]);
}
