use day1::{difference, parse_file, similarity_score};

#[test]
fn parse_equal_lengths() {
    let (l, r) = parse_file("3   4\n4   3\n2   5\n");
    assert_eq!(l.len(), r.len());
    assert_eq!(l.len(), 3);
    let (l, r) = parse_file("");
    assert_eq!(l.len(), r.len());
    assert_eq!(l.len(), 0);
    let (l, r) = parse_file("1   2\nno delimiter here\n3   4\n");
    assert_eq!(l.len(), r.len());
    assert_eq!(l.len(), 2);
}

#[test]
fn distance_symmetry() {
    let mut a: Vec<u64> = vec![3, 4, 2, 1, 3, 3];
    let mut b: Vec<u64> = vec![4, 3, 5, 3, 9, 3];
    a.sort();
    b.sort();
    assert_eq!(difference(&a, &b), difference(&b, &a));
}

#[test]
fn distance_zero_iff_equal() {
    let a: Vec<u64> = vec![1, 2, 3];
    assert_eq!(difference(&a, &a), 0);
    let b: Vec<u64> = vec![1, 2, 4];
    assert_ne!(difference(&a, &b), 0);
}

#[test]
fn similarity_symmetry() {
    let a: Vec<u64> = vec![1, 2, 3, 3, 3, 4];
    let b: Vec<u64> = vec![3, 3, 3, 4, 5, 9];
    assert_eq!(similarity_score(&a, &b), similarity_score(&b, &a));
}

#[test]
fn similarity_disjoint_zero() {
    let a: Vec<u64> = vec![1, 2, 3];
    let b: Vec<u64> = vec![10, 20, 30];
    assert_eq!(similarity_score(&a, &b), 0);
}

#[test]
fn distance_shift_by_constant() {
    let a: Vec<u64> = vec![1, 2, 3, 4];
    let b: Vec<u64> = vec![5, 6, 7, 8];
    let base = difference(&a, &b);
    let k: u64 = 10;
    let shifted: Vec<u64> = b.iter().map(|x| x + k).collect();
    assert_eq!(difference(&a, &shifted), base + k * a.len() as u64);
}

#[test]
fn lenient_token_is_zero() {
    let (l, r) = parse_file("foo   5\n");
    assert_eq!(l, vec![0]);
    assert_eq!(r, vec![5]);
}

#[test]
fn canonical_example() {
    let text = "3   4\n4   3\n2   5\n1   3\n3   9\n3   3\n";
    let (mut l, mut r) = parse_file(text);
    l.sort();
    r.sort();
    assert_eq!(l, vec![1, 2, 3, 3, 3, 4]);
    assert_eq!(r, vec![3, 3, 3, 4, 5, 9]);
    assert_eq!(difference(&l, &r), 11);
    assert_eq!(similarity_score(&l, &r), 31);
}

#[test]
fn identical_columns() {
    let text = "7   7\n7   7\n1   1\n";
    let (mut l, mut r) = parse_file(text);
    l.sort();
    r.sort();
    assert_eq!(difference(&l, &r), 0);
    assert_eq!(similarity_score(&l, &r), 29);
}

#[test]
fn disjoint_value_sets() {
    let text = "1   10\n2   20\n3   30\n";
    let (mut l, mut r) = parse_file(text);
    l.sort();
    r.sort();
    assert_eq!(difference(&l, &r), 54);
    assert_eq!(similarity_score(&l, &r), 0);
}

#[test]
fn single_row() {
    let (l, r) = parse_file("42   42\n");
    assert_eq!(difference(&l, &r), 0);
    assert_eq!(similarity_score(&l, &r), 42);
}

#[test]
fn lenient_parse_combined() {
    let text = "foo   5\n1   foo\n";
    let (mut l, mut r) = parse_file(text);
    l.sort();
    r.sort();
    assert_eq!(l, vec![0, 1]);
    assert_eq!(r, vec![0, 5]);
    assert_eq!(difference(&l, &r), 4);
    assert_eq!(similarity_score(&l, &r), 0);
}

#[test]
fn right_greater_than_left() {
    let (l, r) = parse_file("1   1000000000000\n");
    assert_eq!(difference(&l, &r), 999999999999);
}

#[test]
fn crlf_line_endings() {
    let (l, r) = parse_file("3   4\r\n4   3\r\n");
    assert_eq!(l, vec![3, 4]);
    assert_eq!(r, vec![4, 3]);
}

#[test]
fn missing_final_newline() {
    let (l, r) = parse_file("3   4\n4   3");
    assert_eq!(l, vec![3, 4]);
    assert_eq!(r, vec![4, 3]);
}

#[test]
fn extra_tokens_ignored() {
    let (l, r) = parse_file("1   2   3\n");
    assert_eq!(l, vec![1]);
    assert_eq!(r, vec![2]);
}

#[test]
fn empty_lines_skipped() {
    let (l, r) = parse_file("1   2\n\n3   4\n");
    assert_eq!(l, vec![1, 3]);
    assert_eq!(r, vec![2, 4]);
}

#[test]
fn leading_zeros() {
    let (l, r) = parse_file("007   08\n");
    assert_eq!(l, vec![7]);
    assert_eq!(r, vec![8]);
}

#[test]
fn oversized_token_is_zero() {
    let (l, r) = parse_file("99999999999999999999999   1\n");
    assert_eq!(l, vec![0]);
    assert_eq!(r, vec![1]);
}

#[test]
fn empty_tokens_are_zero() {
    let (l, r) = parse_file("      \n");
    assert_eq!(l, vec![0]);
    assert_eq!(r, vec![0]);
}
