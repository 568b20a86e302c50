use exercises::error::ErrorKind;
use exercises::sequence::{generate, render};

#[test]
fn generate_ten_renders_literal_line() {
    let terms = generate(10).unwrap();
    assert_eq!(terms, vec![1, 1, 2, 3, 5, 8, 13, 21, 34]);
    assert_eq!(render(&terms), "1 -> 1 -> 2 -> 3 -> 5 -> 8 -> 13 -> 21 -> 34");
}

#[test]
fn generate_counts_terms_after_seeds() {
    for count in 3u32..40 {
        let terms = generate(count).unwrap();
        assert_eq!(terms.len() - 2, (count - 3) as usize);
        for i in 2..terms.len() {
            assert_eq!(terms[i], terms[i - 1] + terms[i - 2]);
        }
    }
    assert_eq!(generate(2).unwrap(), vec![1, 1]);
}

#[test]
fn generate_small_counts_emit_only_seeds() {
    assert_eq!(generate(0).unwrap(), vec![1, 1]);
    assert_eq!(generate(1).unwrap(), vec![1, 1]);
    assert_eq!(render(&generate(0).unwrap()), "1 -> 1");
}

#[test]
fn generate_is_repeatable() {
    assert_eq!(generate(25), generate(25));
    assert_eq!(generate(200), generate(200));
}

#[test]
fn generate_largest_fitting_count() {
    // fib(92) == 12200160415121876738 is the last term that fits in u64.
    let terms = generate(94).unwrap();
    assert_eq!(terms.len(), 93);
    assert_eq!(terms[92], 12200160415121876738);
    assert_eq!(generate(95), Err(ErrorKind::ArithmeticOverflow));
    assert_eq!(generate(u32::MAX), Err(ErrorKind::ArithmeticOverflow));
}

#[test]
fn render_edge_cases() {
    assert_eq!(render(&vec![]), "");
    assert_eq!(render(&vec![0]), "0");
    assert_eq!(render(&vec![7, 100, u64::MAX]), "7 -> 100 -> 18446744073709551615");
}
