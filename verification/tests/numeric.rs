use subslay::lev::levenshtein;
use subslay::parse::parse_fixed;
use subslay::sim::score_make;
use subslay::sim::sim_lt_exec;
use subslay::sim::SimScore;
use subslay::sim::Vector;
use subslay::table::str_lt_exec;
use subslay::text::normalize;

fn chars(s: &str) -> Vec<char> {
    s.chars().collect()
}

#[test]
fn fixed_point_parsing_exact_values() {
    assert_eq!(parse_fixed(&chars("1")), 4096);
    assert_eq!(parse_fixed(&chars("1.5")), 6144);
    assert_eq!(parse_fixed(&chars("-0.25")), -1024);
    assert_eq!(parse_fixed(&chars("+2.0")), 8192);
    assert_eq!(parse_fixed(&chars("0.0001")), 0);
    assert_eq!(parse_fixed(&chars("16.0")), 65536);
}

#[test]
fn fixed_point_parsing_saturates() {
    assert_eq!(parse_fixed(&chars("100")), 65536);
    assert_eq!(parse_fixed(&chars("-99999.5")), -65536);
}

#[test]
fn malformed_numbers_parse_as_zero() {
    assert_eq!(parse_fixed(&chars("abc")), 0);
    assert_eq!(parse_fixed(&chars("1e5")), 0);
    assert_eq!(parse_fixed(&chars("1.2.3")), 0);
    assert_eq!(parse_fixed(&chars("-")), 0);
    assert_eq!(parse_fixed(&chars("")), 0);
}

#[test]
fn levenshtein_exact_values() {
    assert_eq!(levenshtein("kitten", "sitting"), 3);
    assert_eq!(levenshtein("", "abc"), 3);
    assert_eq!(levenshtein("abc", ""), 3);
    assert_eq!(levenshtein("same", "same"), 0);
    assert_eq!(levenshtein("helllo", "hello"), 1);
}

#[test]
fn dot_product_is_symmetric() {
    let a = Vector { comps: vec![4096, -2048, 100] };
    let b = Vector { comps: vec![-300, 4096, 7] };
    assert_eq!(a.dot(&b), b.dot(&a));
    assert_eq!(a.dot(&b), 4096i64 * -300 + -2048i64 * 4096 + 100 * 7);
}

#[test]
fn self_similarity_is_maximal() {
    let a = Vector { comps: vec![4096, 1000] };
    let b = Vector { comps: vec![-500, 4096] };
    let qx = a.sq_norm();
    let self_score = score_make(qx, a.dot(&a), a.sq_norm());
    let other_score = score_make(qx, a.dot(&b), b.sq_norm());
    // The self-score is the exact unit value: its cross-multiplied
    // squares are equal, which is similarity 1.
    assert_eq!(self_score, SimScore::Fin { d: qx, q: qx });
    // No candidate beats the query itself, and every genuine score
    // stays at or above the degenerate sentinel.
    assert!(!sim_lt_exec(qx, &self_score, &other_score));
    assert!(!sim_lt_exec(qx, &other_score, &SimScore::Degenerate));
}

#[test]
fn zero_norm_vector_loses_every_comparison() {
    let q = Vector { comps: vec![4096, 0] };
    let z = Vector { comps: vec![0, 0] };
    let c = Vector { comps: vec![0, 4096] };
    let qx = q.sq_norm();
    let degenerate = score_make(qx, q.dot(&z), z.sq_norm());
    let genuine = score_make(qx, q.dot(&c), c.sq_norm());
    assert_eq!(degenerate, SimScore::Degenerate);
    assert!(sim_lt_exec(qx, &degenerate, &genuine));
}

#[test]
fn normalization_filters_splits_and_folds() {
    let toks = normalize("Ab1c  De!");
    assert_eq!(toks, vec!["abc".to_string(), "de".to_string()]);
    assert!(normalize("   \t\n").is_empty());
    assert_eq!(normalize("don't"), vec!["dont".to_string()]);
}

#[test]
fn lexicographic_order_on_strings() {
    assert!(str_lt_exec("apple", "banana"));
    assert!(str_lt_exec("app", "apple"));
    assert!(!str_lt_exec("apple", "apple"));
    assert!(!str_lt_exec("banana", "apple"));
}
