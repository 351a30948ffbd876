use fem_assembly::combinatorics::expansion_terms;
use fem_assembly::combinatorics::signed_multinomial_coefficient;
use fem_assembly::combinatorics::ExpansionTerm;
use fem_assembly::combinatorics::FactorialCache;
use fem_assembly::parametric_expansion_with_recursion::calculate_max_degrees_for_all_force_orders;
use fem_assembly::parametric_expansion_with_recursion::RecursionConfig;

#[test]
fn test_factorial_cache_values() {
    let cache = FactorialCache::new(10);
    assert_eq!(cache.get(0), Some(1));
    assert_eq!(cache.get(1), Some(1));
    assert_eq!(cache.get(5), Some(120));
    assert_eq!(cache.get(10), Some(3628800));
    assert_eq!(cache.get(11), None);
}

#[test]
fn test_signed_multinomial_values() {
    let cache = FactorialCache::new(10);
    // (1,1,1): 3!/(1!1!1!) = 6, total 3 is odd, so negated.
    assert_eq!(
        signed_multinomial_coefficient(ExpansionTerm(1, 1, 1), &cache),
        Some(-6)
    );
    // (2,0,0): 2!/2! = 1, total 2 is even.
    assert_eq!(
        signed_multinomial_coefficient(ExpansionTerm(2, 0, 0), &cache),
        Some(1)
    );
    // (2,1,0): 3!/2! = 3, total 3 odd.
    assert_eq!(
        signed_multinomial_coefficient(ExpansionTerm(2, 1, 0), &cache),
        Some(-3)
    );
    // Beyond the cache's limit: absence.
    assert_eq!(
        signed_multinomial_coefficient(ExpansionTerm(11, 0, 0), &cache),
        None
    );
}

#[test]
fn test_expansion_terms_order_four() {
    let terms = expansion_terms(4);
    // All (a, b, c) with a + 2b + 3c = 4.
    assert_eq!(terms.len(), 4);
    assert!(terms.contains(&ExpansionTerm(4, 0, 0)));
    assert!(terms.contains(&ExpansionTerm(2, 1, 0)));
    assert!(terms.contains(&ExpansionTerm(0, 2, 0)));
    assert!(terms.contains(&ExpansionTerm(1, 0, 1)));
    for t in &terms {
        assert_eq!(t.0 as u32 + 2 * t.1 as u32 + 3 * t.2 as u32, 4);
    }
}

#[test]
fn test_expansion_terms_order_zero() {
    let terms = expansion_terms(0);
    assert_eq!(terms, vec![ExpansionTerm(0, 0, 0)]);
}

#[test]
fn test_calculate_max_degrees() {
    assert_eq!(
        calculate_max_degrees_for_all_force_orders(10, 3, 3, 1),
        vec![2, 4, 6, 8]
    );
    assert_eq!(
        calculate_max_degrees_for_all_force_orders(8, 2, 2, 2),
        vec![2, 4, 6]
    );
    // The overall cap limits the later orders.
    assert_eq!(
        calculate_max_degrees_for_all_force_orders(5, 4, 3, 1),
        vec![2, 4, 5, 5, 5]
    );
}

#[test]
fn test_recursion_config() {
    let config = RecursionConfig::new(3, 4, 2, 1);
    assert_eq!(config.max_force_order(), 4);
    assert_eq!(config.max_degree_at(0), 1);
    assert_eq!(config.max_degree_at(4), 3);

    // The degree range feeding total degree 2 at force order 1:
    // max(0, 2 - caps[0]) ..= min(caps[0], 2).
    let (start, end) = config.convolution_degree_range(2, 1);
    assert_eq!((start, end), (1, 1));
}
