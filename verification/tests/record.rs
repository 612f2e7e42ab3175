use cusage::record::TokenTotals;

#[test]
fn totals_add_component_wise_and_sum_to_a_grand_total() {
    let a = TokenTotals { uncached_input: 1, cached_input: 2, cache_creation: 3, output: 4 };
    let b = TokenTotals { uncached_input: 10, cached_input: 20, cache_creation: 30, output: 40 };
    let c = a.add(b);
    assert_eq!(c, TokenTotals { uncached_input: 11, cached_input: 22, cache_creation: 33, output: 44 });
    assert_eq!(c.grand_total(), 110);
    assert_eq!(a.add(TokenTotals::default()), a);
    assert_eq!(a.add(b), b.add(a));
}
