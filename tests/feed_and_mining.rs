use retail_sync::apriori::{distinct_items, items_without, support_count, transactions_by_receipt};
use retail_sync::market::mock_trends;
use retail_sync::models::SourceSale;
use retail_sync::resolver::{sale_product_codes, sale_receipt_numbers};

#[test]
fn feed_without_breakout() {
    let feed = mock_trends(95, 90, 75, None);
    assert_eq!(feed.len(), 3);
    assert_eq!(feed[0].dish, "Chicken Tikka Masala");
    assert_eq!(feed[0].popularity_score, 95);
    assert_eq!(feed[0].trend_direction.as_deref(), Some("stable"));
    assert_eq!(feed[1].source, "Nairobi Street Food Index");
    assert_eq!(feed[1].trend_direction.as_deref(), Some("up"));
    assert_eq!(feed[2].category, "Fine Dining");
    assert_eq!(feed[2].trend_direction.as_deref(), Some("stable"));
    assert!(feed.iter().all(|t| t.id == 0 && t.last_updated.is_none()));
}

#[test]
fn feed_with_breakout_and_rising_seafood() {
    let feed = mock_trends(91, 86, 81, Some(88));
    assert_eq!(feed.len(), 4);
    assert_eq!(feed[2].trend_direction.as_deref(), Some("up"));
    assert_eq!(feed[3].dish, "Crunchy Korean Fried Chicken");
    assert_eq!(feed[3].source, "TikTok Kenya");
    assert_eq!(feed[3].popularity_score, 88);
    let at_threshold = mock_trends(91, 86, 80, None);
    assert_eq!(at_threshold[2].trend_direction.as_deref(), Some("stable"));
}

#[test]
fn support_counts_transactions_holding_all_items() {
    let ts = vec![vec![1, 2, 3], vec![2, 3], vec![3, 3, 4], vec![]];
    assert_eq!(support_count(&ts, &vec![3]), 3);
    assert_eq!(support_count(&ts, &vec![2, 3]), 2);
    assert_eq!(support_count(&ts, &vec![1, 4]), 0);
    assert_eq!(support_count(&ts, &vec![]), 4);
    assert_eq!(distinct_items(&ts), vec![1, 2, 3, 4]);
}

#[test]
fn rule_consequent() {
    assert_eq!(items_without(&vec![1, 2, 3], &vec![2]), vec![1, 3]);
    assert_eq!(items_without(&vec![1, 2], &vec![1, 2]), Vec::<i32>::new());
}

#[test]
fn baskets_by_receipt() {
    let rows = vec![(10, 1), (11, 2), (10, 3), (12, 1), (11, 1)];
    assert_eq!(transactions_by_receipt(&rows), vec![vec![1, 3], vec![2, 1], vec![1]]);
    assert!(transactions_by_receipt(&Vec::new()).is_empty());
}

#[test]
fn sale_lookup_keys_once_each() {
    let sale = |id: i32, no: i32, code: &str| SourceSale {
        sale_id: id,
        receipt_no: no,
        product_code: code.to_string(),
        quantity: "1".to_string(),
        selling_price: "1".to_string(),
        total_sale: "1".to_string(),
    };
    let rows = vec![sale(1, 42, "A"), sale(2, 43, "B"), sale(3, 42, "A")];
    assert_eq!(sale_receipt_numbers(&rows), vec![42, 43]);
    assert_eq!(sale_product_codes(&rows), vec!["A".to_string(), "B".to_string()]);
}
