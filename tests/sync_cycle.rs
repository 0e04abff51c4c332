use std::collections::HashMap;

use retail_sync::apply::{plan_customers, plan_products, plan_receipts, plan_sales};
use retail_sync::changelog::{group_changes, group_keys, table_kind, ChangeEntry, SyncError, TableKind};
use retail_sync::decimal::Decimal;
use retail_sync::models::{Customer, Receipt, SourceProduct, SourceReceipt, SourceSale};
use retail_sync::query::{fetch_query, mark_synced_query};
use retail_sync::resolver::{receipt_customer_emails, sale_product_codes, sale_receipt_numbers, NumberKeyIndex, TextKeyIndex};
use retail_sync::status::{ids_to_mark, next_state, ApplyCounts, SchedulerEvent, SchedulerState};
use retail_sync::timestamp::{Timestamp, Watermark};

fn entry(id: i32, table: &str, pk: &str, secs: i64) -> ChangeEntry {
    ChangeEntry {
        id,
        table_name: table.to_string(),
        primary_key_value: pk.to_string(),
        change_time: Timestamp { secs, nanos: 0 },
    }
}

fn customer(id: i32, name: &str, email: &str) -> Customer {
    Customer { customer_id: id, name: name.to_string(), email: email.to_string(), registered_on: None }
}

fn source_receipt(id: i32, no: i32, email: Option<&str>, total: &str) -> SourceReceipt {
    SourceReceipt {
        receipt_id: id,
        receipt_no: no,
        transaction_date: Some(Timestamp { secs: 1_700_000_000, nanos: 0 }),
        customer: email.map(|e| e.to_string()),
        total_amount: total.to_string(),
        payment_channel: "card".to_string(),
    }
}

fn source_sale(id: i32, receipt_no: i32, code: &str) -> SourceSale {
    SourceSale {
        sale_id: id,
        receipt_no,
        product_code: code.to_string(),
        quantity: "2".to_string(),
        selling_price: "3.50".to_string(),
        total_sale: "7.00".to_string(),
    }
}

#[test]
fn three_customer_entries_two_rows() {
    let batch = vec![entry(1, "customers", "1", 10), entry(2, "customers", "2", 11), entry(3, "customers", "3", 12)];
    let groups = group_changes(&batch);
    assert_eq!(groups.len(), 1);
    assert_eq!(groups[0].members, vec![0, 1, 2]);
    let keys = group_keys(&batch, &groups[0]).unwrap();
    assert_eq!(keys, vec![1, 2, 3]);
    let rows = vec![customer(2, "Bea", "bea@example.com"), customer(1, "Al", "al@example.com")];
    let plan = plan_customers(&keys, &rows);
    assert_eq!(plan.len(), 2);
    assert_eq!(plan[0].customer_id, 1);
    assert_eq!(plan[1].customer_id, 2);
    let outcome: Result<ApplyCounts, SyncError> = Ok(ApplyCounts { applied: 2, skipped: 0 });
    assert_eq!(ids_to_mark(&batch, &groups[0], &outcome), vec![1, 2, 3]);
}

#[test]
fn sale_with_unknown_receipt_is_skipped_and_group_marked() {
    let batch = vec![entry(7, "sales", "900", 5)];
    let groups = group_changes(&batch);
    let keys = group_keys(&batch, &groups[0]).unwrap();
    let rows = vec![source_sale(900, 42, "P-1")];
    assert_eq!(sale_receipt_numbers(&rows), vec![42]);
    assert_eq!(sale_product_codes(&rows), vec!["P-1".to_string()]);
    let receipts = NumberKeyIndex::new();
    let mut products = TextKeyIndex::new();
    products.insert("P-1".to_string(), 11);
    let plan = plan_sales(&keys, &rows, &receipts, &products);
    assert!(plan.upserts.is_empty());
    assert_eq!(plan.skipped, vec![source_sale(900, 42, "P-1")]);
    let counts = plan.counts();
    assert_eq!(counts, ApplyCounts { applied: 0, skipped: 1 });
    assert_eq!(ids_to_mark(&batch, &groups[0], &Ok(counts)), vec![7]);
}

#[test]
fn sale_with_known_refs_is_written() {
    let keys = vec![900];
    let rows = vec![source_sale(900, 42, "P-1")];
    let mut receipts = NumberKeyIndex::new();
    receipts.insert(42, 5);
    let mut products = TextKeyIndex::new();
    products.insert("P-1".to_string(), 11);
    let plan = plan_sales(&keys, &rows, &receipts, &products);
    assert!(plan.skipped.is_empty());
    assert_eq!(plan.upserts.len(), 1);
    let s = &plan.upserts[0];
    assert_eq!((s.sale_id, s.receipt_id, s.product_id), (900, 5, 11));
    assert_eq!(s.quantity, Decimal { mantissa: 2, scale: 0 });
    assert_eq!(s.selling_price, Decimal { mantissa: 350, scale: 2 });
    assert_eq!(s.total_sale, Decimal { mantissa: 700, scale: 2 });
}

#[test]
fn store_error_in_group_of_ten_marks_nothing() {
    let batch: Vec<ChangeEntry> = (1..=10).map(|i| entry(i, "products", &i.to_string(), i as i64)).collect();
    let groups = group_changes(&batch);
    assert_eq!(groups.len(), 1);
    let failed: Result<ApplyCounts, SyncError> = Err(SyncError::TargetWrite);
    assert!(ids_to_mark(&batch, &groups[0], &failed).is_empty());
    let done: Result<ApplyCounts, SyncError> = Ok(ApplyCounts { applied: 10, skipped: 0 });
    assert_eq!(ids_to_mark(&batch, &groups[0], &done), (1..=10).collect::<Vec<i32>>());
}

#[test]
fn unsupported_table_is_never_marked() {
    let batch = vec![entry(4, "suppliers", "1", 1)];
    let groups = group_changes(&batch);
    assert_eq!(table_kind(&groups[0].table_name), None);
    let done: Result<ApplyCounts, SyncError> = Ok(ApplyCounts { applied: 0, skipped: 0 });
    assert!(ids_to_mark(&batch, &groups[0], &done).is_empty());
}

#[test]
fn table_names_are_recognised() {
    assert_eq!(table_kind("customers"), Some(TableKind::Customers));
    assert_eq!(table_kind("products"), Some(TableKind::Products));
    assert_eq!(table_kind("receipts"), Some(TableKind::Receipts));
    assert_eq!(table_kind("sales"), Some(TableKind::Sales));
    assert_eq!(table_kind("Sales"), None);
    assert_eq!(table_kind(""), None);
}

#[test]
fn receipt_without_known_customer_is_skipped() {
    let keys = vec![10, 11, 12];
    let rows = vec![
        source_receipt(12, 42, None, "5"),
        source_receipt(10, 40, Some("al@example.com"), " 19.99 "),
        source_receipt(11, 41, Some("ghost@example.com"), "oops"),
    ];
    assert_eq!(receipt_customer_emails(&rows), vec!["al@example.com".to_string(), "ghost@example.com".to_string()]);
    let mut customers = TextKeyIndex::new();
    customers.insert("al@example.com".to_string(), 3);
    let plan = plan_receipts(&keys, &rows, &customers);
    assert_eq!(plan.upserts.len(), 1);
    let r: &Receipt = &plan.upserts[0];
    assert_eq!(r.receipt_id, 10);
    assert_eq!(r.customer_id, Some(3));
    assert_eq!(r.total_amount, Decimal { mantissa: 1999, scale: 2 });
    assert_eq!(plan.skipped.iter().map(|s| s.receipt_id).collect::<Vec<i32>>(), vec![11, 12]);
}

#[test]
fn replaying_a_plan_leaves_the_table_unchanged() {
    let keys = vec![1, 2, 1];
    let rows = vec![
        SourceProduct {
            product_id: 1,
            product_code: "A".to_string(),
            name: "Tea".to_string(),
            department: "Drinks".to_string(),
            category: "Hot".to_string(),
            selling_price: "2.5".to_string(),
            current_stock: "n/a".to_string(),
        },
        SourceProduct {
            product_id: 2,
            product_code: "B".to_string(),
            name: "Bun".to_string(),
            department: "Bakery".to_string(),
            category: "Bread".to_string(),
            selling_price: "1".to_string(),
            current_stock: "40".to_string(),
        },
    ];
    let first = plan_products(&keys, &rows);
    let second = plan_products(&keys, &rows);
    assert_eq!(first, second);
    assert_eq!(first[0].current_stock, Decimal { mantissa: 0, scale: 0 });
    assert_eq!(first[0].selling_price, Decimal { mantissa: 25, scale: 1 });
    let mut table = HashMap::new();
    for p in &first {
        table.insert(p.product_id, p.clone());
    }
    let once = table.clone();
    for p in &second {
        table.insert(p.product_id, p.clone());
    }
    assert_eq!(table, once);
}

#[test]
fn groups_keep_time_order() {
    let batch = vec![
        entry(1, "sales", "5", 1),
        entry(2, "receipts", "9", 2),
        entry(3, "sales", "4", 3),
        entry(4, "sales", "5", 4),
        entry(5, "receipts", "8", 5),
    ];
    let groups = group_changes(&batch);
    assert_eq!(groups.len(), 2);
    assert_eq!(groups[0].table_name, "sales");
    assert_eq!(groups[0].members, vec![0, 2, 3]);
    assert_eq!(groups[1].table_name, "receipts");
    assert_eq!(groups[1].members, vec![1, 4]);
    for g in &groups {
        for w in g.members.windows(2) {
            assert!(batch[w[0]].change_time.is_no_later_than(&batch[w[1]].change_time));
        }
    }
    assert_eq!(group_keys(&batch, &groups[0]).unwrap(), vec![5, 4]);
}

#[test]
fn empty_batch_has_no_groups() {
    let batch: Vec<ChangeEntry> = Vec::new();
    assert!(group_changes(&batch).is_empty());
}

#[test]
fn malformed_primary_key_fails_the_group() {
    let batch = vec![entry(1, "customers", "1", 1), entry(2, "customers", "1) OR (1=1", 2)];
    let groups = group_changes(&batch);
    assert_eq!(group_keys(&batch, &groups[0]), Err(SyncError::InvalidKey));
    let failed: Result<ApplyCounts, SyncError> = Err(SyncError::InvalidKey);
    assert!(ids_to_mark(&batch, &groups[0], &failed).is_empty());
}

#[test]
fn fetch_and_mark_statements() {
    assert_eq!(
        fetch_query(TableKind::Customers, &vec![3, -7, 12]).unwrap(),
        "SELECT customer_id, name, email, registered_on FROM customers WHERE customer_id IN (3,-7,12)"
    );
    assert_eq!(
        fetch_query(TableKind::Sales, &vec![1]).unwrap(),
        "SELECT sale_id, receipt_no, product_code, CAST(quantity AS CHAR), CAST(sellingprice AS CHAR), CAST(totalsales AS CHAR) FROM sales WHERE sale_id IN (1)"
    );
    assert_eq!(fetch_query(TableKind::Products, &Vec::new()), None);
    assert_eq!(
        mark_synced_query(&vec![4, 5]).unwrap(),
        "UPDATE log_table_sync_change SET status = 'synced', synced_at = NOW() WHERE id IN (4,5)"
    );
    assert_eq!(mark_synced_query(&Vec::new()), None);
}

#[test]
fn watermark_never_moves_back() {
    let mut w = Watermark::from_stored(None);
    assert_eq!(w.get(), Timestamp { secs: 946_684_800, nanos: 0 });
    w.advance(Timestamp { secs: 2_000_000_000, nanos: 5 });
    assert_eq!(w.get(), Timestamp { secs: 2_000_000_000, nanos: 5 });
    w.advance(Timestamp { secs: 1_000_000_000, nanos: 0 });
    assert_eq!(w.get(), Timestamp { secs: 2_000_000_000, nanos: 5 });
    w.advance(Timestamp { secs: 2_000_000_000, nanos: 1 });
    assert_eq!(w.get(), Timestamp { secs: 2_000_000_000, nanos: 5 });
    let stored = Watermark::from_stored(Some(Timestamp { secs: 1, nanos: 2 }));
    assert_eq!(stored.get(), Timestamp { secs: 1, nanos: 2 });
}

#[test]
fn scheduler_transitions() {
    assert_eq!(next_state(SchedulerState::Idle, SchedulerEvent::TimerFired), SchedulerState::Running);
    assert_eq!(next_state(SchedulerState::Running, SchedulerEvent::TimerFired), SchedulerState::Running);
    assert_eq!(next_state(SchedulerState::Running, SchedulerEvent::CycleFinished), SchedulerState::Idle);
    assert_eq!(next_state(SchedulerState::Running, SchedulerEvent::SourceUnavailable), SchedulerState::Idle);
    assert_eq!(next_state(SchedulerState::Idle, SchedulerEvent::CycleFinished), SchedulerState::Idle);
}

#[test]
fn later_key_entries_win_in_index() {
    let mut idx = TextKeyIndex::new();
    idx.insert("a@x".to_string(), 1);
    idx.insert("b@x".to_string(), 2);
    idx.insert("a@x".to_string(), 3);
    assert_eq!(idx.get("a@x"), Some(3));
    assert_eq!(idx.get("b@x"), Some(2));
    assert_eq!(idx.get("c@x"), None);
    let mut nums = NumberKeyIndex::new();
    nums.insert(42, 8);
    assert_eq!(nums.get(42), Some(8));
    assert_eq!(nums.get(43), None);
}

#[test]
fn lookup_rows_without_key_are_left_out() {
    let idx = TextKeyIndex::from_lookup(&vec![(Some("a@x".to_string()), 1), (None, 2), (Some("a@x".to_string()), 3)]);
    assert_eq!(idx.pairs.len(), 2);
    assert_eq!(idx.get("a@x"), Some(3));
    let nums = NumberKeyIndex::from_lookup(&vec![(None, 9), (Some(42), 5)]);
    assert_eq!(nums.pairs, vec![(42, 5)]);
    assert_eq!(nums.get(42), Some(5));
}

#[test]
fn default_watermark_is_start_of_2000() {
    let start = chrono::NaiveDate::from_ymd_opt(2000, 1, 1).unwrap().and_hms_opt(0, 0, 0).unwrap().and_utc();
    let w = Watermark::from_stored(None).get();
    assert_eq!(w.secs, start.timestamp());
    assert_eq!(w.nanos, 0);
}
