//! Statement text for batched reads and status marking.

use vstd::prelude::*;
use crate::changelog::TableKind;
use crate::text::{append_joined, joined};

verus! {

/// The start of the statement that reads a table's rows for a batch of
/// primary keys, up to the opening parenthesis of the key list.
pub open spec fn select_prefix(kind: TableKind) -> Seq<char> {
    match kind {
        TableKind::Customers => "SELECT customer_id, name, email, registered_on FROM customers WHERE customer_id IN ("@,
        TableKind::Products => "SELECT product_id, product_code, productname, department, category, sellingprice, current_stock FROM products WHERE product_id IN ("@,
        TableKind::Receipts => "SELECT receipt_id, receipt_no, date, customer, total_cost_incl, payment_channel FROM receipts WHERE receipt_id IN ("@,
        TableKind::Sales => "SELECT sale_id, receipt_no, product_code, CAST(quantity AS CHAR), CAST(sellingprice AS CHAR), CAST(totalsales AS CHAR) FROM sales WHERE sale_id IN ("@,
    }
}

/// The start of the statement that marks change-log entries as consumed.
pub open spec fn mark_prefix() -> Seq<char> {
    "UPDATE log_table_sync_change SET status = 'synced', synced_at = NOW() WHERE id IN ("@
}

fn select_prefix_text(kind: TableKind) -> (r: &'static str)
    ensures
        r@ == select_prefix(kind),
{
    match kind {
        TableKind::Customers => "SELECT customer_id, name, email, registered_on FROM customers WHERE customer_id IN (",
        TableKind::Products => "SELECT product_id, product_code, productname, department, category, sellingprice, current_stock FROM products WHERE product_id IN (",
        TableKind::Receipts => "SELECT receipt_id, receipt_no, date, customer, total_cost_incl, payment_channel FROM receipts WHERE receipt_id IN (",
        TableKind::Sales => "SELECT sale_id, receipt_no, product_code, CAST(quantity AS CHAR), CAST(sellingprice AS CHAR), CAST(totalsales AS CHAR) FROM sales WHERE sale_id IN (",
    }
}

/// `prefix`, the numbers separated by commas, and a closing parenthesis.
fn in_list_statement(prefix: &str, xs: &Vec<i32>) -> (r: String)
    ensures
        r@ == prefix@ + joined(xs@) + ")"@,
{
    let mut q = String::from_str(prefix);
    append_joined(&mut q, xs);
    q.append(")");
    q
}

/// The statement that reads the rows of `kind` whose primary key is one of
/// `keys`, in one query. The keys are numbers, so the key list holds only
/// digits, minus signs and commas. `None` when there is nothing to read.
pub fn fetch_query(kind: TableKind, keys: &Vec<i32>) -> (r: Option<String>)
    ensures
        match r {
            Some(q) => keys@.len() > 0 && q@ == select_prefix(kind) + joined(keys@) + ")"@,
            None => keys@.len() == 0,
        },
{
    if keys.len() == 0 {
        None
    } else {
        Some(in_list_statement(select_prefix_text(kind), keys))
    }
}

/// The statement that marks the change-log entries `ids` as synced, in one
/// update. `None` when there is nothing to mark.
pub fn mark_synced_query(ids: &Vec<i32>) -> (r: Option<String>)
    ensures
        match r {
            Some(q) => ids@.len() > 0 && q@ == mark_prefix() + joined(ids@) + ")"@,
            None => ids@.len() == 0,
        },
{
    if ids.len() == 0 {
        None
    } else {
        Some(in_list_statement("UPDATE log_table_sync_change SET status = 'synced', synced_at = NOW() WHERE id IN (", ids))
    }
}

} // verus!
