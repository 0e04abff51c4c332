//! Per-table apply plans: which target records a table-group upserts and which source rows it skips, and the laws of replaying them.

use vstd::prelude::*;
use crate::decimal::{coerce_decimal, coerced};
use crate::models::{Customer, Product, Receipt, Sale, SourceProduct, SourceReceipt, SourceSale};
use crate::resolver::{number_lookup, text_lookup, NumberKeyIndex, TextKeyIndex};

verus! {

/// Position of the first `k` in `ids`.
pub open spec fn first_row(ids: Seq<i32>, k: i32) -> Option<int>
    decreases ids.len(),
{
    if ids.len() == 0 {
        None
    } else {
        match first_row(ids.drop_last(), k) {
            Some(p) => Some(p),
            None => if ids.last() == k {
                Some(ids.len() - 1)
            } else {
                None
            },
        }
    }
}

proof fn lemma_first_row_absent(ids: Seq<i32>, k: i32)
    requires
        forall|q: int| 0 <= q < ids.len() ==> ids[q] != k,
    ensures
        first_row(ids, k).is_none(),
    decreases ids.len(),
{
    if ids.len() > 0 {
        lemma_first_row_absent(ids.drop_last(), k);
    }
}

proof fn lemma_first_row_at(ids: Seq<i32>, k: i32, i: int)
    requires
        0 <= i < ids.len(),
        ids[i] == k,
        forall|q: int| 0 <= q < i ==> ids[q] != k,
    ensures
        first_row(ids, k) == Some(i),
    decreases ids.len(),
{
    if i < ids.len() - 1 {
        lemma_first_row_at(ids.drop_last(), k, i);
    } else {
        lemma_first_row_absent(ids.drop_last(), k);
    }
}

/// What `first_row` finds holds `k`.
pub proof fn lemma_first_row_found(ids: Seq<i32>, k: i32)
    ensures
        first_row(ids, k) matches Some(p) ==> 0 <= p < ids.len() && ids[p] == k,
    decreases ids.len(),
{
    if ids.len() > 0 {
        lemma_first_row_found(ids.drop_last(), k);
    }
}

/// Position of the first `k` in `ids`; `None` when it is absent.
pub fn find_row(ids: &Vec<i32>, k: i32) -> (r: Option<usize>)
    ensures
        match r {
            Some(p) => first_row(ids@, k) == Some(p as int),
            None => first_row(ids@, k).is_none(),
        },
{
    let mut i: usize = 0;
    while i < ids.len()
        invariant
            i <= ids@.len(),
            forall|q: int| 0 <= q < i ==> ids@[q] != k,
        decreases ids@.len() - i,
    {
        if ids[i] == k {
            proof {
                lemma_first_row_at(ids@, k, i as int);
            }
            return Some(i);
        }
        i = i + 1;
    }
    proof {
        lemma_first_row_absent(ids@, k);
    }
    None
}

/// What one table-group writes and what it leaves out: the records to
/// upsert, in order, and the source rows skipped for an unresolved
/// reference.
pub struct ApplyPlan<R, S> {
    pub upserts: Vec<R>,
    pub skipped: Vec<S>,
}

pub open spec fn customer_ids(rows: Seq<Customer>) -> Seq<i32> {
    rows.map_values(|c: Customer| c.customer_id)
}

pub open spec fn product_ids(rows: Seq<SourceProduct>) -> Seq<i32> {
    rows.map_values(|p: SourceProduct| p.product_id)
}

pub open spec fn receipt_ids(rows: Seq<SourceReceipt>) -> Seq<i32> {
    rows.map_values(|r: SourceReceipt| r.receipt_id)
}

pub open spec fn sale_ids(rows: Seq<SourceSale>) -> Seq<i32> {
    rows.map_values(|s: SourceSale| s.sale_id)
}

/// The customers to upsert: for each key in turn, the first fetched row with
/// that key. A key with no row contributes nothing.
pub open spec fn customers_to_apply(keys: Seq<i32>, rows: Seq<Customer>) -> Seq<Customer>
    decreases keys.len(),
{
    if keys.len() == 0 {
        seq![]
    } else {
        let prev = customers_to_apply(keys.drop_last(), rows);
        match first_row(customer_ids(rows), keys.last()) {
            Some(p) => prev.push(rows[p]),
            None => prev,
        }
    }
}

/// The target form of a product: prices and stock read tolerantly.
pub open spec fn product_record(row: SourceProduct) -> Product {
    Product {
        product_id: row.product_id,
        product_code: row.product_code,
        name: row.name,
        department: row.department,
        category: row.category,
        selling_price: coerced(row.selling_price@),
        current_stock: coerced(row.current_stock@),
    }
}

/// The products to upsert, in key order, as for customers.
pub open spec fn products_to_apply(keys: Seq<i32>, rows: Seq<SourceProduct>) -> Seq<Product>
    decreases keys.len(),
{
    if keys.len() == 0 {
        seq![]
    } else {
        let prev = products_to_apply(keys.drop_last(), rows);
        match first_row(product_ids(rows), keys.last()) {
            Some(p) => prev.push(product_record(rows[p])),
            None => prev,
        }
    }
}

/// The surrogate id of the receipt's customer, found by email.
pub open spec fn receipt_customer(row: SourceReceipt, customers: Seq<(String, i32)>) -> Option<i32> {
    match row.customer {
        Some(email) => text_lookup(customers, email@),
        None => None,
    }
}

/// The target form of a receipt whose customer has surrogate id `cid`.
pub open spec fn receipt_record(row: SourceReceipt, cid: i32) -> Receipt {
    Receipt {
        receipt_id: row.receipt_id,
        receipt_no: row.receipt_no,
        transaction_date: row.transaction_date,
        customer_id: Some(cid),
        total_amount: coerced(row.total_amount@),
        payment_channel: row.payment_channel,
    }
}

/// The receipts to upsert: in key order, those whose customer resolves.
pub open spec fn receipts_to_apply(keys: Seq<i32>, rows: Seq<SourceReceipt>, customers: Seq<(String, i32)>) -> Seq<Receipt>
    decreases keys.len(),
{
    if keys.len() == 0 {
        seq![]
    } else {
        let prev = receipts_to_apply(keys.drop_last(), rows, customers);
        match first_row(receipt_ids(rows), keys.last()) {
            Some(p) => match receipt_customer(rows[p], customers) {
                Some(cid) => prev.push(receipt_record(rows[p], cid)),
                None => prev,
            },
            None => prev,
        }
    }
}

/// The receipts left out: in key order, those whose customer does not
/// resolve.
pub open spec fn receipts_skipped(keys: Seq<i32>, rows: Seq<SourceReceipt>, customers: Seq<(String, i32)>) -> Seq<SourceReceipt>
    decreases keys.len(),
{
    if keys.len() == 0 {
        seq![]
    } else {
        let prev = receipts_skipped(keys.drop_last(), rows, customers);
        match first_row(receipt_ids(rows), keys.last()) {
            Some(p) => match receipt_customer(rows[p], customers) {
                Some(cid) => prev,
                None => prev.push(rows[p]),
            },
            None => prev,
        }
    }
}

/// The surrogate ids of the sale's receipt (by receipt number) and product
/// (by product code), when both resolve.
pub open spec fn sale_refs(row: SourceSale, receipts: Seq<(i32, i32)>, products: Seq<(String, i32)>) -> Option<(i32, i32)> {
    match (number_lookup(receipts, row.receipt_no), text_lookup(products, row.product_code@)) {
        (Some(rid), Some(pid)) => Some((rid, pid)),
        _ => None,
    }
}

/// The target form of a sale line with resolved receipt and product ids.
pub open spec fn sale_record(row: SourceSale, rid: i32, pid: i32) -> Sale {
    Sale {
        sale_id: row.sale_id,
        receipt_id: rid,
        product_id: pid,
        quantity: coerced(row.quantity@),
        selling_price: coerced(row.selling_price@),
        total_sale: coerced(row.total_sale@),
    }
}

/// The sale lines to upsert: in key order, those whose receipt and product
/// both resolve.
pub open spec fn sales_to_apply(keys: Seq<i32>, rows: Seq<SourceSale>, receipts: Seq<(i32, i32)>, products: Seq<(String, i32)>) -> Seq<Sale>
    decreases keys.len(),
{
    if keys.len() == 0 {
        seq![]
    } else {
        let prev = sales_to_apply(keys.drop_last(), rows, receipts, products);
        match first_row(sale_ids(rows), keys.last()) {
            Some(p) => match sale_refs(rows[p], receipts, products) {
                Some(ids) => prev.push(sale_record(rows[p], ids.0, ids.1)),
                None => prev,
            },
            None => prev,
        }
    }
}

/// The sale lines left out: in key order, those whose receipt or product
/// does not resolve.
pub open spec fn sales_skipped(keys: Seq<i32>, rows: Seq<SourceSale>, receipts: Seq<(i32, i32)>, products: Seq<(String, i32)>) -> Seq<SourceSale>
    decreases keys.len(),
{
    if keys.len() == 0 {
        seq![]
    } else {
        let prev = sales_skipped(keys.drop_last(), rows, receipts, products);
        match first_row(sale_ids(rows), keys.last()) {
            Some(p) => match sale_refs(rows[p], receipts, products) {
                Some(ids) => prev,
                None => prev.push(rows[p]),
            },
            None => prev,
        }
    }
}

fn customer_id_list(rows: &Vec<Customer>) -> (r: Vec<i32>)
    ensures
        r@ == customer_ids(rows@),
{
    let mut r: Vec<i32> = Vec::new();
    let mut i: usize = 0;
    while i < rows.len()
        invariant
            i <= rows@.len(),
            r@.len() == i,
            forall|q: int| 0 <= q < i ==> r@[q] == rows@[q].customer_id,
        decreases rows@.len() - i,
    {
        r.push(rows[i].customer_id);
        i = i + 1;
    }
    assert(r@ =~= customer_ids(rows@));
    r
}

fn product_id_list(rows: &Vec<SourceProduct>) -> (r: Vec<i32>)
    ensures
        r@ == product_ids(rows@),
{
    let mut r: Vec<i32> = Vec::new();
    let mut i: usize = 0;
    while i < rows.len()
        invariant
            i <= rows@.len(),
            r@.len() == i,
            forall|q: int| 0 <= q < i ==> r@[q] == rows@[q].product_id,
        decreases rows@.len() - i,
    {
        r.push(rows[i].product_id);
        i = i + 1;
    }
    assert(r@ =~= product_ids(rows@));
    r
}

fn receipt_id_list(rows: &Vec<SourceReceipt>) -> (r: Vec<i32>)
    ensures
        r@ == receipt_ids(rows@),
{
    let mut r: Vec<i32> = Vec::new();
    let mut i: usize = 0;
    while i < rows.len()
        invariant
            i <= rows@.len(),
            r@.len() == i,
            forall|q: int| 0 <= q < i ==> r@[q] == rows@[q].receipt_id,
        decreases rows@.len() - i,
    {
        r.push(rows[i].receipt_id);
        i = i + 1;
    }
    assert(r@ =~= receipt_ids(rows@));
    r
}

fn sale_id_list(rows: &Vec<SourceSale>) -> (r: Vec<i32>)
    ensures
        r@ == sale_ids(rows@),
{
    let mut r: Vec<i32> = Vec::new();
    let mut i: usize = 0;
    while i < rows.len()
        invariant
            i <= rows@.len(),
            r@.len() == i,
            forall|q: int| 0 <= q < i ==> r@[q] == rows@[q].sale_id,
        decreases rows@.len() - i,
    {
        r.push(rows[i].sale_id);
        i = i + 1;
    }
    assert(r@ =~= sale_ids(rows@));
    r
}

/// The customers that a table-group upserts: for each requested key in
/// turn, the fetched row with that key. A key whose row no longer exists
/// contributes nothing and is no error.
pub fn plan_customers(keys: &Vec<i32>, rows: &Vec<Customer>) -> (r: Vec<Customer>)
    ensures
        r@ == customers_to_apply(keys@, rows@),
{
    let ids = customer_id_list(rows);
    let mut out: Vec<Customer> = Vec::new();
    let mut t: usize = 0;
    while t < keys.len()
        invariant
            t <= keys@.len(),
            ids@ == customer_ids(rows@),
            out@ == customers_to_apply(keys@.take(t as int), rows@),
        decreases keys@.len() - t,
    {
        assert(keys@.take(t + 1).drop_last() =~= keys@.take(t as int));
        proof {
            lemma_first_row_found(ids@, keys@[t as int]);
        }
        match find_row(&ids, keys[t]) {
            Some(p) => {
                out.push(rows[p].duplicate());
            },
            None => {},
        }
        t = t + 1;
    }
    assert(keys@.take(keys@.len() as int) =~= keys@);
    out
}

/// The target form of a fetched product.
pub fn to_product(row: &SourceProduct) -> (r: Product)
    ensures
        r == product_record(*row),
{
    Product {
        product_id: row.product_id,
        product_code: row.product_code.clone(),
        name: row.name.clone(),
        department: row.department.clone(),
        category: row.category.clone(),
        selling_price: coerce_decimal(row.selling_price.as_str()),
        current_stock: coerce_decimal(row.current_stock.as_str()),
    }
}

/// The products that a table-group upserts, in key order, with prices and
/// stock read tolerantly.
pub fn plan_products(keys: &Vec<i32>, rows: &Vec<SourceProduct>) -> (r: Vec<Product>)
    ensures
        r@ == products_to_apply(keys@, rows@),
{
    let ids = product_id_list(rows);
    let mut out: Vec<Product> = Vec::new();
    let mut t: usize = 0;
    while t < keys.len()
        invariant
            t <= keys@.len(),
            ids@ == product_ids(rows@),
            out@ == products_to_apply(keys@.take(t as int), rows@),
        decreases keys@.len() - t,
    {
        assert(keys@.take(t + 1).drop_last() =~= keys@.take(t as int));
        proof {
            lemma_first_row_found(ids@, keys@[t as int]);
        }
        match find_row(&ids, keys[t]) {
            Some(p) => {
                out.push(to_product(&rows[p]));
            },
            None => {},
        }
        t = t + 1;
    }
    assert(keys@.take(keys@.len() as int) =~= keys@);
    out
}

/// The surrogate id of the receipt's customer; `None` when the receipt names
/// no customer or the email did not resolve.
pub fn resolve_customer(row: &SourceReceipt, customers: &TextKeyIndex) -> (r: Option<i32>)
    ensures
        r == receipt_customer(*row, customers.pairs@),
{
    match &row.customer {
        Some(email) => customers.get(email.as_str()),
        None => None,
    }
}

/// The target form of a fetched receipt whose customer has id `cid`.
pub fn to_receipt(row: &SourceReceipt, cid: i32) -> (r: Receipt)
    ensures
        r == receipt_record(*row, cid),
{
    Receipt {
        receipt_id: row.receipt_id,
        receipt_no: row.receipt_no,
        transaction_date: row.transaction_date,
        customer_id: Some(cid),
        total_amount: coerce_decimal(row.total_amount.as_str()),
        payment_channel: row.payment_channel.clone(),
    }
}

/// The receipts that a table-group upserts and those it skips, in key order.
/// A receipt whose customer does not resolve is never written: it goes to
/// the skipped list, for the remediation log.
pub fn plan_receipts(keys: &Vec<i32>, rows: &Vec<SourceReceipt>, customers: &TextKeyIndex) -> (r: ApplyPlan<Receipt, SourceReceipt>)
    ensures
        r.upserts@ == receipts_to_apply(keys@, rows@, customers.pairs@),
        r.skipped@ == receipts_skipped(keys@, rows@, customers.pairs@),
{
    let ids = receipt_id_list(rows);
    let mut upserts: Vec<Receipt> = Vec::new();
    let mut skipped: Vec<SourceReceipt> = Vec::new();
    let mut t: usize = 0;
    while t < keys.len()
        invariant
            t <= keys@.len(),
            ids@ == receipt_ids(rows@),
            upserts@ == receipts_to_apply(keys@.take(t as int), rows@, customers.pairs@),
            skipped@ == receipts_skipped(keys@.take(t as int), rows@, customers.pairs@),
        decreases keys@.len() - t,
    {
        assert(keys@.take(t + 1).drop_last() =~= keys@.take(t as int));
        proof {
            lemma_first_row_found(ids@, keys@[t as int]);
        }
        match find_row(&ids, keys[t]) {
            Some(p) => match resolve_customer(&rows[p], customers) {
                Some(cid) => {
                    upserts.push(to_receipt(&rows[p], cid));
                },
                None => {
                    skipped.push(rows[p].duplicate());
                },
            },
            None => {},
        }
        t = t + 1;
    }
    assert(keys@.take(keys@.len() as int) =~= keys@);
    ApplyPlan { upserts, skipped }
}

/// The surrogate ids of the sale's receipt and product; `None` unless both
/// resolve.
pub fn resolve_sale(row: &SourceSale, receipts: &NumberKeyIndex, products: &TextKeyIndex) -> (r: Option<(i32, i32)>)
    ensures
        r == sale_refs(*row, receipts.pairs@, products.pairs@),
{
    match (receipts.get(row.receipt_no), products.get(row.product_code.as_str())) {
        (Some(rid), Some(pid)) => Some((rid, pid)),
        _ => None,
    }
}

/// The target form of a fetched sale line with resolved ids.
pub fn to_sale(row: &SourceSale, rid: i32, pid: i32) -> (r: Sale)
    ensures
        r == sale_record(*row, rid, pid),
{
    Sale {
        sale_id: row.sale_id,
        receipt_id: rid,
        product_id: pid,
        quantity: coerce_decimal(row.quantity.as_str()),
        selling_price: coerce_decimal(row.selling_price.as_str()),
        total_sale: coerce_decimal(row.total_sale.as_str()),
    }
}

/// The sale lines that a table-group upserts and those it skips, in key
/// order. A line whose receipt number or product code does not resolve is
/// never written: it goes to the skipped list, for the remediation log.
pub fn plan_sales(keys: &Vec<i32>, rows: &Vec<SourceSale>, receipts: &NumberKeyIndex, products: &TextKeyIndex) -> (r: ApplyPlan<Sale, SourceSale>)
    ensures
        r.upserts@ == sales_to_apply(keys@, rows@, receipts.pairs@, products.pairs@),
        r.skipped@ == sales_skipped(keys@, rows@, receipts.pairs@, products.pairs@),
{
    let ids = sale_id_list(rows);
    let mut upserts: Vec<Sale> = Vec::new();
    let mut skipped: Vec<SourceSale> = Vec::new();
    let mut t: usize = 0;
    while t < keys.len()
        invariant
            t <= keys@.len(),
            ids@ == sale_ids(rows@),
            upserts@ == sales_to_apply(keys@.take(t as int), rows@, receipts.pairs@, products.pairs@),
            skipped@ == sales_skipped(keys@.take(t as int), rows@, receipts.pairs@, products.pairs@),
        decreases keys@.len() - t,
    {
        assert(keys@.take(t + 1).drop_last() =~= keys@.take(t as int));
        proof {
            lemma_first_row_found(ids@, keys@[t as int]);
        }
        match find_row(&ids, keys[t]) {
            Some(p) => match resolve_sale(&rows[p], receipts, products) {
                Some(refs) => {
                    upserts.push(to_sale(&rows[p], refs.0, refs.1));
                },
                None => {
                    skipped.push(rows[p].duplicate());
                },
            },
            None => {},
        }
        t = t + 1;
    }
    assert(keys@.take(keys@.len() as int) =~= keys@);
    ApplyPlan { upserts, skipped }
}

/// A target table after upserting `records` in order: each record replaces
/// whatever row its key held, every non-key column included.
pub open spec fn upsert_all<R>(table: Map<int, R>, records: Seq<R>, key: spec_fn(R) -> int) -> Map<int, R>
    decreases records.len(),
{
    if records.len() == 0 {
        table
    } else {
        upsert_all(table, records.drop_last(), key).insert(key(records.last()), records.last())
    }
}

proof fn lemma_upsert_all_overlay<R>(table: Map<int, R>, records: Seq<R>, key: spec_fn(R) -> int)
    ensures
        upsert_all(table, records, key) == table.union_prefer_right(upsert_all(Map::empty(), records, key)),
    decreases records.len(),
{
    if records.len() == 0 {
        assert(table.union_prefer_right(Map::empty()) =~= table);
    } else {
        lemma_upsert_all_overlay(table, records.drop_last(), key);
        assert(upsert_all(table, records, key) =~= table.union_prefer_right(upsert_all(Map::empty(), records, key)));
    }
}

/// Upserts are idempotent: applying the same records a second time, with
/// nothing changed at the source, leaves every row of the target table as
/// the first application left it. This is what makes retrying a whole
/// table-group harmless.
pub proof fn lemma_upsert_replay_idempotent<R>(table: Map<int, R>, records: Seq<R>, key: spec_fn(R) -> int)
    ensures
        upsert_all(upsert_all(table, records, key), records, key) == upsert_all(table, records, key),
{
    let once = upsert_all(table, records, key);
    let fresh = upsert_all(Map::<int, R>::empty(), records, key);
    lemma_upsert_all_overlay(table, records, key);
    lemma_upsert_all_overlay(once, records, key);
    assert(once.union_prefer_right(fresh) =~= once);
}

/// A receipt whose customer does not resolve is never written.
proof fn lemma_unresolved_receipt_not_written(keys: Seq<i32>, rows: Seq<SourceReceipt>, customers: Seq<(String, i32)>, k: i32, p: int)
    requires
        first_row(receipt_ids(rows), k) == Some(p),
        receipt_customer(rows[p], customers).is_none(),
    ensures
        forall|i: int| 0 <= i < receipts_to_apply(keys, rows, customers).len() ==>
            (#[trigger] receipts_to_apply(keys, rows, customers)[i]).receipt_id != k,
    decreases keys.len(),
{
    if keys.len() > 0 {
        lemma_unresolved_receipt_not_written(keys.drop_last(), rows, customers, k, p);
        lemma_first_row_found(receipt_ids(rows), keys.last());
        lemma_first_row_found(receipt_ids(rows), k);
    }
}

proof fn lemma_unresolved_receipt_listed(keys: Seq<i32>, rows: Seq<SourceReceipt>, customers: Seq<(String, i32)>, k: i32, p: int)
    requires
        keys.contains(k),
        first_row(receipt_ids(rows), k) == Some(p),
        receipt_customer(rows[p], customers).is_none(),
    ensures
        receipts_skipped(keys, rows, customers).contains(rows[p]),
    decreases keys.len(),
{
    let prev = receipts_skipped(keys.drop_last(), rows, customers);
    let now = receipts_skipped(keys, rows, customers);
    if keys.last() == k {
        assert(now == prev.push(rows[p]));
        assert(now[now.len() - 1] == rows[p]);
    } else {
        let a = choose|a: int| 0 <= a < keys.len() && keys[a] == k;
        assert(keys.drop_last()[a] == k);
        lemma_unresolved_receipt_listed(keys.drop_last(), rows, customers, k, p);
        let b = choose|b: int| 0 <= b < prev.len() && prev[b] == rows[p];
        assert(now[b] == prev[b]);
    }
}

/// Skip on an unresolved reference: a requested receipt whose customer
/// email has no surrogate id in the target store is not among the records
/// written, and its source row is among those handed to the remediation
/// log.
pub proof fn lemma_unresolved_receipt_skipped(keys: Seq<i32>, rows: Seq<SourceReceipt>, customers: Seq<(String, i32)>, k: i32, p: int)
    requires
        keys.contains(k),
        first_row(receipt_ids(rows), k) == Some(p),
        receipt_customer(rows[p], customers).is_none(),
    ensures
        forall|i: int| 0 <= i < receipts_to_apply(keys, rows, customers).len() ==>
            (#[trigger] receipts_to_apply(keys, rows, customers)[i]).receipt_id != k,
        receipts_skipped(keys, rows, customers).contains(rows[p]),
{
    lemma_unresolved_receipt_not_written(keys, rows, customers, k, p);
    lemma_unresolved_receipt_listed(keys, rows, customers, k, p);
}

/// Re-running a table-group converges: upserting the plan that the same
/// source rows and lookups give a second time leaves every target table as
/// the first run left it, for each of the four tables.
pub proof fn lemma_group_replay_converges(
    keys: Seq<i32>,
    customer_table: Map<int, Customer>,
    customer_rows: Seq<Customer>,
    product_table: Map<int, Product>,
    product_rows: Seq<SourceProduct>,
    receipt_table: Map<int, Receipt>,
    receipt_rows: Seq<SourceReceipt>,
    customers: Seq<(String, i32)>,
    sale_table: Map<int, Sale>,
    sale_rows: Seq<SourceSale>,
    receipts: Seq<(i32, i32)>,
    products: Seq<(String, i32)>,
)
    ensures
        ({
            let plan = customers_to_apply(keys, customer_rows);
            let key = |c: Customer| c.customer_id as int;
            upsert_all(upsert_all(customer_table, plan, key), plan, key) == upsert_all(customer_table, plan, key)
        }),
        ({
            let plan = products_to_apply(keys, product_rows);
            let key = |p: Product| p.product_id as int;
            upsert_all(upsert_all(product_table, plan, key), plan, key) == upsert_all(product_table, plan, key)
        }),
        ({
            let plan = receipts_to_apply(keys, receipt_rows, customers);
            let key = |r: Receipt| r.receipt_id as int;
            upsert_all(upsert_all(receipt_table, plan, key), plan, key) == upsert_all(receipt_table, plan, key)
        }),
        ({
            let plan = sales_to_apply(keys, sale_rows, receipts, products);
            let key = |s: Sale| s.sale_id as int;
            upsert_all(upsert_all(sale_table, plan, key), plan, key) == upsert_all(sale_table, plan, key)
        }),
{
    lemma_upsert_replay_idempotent(customer_table, customers_to_apply(keys, customer_rows), |c: Customer| c.customer_id as int);
    lemma_upsert_replay_idempotent(product_table, products_to_apply(keys, product_rows), |p: Product| p.product_id as int);
    lemma_upsert_replay_idempotent(receipt_table, receipts_to_apply(keys, receipt_rows, customers), |r: Receipt| r.receipt_id as int);
    lemma_upsert_replay_idempotent(sale_table, sales_to_apply(keys, sale_rows, receipts, products), |s: Sale| s.sale_id as int);
}

} // verus!
