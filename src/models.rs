//! Source and target forms of the synchronised entities.

use vstd::prelude::*;
use crate::decimal::Decimal;
use crate::timestamp::Timestamp;

verus! {

/// A customer, the same in both stores.
#[derive(Clone, Debug, PartialEq, Eq)]
pub struct Customer {
    pub customer_id: i32,
    pub name: String,
    pub email: String,
    pub registered_on: Option<Timestamp>,
}

/// A product in the analytical store.
#[derive(Clone, Debug, PartialEq, Eq)]
pub struct Product {
    pub product_id: i32,
    pub product_code: String,
    pub name: String,
    pub department: String,
    pub category: String,
    pub selling_price: Decimal,
    pub current_stock: Decimal,
}

/// A receipt in the analytical store, referring to its customer by
/// surrogate id.
#[derive(Clone, Debug, PartialEq, Eq)]
pub struct Receipt {
    pub receipt_id: i32,
    pub receipt_no: i32,
    pub transaction_date: Option<Timestamp>,
    pub customer_id: Option<i32>,
    pub total_amount: Decimal,
    pub payment_channel: String,
}

/// A sale line in the analytical store, referring to its receipt and its
/// product by surrogate id.
#[derive(Clone, Debug, PartialEq, Eq)]
pub struct Sale {
    pub sale_id: i32,
    pub receipt_id: i32,
    pub product_id: i32,
    pub quantity: Decimal,
    pub selling_price: Decimal,
    pub total_sale: Decimal,
}

/// An entry of the market-trend feed.
#[derive(Clone, Debug, PartialEq, Eq)]
pub struct MarketTrend {
    pub id: i32,
    pub category: String,
    pub dish: String,
    pub source: String,
    pub popularity_score: i32,
    pub insight: String,
    pub trend_direction: Option<String>,
    pub last_updated: Option<Timestamp>,
}

/// A product as the operational store holds it: prices and stock as text.
#[derive(Clone, Debug, PartialEq, Eq)]
pub struct SourceProduct {
    pub product_id: i32,
    pub product_code: String,
    pub name: String,
    pub department: String,
    pub category: String,
    pub selling_price: String,
    pub current_stock: String,
}

/// A receipt as the operational store holds it: the customer by email, the
/// total as text.
#[derive(Clone, Debug, PartialEq, Eq)]
pub struct SourceReceipt {
    pub receipt_id: i32,
    pub receipt_no: i32,
    pub transaction_date: Option<Timestamp>,
    pub customer: Option<String>,
    pub total_amount: String,
    pub payment_channel: String,
}

/// A sale line as the operational store holds it: the receipt by receipt
/// number, the product by product code, the amounts as text.
#[derive(Clone, Debug, PartialEq, Eq)]
pub struct SourceSale {
    pub sale_id: i32,
    pub receipt_no: i32,
    pub product_code: String,
    pub quantity: String,
    pub selling_price: String,
    pub total_sale: String,
}

impl Customer {
    pub fn duplicate(&self) -> (r: Customer)
        ensures
            r == *self,
    {
        Customer {
            customer_id: self.customer_id,
            name: self.name.clone(),
            email: self.email.clone(),
            registered_on: self.registered_on,
        }
    }
}

pub fn copy_optional_text(s: &Option<String>) -> (r: Option<String>)
    ensures
        r == *s,
{
    match s {
        Some(t) => Some(t.clone()),
        None => None,
    }
}

impl SourceReceipt {
    pub fn duplicate(&self) -> (r: SourceReceipt)
        ensures
            r == *self,
    {
        SourceReceipt {
            receipt_id: self.receipt_id,
            receipt_no: self.receipt_no,
            transaction_date: self.transaction_date,
            customer: copy_optional_text(&self.customer),
            total_amount: self.total_amount.clone(),
            payment_channel: self.payment_channel.clone(),
        }
    }
}

impl SourceSale {
    pub fn duplicate(&self) -> (r: SourceSale)
        ensures
            r == *self,
    {
        SourceSale {
            sale_id: self.sale_id,
            receipt_no: self.receipt_no,
            product_code: self.product_code.clone(),
            quantity: self.quantity.clone(),
            selling_price: self.selling_price.clone(),
            total_sale: self.total_sale.clone(),
        }
    }
}

} // verus!
