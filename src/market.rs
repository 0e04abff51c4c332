//! The simulated market-trend feed.

use vstd::prelude::*;
use crate::models::MarketTrend;

verus! {

/// `t` is a fresh feed entry (no id, never updated) with these fields.
pub open spec fn is_trend(
    t: MarketTrend,
    category: Seq<char>,
    dish: Seq<char>,
    source: Seq<char>,
    score: i32,
    insight: Seq<char>,
    direction: Seq<char>,
) -> bool {
    &&& t.id == 0
    &&& t.category@ == category
    &&& t.dish@ == dish
    &&& t.source@ == source
    &&& t.popularity_score == score
    &&& t.insight@ == insight
    &&& match t.trend_direction {
        Some(d) => d@ == direction,
        None => false,
    }
    &&& t.last_updated.is_none()
}

fn trend(category: &str, dish: &str, source: &str, score: i32, insight: &str, direction: &str) -> (r: MarketTrend)
    ensures
        is_trend(r, category@, dish@, source@, score, insight@, direction@),
{
    MarketTrend {
        id: 0,
        category: String::from_str(category),
        dish: String::from_str(dish),
        source: String::from_str(source),
        popularity_score: score,
        insight: String::from_str(insight),
        trend_direction: Some(String::from_str(direction)),
        last_updated: None,
    }
}

/// The seafood trend counts as rising above a score of 80.
pub open spec fn seafood_direction(score: i32) -> Seq<char> {
    if score > 80 {
        "up"@
    } else {
        "stable"@
    }
}

/// The simulated market feed for one scan, from the scores drawn for it:
/// three standing trends, and a breakout trend when one was drawn.
pub fn mock_trends(delivery_score: i32, street_food_score: i32, seafood_score: i32, breakout_score: Option<i32>) -> (r: Vec<MarketTrend>)
    ensures
        r@.len() == if breakout_score.is_some() { 4int } else { 3int },
        is_trend(r@[0], "Delivery (Glovo/UberEats)"@, "Chicken Tikka Masala"@, "Glovo Trends 2024"@, delivery_score,
            "Consistently top-ordered dinner item across Nairobi."@, "stable"@),
        is_trend(r@[1], "Street Food"@, "Smocha (Smokie + Chapati)"@, "Nairobi Street Food Index"@, street_food_score,
            "Rapidly growing budget lunch option."@, "up"@),
        is_trend(r@[2], "Fine Dining"@, "Ginger Crab Claws"@, "Tamarind Nairobi"@, seafood_score,
            "Premium seafood choice in high-end zones."@, seafood_direction(seafood_score)),
        match breakout_score {
            Some(b) => is_trend(r@[3], "Viral Social Media"@, "Crunchy Korean Fried Chicken"@, "TikTok Kenya"@, b,
                "Exploding popularity on TikTok due to new Mukbang challenges."@, "up"@),
            None => true,
        },
{
    let mut r: Vec<MarketTrend> = Vec::new();
    r.push(trend("Delivery (Glovo/UberEats)", "Chicken Tikka Masala", "Glovo Trends 2024", delivery_score,
        "Consistently top-ordered dinner item across Nairobi.", "stable"));
    r.push(trend("Street Food", "Smocha (Smokie + Chapati)", "Nairobi Street Food Index", street_food_score,
        "Rapidly growing budget lunch option.", "up"));
    let direction = if seafood_score > 80 {
        "up"
    } else {
        "stable"
    };
    r.push(trend("Fine Dining", "Ginger Crab Claws", "Tamarind Nairobi", seafood_score,
        "Premium seafood choice in high-end zones.", direction));
    match breakout_score {
        Some(b) => {
            r.push(trend("Viral Social Media", "Crunchy Korean Fried Chicken", "TikTok Kenya", b,
                "Exploding popularity on TikTok due to new Mukbang challenges.", "up"));
        },
        None => {},
    }
    r
}

} // verus!
