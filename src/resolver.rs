//! Business-key indexes for resolving references to surrogate ids.

use vstd::prelude::*;
use crate::models::{SourceReceipt, SourceSale};
use crate::text::same_text;

verus! {

/// The id that the pairs give `key`: the last pair with that key wins.
pub open spec fn text_lookup(pairs: Seq<(String, i32)>, key: Seq<char>) -> Option<i32>
    decreases pairs.len(),
{
    if pairs.len() == 0 {
        None
    } else if pairs.last().0@ == key {
        Some(pairs.last().1)
    } else {
        text_lookup(pairs.drop_last(), key)
    }
}

/// The id that the pairs give `key`: the last pair with that key wins.
pub open spec fn number_lookup(pairs: Seq<(i32, i32)>, key: i32) -> Option<i32>
    decreases pairs.len(),
{
    if pairs.len() == 0 {
        None
    } else if pairs.last().0 == key {
        Some(pairs.last().1)
    } else {
        number_lookup(pairs.drop_last(), key)
    }
}

/// Surrogate ids of the analytical store by a text business key (an email,
/// a product code), built from one batched lookup and dropped after use.
pub struct TextKeyIndex {
    pub pairs: Vec<(String, i32)>,
}

/// Surrogate ids of the analytical store by a numeric business key (a
/// receipt number), built from one batched lookup and dropped after use.
pub struct NumberKeyIndex {
    pub pairs: Vec<(i32, i32)>,
}

proof fn lemma_text_lookup_suffix(pairs: Seq<(String, i32)>, key: Seq<char>, i: int)
    requires
        0 <= i <= pairs.len(),
        forall|j: int| i <= j < pairs.len() ==> (#[trigger] pairs[j]).0@ != key,
    ensures
        text_lookup(pairs, key) == text_lookup(pairs.take(i), key),
    decreases pairs.len() - i,
{
    if i < pairs.len() {
        assert(pairs.drop_last().take(i) =~= pairs.take(i));
        lemma_text_lookup_suffix(pairs.drop_last(), key, i);
    } else {
        assert(pairs.take(i) =~= pairs);
    }
}

proof fn lemma_number_lookup_suffix(pairs: Seq<(i32, i32)>, key: i32, i: int)
    requires
        0 <= i <= pairs.len(),
        forall|j: int| i <= j < pairs.len() ==> (#[trigger] pairs[j]).0 != key,
    ensures
        number_lookup(pairs, key) == number_lookup(pairs.take(i), key),
    decreases pairs.len() - i,
{
    if i < pairs.len() {
        assert(pairs.drop_last().take(i) =~= pairs.take(i));
        lemma_number_lookup_suffix(pairs.drop_last(), key, i);
    } else {
        assert(pairs.take(i) =~= pairs);
    }
}

/// The pairs of a lookup result whose key is present, in order.
pub open spec fn present_text_pairs(rows: Seq<(Option<String>, i32)>) -> Seq<(String, i32)>
    decreases rows.len(),
{
    if rows.len() == 0 {
        seq![]
    } else {
        match rows.last().0 {
            Some(k) => present_text_pairs(rows.drop_last()).push((k, rows.last().1)),
            None => present_text_pairs(rows.drop_last()),
        }
    }
}

/// The pairs of a lookup result whose key is present, in order.
pub open spec fn present_number_pairs(rows: Seq<(Option<i32>, i32)>) -> Seq<(i32, i32)>
    decreases rows.len(),
{
    if rows.len() == 0 {
        seq![]
    } else {
        match rows.last().0 {
            Some(k) => present_number_pairs(rows.drop_last()).push((k, rows.last().1)),
            None => present_number_pairs(rows.drop_last()),
        }
    }
}

impl TextKeyIndex {
    pub fn new() -> (r: TextKeyIndex)
        ensures
            r.pairs@.len() == 0,
    {
        TextKeyIndex { pairs: Vec::new() }
    }

    /// The index of a lookup result of `(business key, surrogate id)` rows;
    /// a row whose key is NULL is left out.
    pub fn from_lookup(rows: &Vec<(Option<String>, i32)>) -> (r: TextKeyIndex)
        ensures
            r.pairs@ == present_text_pairs(rows@),
    {
        let mut r = TextKeyIndex::new();
        let mut i: usize = 0;
        while i < rows.len()
            invariant
                i <= rows@.len(),
                r.pairs@ == present_text_pairs(rows@.take(i as int)),
            decreases rows@.len() - i,
        {
            assert(rows@.take(i + 1).drop_last() =~= rows@.take(i as int));
            match &rows[i].0 {
                Some(k) => r.insert(k.clone(), rows[i].1),
                None => {},
            }
            i = i + 1;
        }
        assert(rows@.take(rows@.len() as int) =~= rows@);
        r
    }

    /// Records that `key` has surrogate id `id`; a later record for the same
    /// key takes precedence.
    pub fn insert(&mut self, key: String, id: i32)
        ensures
            final(self).pairs@ == old(self).pairs@.push((key, id)),
    {
        self.pairs.push((key, id));
    }

    /// The surrogate id of `key`; `None` when the lookup found no match.
    pub fn get(&self, key: &str) -> (r: Option<i32>)
        ensures
            r == text_lookup(self.pairs@, key@),
    {
        let mut i: usize = self.pairs.len();
        while i > 0
            invariant
                i <= self.pairs@.len(),
                forall|j: int| i <= j < self.pairs@.len() ==> (#[trigger] self.pairs@[j]).0@ != key@,
            decreases i,
        {
            if same_text(self.pairs[i - 1].0.as_str(), key) {
                proof {
                    lemma_text_lookup_suffix(self.pairs@, key@, i as int);
                    assert(self.pairs@.take(i as int).drop_last() =~= self.pairs@.take(i - 1));
                }
                return Some(self.pairs[i - 1].1);
            }
            i = i - 1;
        }
        proof {
            lemma_text_lookup_suffix(self.pairs@, key@, 0);
        }
        None
    }
}

impl NumberKeyIndex {
    pub fn new() -> (r: NumberKeyIndex)
        ensures
            r.pairs@.len() == 0,
    {
        NumberKeyIndex { pairs: Vec::new() }
    }

    /// The index of a lookup result of `(business key, surrogate id)` rows;
    /// a row whose key is NULL is left out.
    pub fn from_lookup(rows: &Vec<(Option<i32>, i32)>) -> (r: NumberKeyIndex)
        ensures
            r.pairs@ == present_number_pairs(rows@),
    {
        let mut r = NumberKeyIndex::new();
        let mut i: usize = 0;
        while i < rows.len()
            invariant
                i <= rows@.len(),
                r.pairs@ == present_number_pairs(rows@.take(i as int)),
            decreases rows@.len() - i,
        {
            assert(rows@.take(i + 1).drop_last() =~= rows@.take(i as int));
            match rows[i].0 {
                Some(k) => r.insert(k, rows[i].1),
                None => {},
            }
            i = i + 1;
        }
        assert(rows@.take(rows@.len() as int) =~= rows@);
        r
    }

    /// Records that `key` has surrogate id `id`; a later record for the same
    /// key takes precedence.
    pub fn insert(&mut self, key: i32, id: i32)
        ensures
            final(self).pairs@ == old(self).pairs@.push((key, id)),
    {
        self.pairs.push((key, id));
    }

    /// The surrogate id of `key`; `None` when the lookup found no match.
    pub fn get(&self, key: i32) -> (r: Option<i32>)
        ensures
            r == number_lookup(self.pairs@, key),
    {
        let mut i: usize = self.pairs.len();
        while i > 0
            invariant
                i <= self.pairs@.len(),
                forall|j: int| i <= j < self.pairs@.len() ==> (#[trigger] self.pairs@[j]).0 != key,
            decreases i,
        {
            if self.pairs[i - 1].0 == key {
                proof {
                    lemma_number_lookup_suffix(self.pairs@, key, i as int);
                    assert(self.pairs@.take(i as int).drop_last() =~= self.pairs@.take(i - 1));
                }
                return Some(self.pairs[i - 1].1);
            }
            i = i - 1;
        }
        proof {
            lemma_number_lookup_suffix(self.pairs@, key, 0);
        }
        None
    }
}

/// The texts of a list of strings.
pub open spec fn texts(list: Seq<String>) -> Seq<Seq<char>> {
    list.map_values(|s: String| s@)
}

/// `seen` with `k` appended, unless it holds `k` already.
pub open spec fn add_once<T>(seen: Seq<T>, k: T) -> Seq<T> {
    if seen.contains(k) {
        seen
    } else {
        seen.push(k)
    }
}

/// The customer emails that the receipts refer to, each once, in order of
/// first reference.
pub open spec fn emails_in(rows: Seq<SourceReceipt>) -> Seq<Seq<char>>
    decreases rows.len(),
{
    if rows.len() == 0 {
        seq![]
    } else {
        match rows.last().customer {
            Some(e) => add_once(emails_in(rows.drop_last()), e@),
            None => emails_in(rows.drop_last()),
        }
    }
}

/// The product codes that the sale lines refer to, each once, in order of
/// first reference.
pub open spec fn codes_in(rows: Seq<SourceSale>) -> Seq<Seq<char>>
    decreases rows.len(),
{
    if rows.len() == 0 {
        seq![]
    } else {
        add_once(codes_in(rows.drop_last()), rows.last().product_code@)
    }
}

/// The receipt numbers that the sale lines refer to, each once, in order of
/// first reference.
pub open spec fn receipt_numbers_in(rows: Seq<SourceSale>) -> Seq<i32>
    decreases rows.len(),
{
    if rows.len() == 0 {
        seq![]
    } else {
        add_once(receipt_numbers_in(rows.drop_last()), rows.last().receipt_no)
    }
}

/// Appends `key` unless the list holds its text already.
fn add_text_once(list: &mut Vec<String>, key: &String)
    ensures
        texts(final(list)@) == add_once(texts(old(list)@), key@),
{
    let ghost before = texts(list@);
    let mut a: usize = 0;
    while a < list.len()
        invariant
            a <= list@.len(),
            list@ == old(list)@,
            before == texts(list@),
            forall|b: int| 0 <= b < a ==> (#[trigger] list@[b])@ != key@,
        decreases list@.len() - a,
    {
        if list[a] == *key {
            assert(before[a as int] == key@);
            return;
        }
        a = a + 1;
    }
    assert(!before.contains(key@)) by {
        if before.contains(key@) {
            let b = choose|b: int| 0 <= b < before.len() && before[b] == key@;
            assert(list@[b]@ == key@);
        }
    }
    list.push(key.clone());
    assert(texts(list@) =~= before.push(key@));
}

pub(crate) fn add_number_once(list: &mut Vec<i32>, key: i32)
    ensures
        final(list)@ == add_once(old(list)@, key),
{
    let mut a: usize = 0;
    while a < list.len()
        invariant
            a <= list@.len(),
            list@ == old(list)@,
            forall|b: int| 0 <= b < a ==> list@[b] != key,
        decreases list@.len() - a,
    {
        if list[a] == key {
            assert(list@[a as int] == key);
            return;
        }
        a = a + 1;
    }
    list.push(key);
}

/// The customer emails that the receipts refer to, each once, in order of
/// first reference: the keys of the one batched customer lookup.
pub fn receipt_customer_emails(rows: &Vec<SourceReceipt>) -> (r: Vec<String>)
    ensures
        texts(r@) == emails_in(rows@),
{
    let mut r: Vec<String> = Vec::new();
    assert(texts(r@) =~= Seq::<Seq<char>>::empty());
    let mut j: usize = 0;
    while j < rows.len()
        invariant
            j <= rows@.len(),
            texts(r@) == emails_in(rows@.take(j as int)),
        decreases rows@.len() - j,
    {
        assert(rows@.take(j + 1).drop_last() =~= rows@.take(j as int));
        match &rows[j].customer {
            Some(e) => {
                add_text_once(&mut r, e);
            },
            None => {},
        }
        j = j + 1;
    }
    assert(rows@.take(rows@.len() as int) =~= rows@);
    r
}

/// The product codes that the sale lines refer to, each once, in order of
/// first reference: the keys of the one batched product lookup.
pub fn sale_product_codes(rows: &Vec<SourceSale>) -> (r: Vec<String>)
    ensures
        texts(r@) == codes_in(rows@),
{
    let mut r: Vec<String> = Vec::new();
    assert(texts(r@) =~= Seq::<Seq<char>>::empty());
    let mut j: usize = 0;
    while j < rows.len()
        invariant
            j <= rows@.len(),
            texts(r@) == codes_in(rows@.take(j as int)),
        decreases rows@.len() - j,
    {
        assert(rows@.take(j + 1).drop_last() =~= rows@.take(j as int));
        add_text_once(&mut r, &rows[j].product_code);
        j = j + 1;
    }
    assert(rows@.take(rows@.len() as int) =~= rows@);
    r
}

/// The receipt numbers that the sale lines refer to, each once, in order
/// of first reference: the keys of the one batched receipt lookup.
pub fn sale_receipt_numbers(rows: &Vec<SourceSale>) -> (r: Vec<i32>)
    ensures
        r@ == receipt_numbers_in(rows@),
{
    let mut r: Vec<i32> = Vec::new();
    let mut j: usize = 0;
    while j < rows.len()
        invariant
            j <= rows@.len(),
            r@ == receipt_numbers_in(rows@.take(j as int)),
        decreases rows@.len() - j,
    {
        assert(rows@.take(j + 1).drop_last() =~= rows@.take(j as int));
        add_number_once(&mut r, rows[j].receipt_no);
        j = j + 1;
    }
    assert(rows@.take(rows@.len() as int) =~= rows@);
    r
}

} // verus!
