//! Candidate generation, combinations and support counting for association-rule mining over integer item ids.

use vstd::prelude::*;
use crate::resolver::{add_number_once, add_once};

verus! {

pub open spec fn strictly_increasing(s: Seq<i32>) -> bool {
    forall|a: int, b: int| 0 <= a < b < s.len() ==> s[a] < s[b]
}

/// `s` with `x` put before the first element not smaller than it: for a
/// sorted `s`, the sorted form of `s` with `x` added.
pub open spec fn sorted_insert(s: Seq<i32>, x: i32) -> Seq<i32>
    decreases s.len(),
{
    if s.len() == 0 {
        seq![x]
    } else if x <= s[0] {
        seq![x] + s
    } else {
        seq![s[0]] + sorted_insert(s.drop_first(), x)
    }
}

/// The `k`-element combinations of `items`, each in sorted form: first
/// those without `items[0]`, then those with it.
pub open spec fn combos(items: Seq<i32>, k: nat) -> Seq<Seq<i32>>
    decreases items.len(),
{
    if k == 0 {
        seq![seq![]]
    } else if items.len() == 0 {
        seq![]
    } else {
        combos(items.drop_first(), k) + combos(items.drop_first(), (k - 1) as nat).map_values(
            |c: Seq<i32>| sorted_insert(c, items[0]),
        )
    }
}

/// A new vector holding `c` with `x` inserted before the first element not
/// smaller than it.
fn with_inserted(c: &Vec<i32>, x: i32) -> (r: Vec<i32>)
    ensures
        r@ == sorted_insert(c@, x),
{
    let mut r: Vec<i32> = Vec::new();
    let mut i: usize = 0;
    assert(c@.take(0) =~= Seq::<i32>::empty());
    assert(c@.skip(0) =~= c@);
    assert(sorted_insert(c@, x) =~= c@.take(0) + sorted_insert(c@.skip(0), x));
    while i < c.len() && c[i] < x
        invariant
            i <= c@.len(),
            r@ == c@.take(i as int),
            forall|q: int| 0 <= q < i ==> c@[q] < x,
            sorted_insert(c@, x) == c@.take(i as int) + sorted_insert(c@.skip(i as int), x),
        decreases c@.len() - i,
    {
        let ghost rest = c@.skip(i as int);
        assert(rest.drop_first() =~= c@.skip(i + 1));
        assert(c@.take(i + 1) =~= c@.take(i as int) + seq![c@[i as int]]);
        assert(c@.take(i as int) + sorted_insert(rest, x) =~= c@.take(i + 1) + sorted_insert(c@.skip(i + 1), x));
        r.push(c[i]);
        i = i + 1;
        assert(r@ =~= c@.take(i as int));
    }
    r.push(x);
    let ghost mid = r@;
    let mut j: usize = i;
    while j < c.len()
        invariant
            i <= j <= c@.len(),
            r@ == mid + c@.subrange(i as int, j as int),
            mid == c@.take(i as int).push(x),
        decreases c@.len() - j,
    {
        r.push(c[j]);
        j = j + 1;
        assert(r@ =~= mid + c@.subrange(i as int, j as int));
    }
    proof {
        let rest = c@.skip(i as int);
        if i < c@.len() {
            assert(!(c@[i as int] < x));
            assert(sorted_insert(rest, x) == seq![x] + rest);
        } else {
            assert(rest.len() == 0);
        }
        assert(r@ =~= c@.take(i as int) + sorted_insert(rest, x));
    }
    r
}

fn combinations_from(items: &[i32], start: usize, k: usize) -> (r: Vec<Vec<i32>>)
    requires
        start <= items@.len(),
    ensures
        r@.len() == combos(items@.skip(start as int), k as nat).len(),
        forall|i: int| 0 <= i < r@.len() ==> (#[trigger] r@[i])@ == combos(items@.skip(start as int), k as nat)[i],
    decreases items@.len() - start,
{
    let ghost s = items@.skip(start as int);
    if k == 0 {
        let mut r: Vec<Vec<i32>> = Vec::new();
        r.push(Vec::new());
        return r;
    }
    if start == items.len() {
        return Vec::new();
    }
    assert(s.drop_first() =~= items@.skip(start + 1));
    let mut result = combinations_from(items, start + 1, k);
    let shorter = combinations_from(items, start + 1, k - 1);
    let first = items[start];
    let ghost base = result@;
    let ghost tail = combos(s.drop_first(), (k - 1) as nat).map_values(|c: Seq<i32>| sorted_insert(c, s[0]));
    let mut i: usize = 0;
    while i < shorter.len()
        invariant
            i <= shorter@.len(),
            first == s[0],
            s.len() > 0,
            shorter@.len() == combos(s.drop_first(), (k - 1) as nat).len(),
            forall|q: int| 0 <= q < shorter@.len() ==> (#[trigger] shorter@[q])@ == combos(s.drop_first(), (k - 1) as nat)[q],
            tail == combos(s.drop_first(), (k - 1) as nat).map_values(|c: Seq<i32>| sorted_insert(c, s[0])),
            k > 0,
            base.len() == combos(s.drop_first(), k as nat).len(),
            forall|q: int| 0 <= q < base.len() ==> (#[trigger] base[q])@ == combos(s.drop_first(), k as nat)[q],
            result@.len() == base.len() + i,
            forall|q: int| 0 <= q < base.len() ==> result@[q] == base[q],
            forall|q: int| 0 <= q < i ==> (#[trigger] result@[base.len() + q])@ == tail[q],
        decreases shorter@.len() - i,
    {
        let c = with_inserted(&shorter[i], first);
        let ghost before = result@;
        result.push(c);
        assert(tail[i as int] == sorted_insert(combos(s.drop_first(), (k - 1) as nat)[i as int], s[0]));
        assert(result@[base.len() + i] == c);
        assert forall|q: int| 0 <= q < i + 1 implies (#[trigger] result@[base.len() + q])@ == tail[q] by {
            if q < i {
                assert(result@[base.len() + q] == before[base.len() + q]);
            }
        }
        i = i + 1;
    }
    assert(combos(s, k as nat) == combos(s.drop_first(), k as nat) + tail);
    assert forall|q: int| 0 <= q < result@.len() implies (#[trigger] result@[q])@ == combos(s, k as nat)[q] by {
        if q >= base.len() {
            assert(combos(s, k as nat)[q] == tail[q - base.len()]);
        } else {
            assert(result@[q] == base[q]);
            assert(combos(s, k as nat)[q] == combos(s.drop_first(), k as nat)[q]);
            assert(result@[base.len() + (q - base.len())] == result@[q]);
        }
    }
    result
}

/// The `k`-element combinations of `items`, each sorted: those without the
/// first item come first, then those with it.
pub fn combinations(items: &[i32], k: usize) -> (r: Vec<Vec<i32>>)
    ensures
        r@.len() == combos(items@, k as nat).len(),
        forall|i: int| 0 <= i < r@.len() ==> (#[trigger] r@[i])@ == combos(items@, k as nat)[i],
{
    assert(items@.skip(0) =~= items@);
    combinations_from(items, 0, k)
}

/// `c` lists, in increasing order, exactly the items of `a` and `b`.
pub open spec fn is_sorted_union(c: Seq<i32>, a: Seq<i32>, b: Seq<i32>) -> bool {
    strictly_increasing(c) && forall|x: i32| c.contains(x) <==> (a.contains(x) || b.contains(x))
}

/// `c` is the sorted union of two distinct entries of `prev`.
pub open spec fn from_some_pair(prev: Seq<Vec<i32>>, c: Seq<i32>) -> bool {
    exists|p: int, q: int| 0 <= p < q < prev.len() && #[trigger] is_sorted_union(c, prev[p]@, prev[q]@)
}

/// Whether some vector of `r` holds exactly `u`.
pub open spec fn listed(r: Seq<Vec<i32>>, u: Seq<i32>) -> bool {
    exists|c: int| 0 <= c < r.len() && (#[trigger] r[c])@ == u
}

/// Two increasing sequences with the same items are the same sequence.
proof fn lemma_sorted_unique(c1: Seq<i32>, c2: Seq<i32>)
    requires
        strictly_increasing(c1),
        strictly_increasing(c2),
        forall|x: i32| c1.contains(x) <==> c2.contains(x),
    ensures
        c1 == c2,
    decreases c1.len(),
{
    if c1.len() == 0 {
        if c2.len() > 0 {
            assert(c2.contains(c2[0]));
        }
        assert(c1 =~= c2);
    } else {
        assert(c1.contains(c1[0]));
        assert(c2.len() > 0);
        assert(c2.contains(c2[0]));
        let a = choose|a: int| 0 <= a < c2.len() && c2[a] == c1[0];
        let b = choose|b: int| 0 <= b < c1.len() && c1[b] == c2[0];
        assert(c1[0] == c2[0]);
        let t1 = c1.drop_first();
        let t2 = c2.drop_first();
        assert forall|x: i32| t1.contains(x) <==> t2.contains(x) by {
            if t1.contains(x) {
                let i = choose|i: int| 0 <= i < t1.len() && t1[i] == x;
                assert(c1[i + 1] == x);
                assert(c1.contains(x));
                let j = choose|j: int| 0 <= j < c2.len() && c2[j] == x;
                assert(j != 0);
                assert(t2[j - 1] == x);
            }
            if t2.contains(x) {
                let i = choose|i: int| 0 <= i < t2.len() && t2[i] == x;
                assert(c2[i + 1] == x);
                assert(c2.contains(x));
                let j = choose|j: int| 0 <= j < c1.len() && c1[j] == x;
                assert(j != 0);
                assert(t1[j - 1] == x);
            }
        }
        lemma_sorted_unique(t1, t2);
        assert(c1 =~= seq![c1[0]] + t1);
        assert(c2 =~= seq![c2[0]] + t2);
    }
}

/// `u` with `x` added at its place, unless `u` holds it already.
fn insert_unique(u: &Vec<i32>, x: i32) -> (r: Vec<i32>)
    requires
        strictly_increasing(u@),
    ensures
        strictly_increasing(r@),
        forall|y: i32| r@.contains(y) <==> (u@.contains(y) || y == x),
{
    let mut r: Vec<i32> = Vec::new();
    let mut i: usize = 0;
    while i < u.len() && u[i] < x
        invariant
            i <= u@.len(),
            r@ == u@.take(i as int),
            forall|q: int| 0 <= q < i ==> u@[q] < x,
        decreases u@.len() - i,
    {
        r.push(u[i]);
        i = i + 1;
        assert(r@ =~= u@.take(i as int));
    }
    let present = i < u.len() && u[i] == x;
    if !present {
        r.push(x);
    }
    let ghost mid = r@;
    let mut j: usize = i;
    while j < u.len()
        invariant
            i <= j <= u@.len(),
            r@ == mid + u@.subrange(i as int, j as int),
        decreases u@.len() - j,
    {
        r.push(u[j]);
        j = j + 1;
        assert(r@ =~= mid + u@.subrange(i as int, j as int));
    }
    proof {
        assert(u@.subrange(i as int, u@.len() as int) =~= u@.skip(i as int));
        if present {
            assert(r@ =~= u@);
        } else {
            let n = u@.len();
            assert(r@.len() == n + 1);
            assert(forall|q: int| 0 <= q < i ==> r@[q] == u@[q]);
            assert(r@[i as int] == x);
            assert(forall|q: int| i < q <= n ==> r@[q] == u@[q - 1]);
            assert(i < n ==> x < u@[i as int]);
            assert forall|a: int, b: int| 0 <= a < b < r@.len() implies r@[a] < r@[b] by {
                if b <= i {
                } else if a < i && b == i {
                } else if a < i {
                    assert(u@[a] < u@[b - 1] || a == b - 1);
                } else if a == i {
                    assert(x < u@[i as int]);
                    assert(u@[i as int] <= u@[b - 1]);
                } else {
                    assert(u@[a - 1] < u@[b - 1]);
                }
            }
            assert forall|y: i32| r@.contains(y) <==> (u@.contains(y) || y == x) by {
                if r@.contains(y) {
                    let q = choose|q: int| 0 <= q < r@.len() && r@[q] == y;
                    if q < i {
                        assert(u@[q] == y);
                    } else if q > i {
                        assert(u@[q - 1] == y);
                    }
                }
                if u@.contains(y) {
                    let q = choose|q: int| 0 <= q < u@.len() && u@[q] == y;
                    if q < i {
                        assert(r@[q] == y);
                    } else {
                        assert(r@[q + 1] == y);
                    }
                }
                if y == x {
                    assert(r@[i as int] == y);
                }
            }
        }
    }
    r
}

/// The items of `a` and `b`, once each, in increasing order.
fn sorted_union(a: &Vec<i32>, b: &Vec<i32>) -> (r: Vec<i32>)
    ensures
        is_sorted_union(r@, a@, b@),
{
    let mut r: Vec<i32> = Vec::new();
    let mut i: usize = 0;
    while i < a.len()
        invariant
            i <= a@.len(),
            strictly_increasing(r@),
            forall|y: i32| r@.contains(y) <==> a@.take(i as int).contains(y),
        decreases a@.len() - i,
    {
        let ghost old_r = r@;
        r = insert_unique(&r, a[i]);
        proof {
            assert forall|y: i32| r@.contains(y) <==> (old_r.contains(y) || y == a@[i as int]) by {}
            assert forall|y: i32| old_r.contains(y) <==> a@.take(i as int).contains(y) by {}
            assert forall|y: i32| a@.take(i + 1).contains(y) <==> (a@.take(i as int).contains(y) || y == a@[i as int]) by {
                if a@.take(i + 1).contains(y) {
                    let q = choose|q: int| 0 <= q < i + 1 && (#[trigger] a@.take(i + 1)[q]) == y;
                    if q < i {
                        assert(a@.take(i as int)[q] == y);
                    }
                }
                if a@.take(i as int).contains(y) {
                    let q = choose|q: int| 0 <= q < i && (#[trigger] a@.take(i as int)[q]) == y;
                    assert(a@.take(i + 1)[q] == y);
                }
                if y == a@[i as int] {
                    assert(a@.take(i + 1)[i as int] == y);
                }
            }
            assert forall|y: i32| r@.contains(y) <==> a@.take(i + 1).contains(y) by {
                assert(r@.contains(y) <==> (old_r.contains(y) || y == a@[i as int]));
                assert(old_r.contains(y) <==> a@.take(i as int).contains(y));
                assert(a@.take(i + 1).contains(y) <==> (a@.take(i as int).contains(y) || y == a@[i as int]));
            }
        }
        i = i + 1;
    }
    assert(a@.take(a@.len() as int) =~= a@);
    let mut j: usize = 0;
    while j < b.len()
        invariant
            j <= b@.len(),
            strictly_increasing(r@),
            forall|y: i32| r@.contains(y) <==> (a@.contains(y) || b@.take(j as int).contains(y)),
        decreases b@.len() - j,
    {
        let ghost old_r = r@;
        r = insert_unique(&r, b[j]);
        proof {
            assert forall|y: i32| r@.contains(y) <==> (old_r.contains(y) || y == b@[j as int]) by {}
            assert forall|y: i32| old_r.contains(y) <==> (a@.contains(y) || b@.take(j as int).contains(y)) by {}
            assert forall|y: i32| b@.take(j + 1).contains(y) <==> (b@.take(j as int).contains(y) || y == b@[j as int]) by {
                if b@.take(j + 1).contains(y) {
                    let q = choose|q: int| 0 <= q < j + 1 && (#[trigger] b@.take(j + 1)[q]) == y;
                    if q < j {
                        assert(b@.take(j as int)[q] == y);
                    }
                }
                if b@.take(j as int).contains(y) {
                    let q = choose|q: int| 0 <= q < j && (#[trigger] b@.take(j as int)[q]) == y;
                    assert(b@.take(j + 1)[q] == y);
                }
                if y == b@[j as int] {
                    assert(b@.take(j + 1)[j as int] == y);
                }
            }
        }
        j = j + 1;
    }
    assert(b@.take(b@.len() as int) =~= b@);
    r
}

fn same_items(a: &Vec<i32>, b: &Vec<i32>) -> (r: bool)
    ensures
        r == (a@ == b@),
{
    if a.len() != b.len() {
        return false;
    }
    let mut i: usize = 0;
    while i < a.len()
        invariant
            a@.len() == b@.len(),
            i <= a@.len(),
            forall|q: int| 0 <= q < i ==> a@[q] == b@[q],
        decreases a@.len() - i,
    {
        if a[i] != b[i] {
            return false;
        }
        i = i + 1;
    }
    assert(a@ =~= b@);
    true
}

fn is_listed(r: &Vec<Vec<i32>>, u: &Vec<i32>) -> (found: bool)
    ensures
        found == listed(r@, u@),
{
    let mut c: usize = 0;
    while c < r.len()
        invariant
            c <= r@.len(),
            forall|q: int| 0 <= q < c ==> (#[trigger] r@[q])@ != u@,
        decreases r@.len() - c,
    {
        if same_items(&r[c], u) {
            return true;
        }
        c = c + 1;
    }
    false
}

/// The candidate itemsets of size `k`: the sorted unions of two distinct
/// itemsets of `prev_lk` that have exactly `k` items, each listed once.
pub fn generate_candidates(prev_lk: &Vec<Vec<i32>>, k: usize) -> (r: Vec<Vec<i32>>)
    ensures
        forall|a: int, b: int| 0 <= a < b < r@.len() ==> (#[trigger] r@[a])@ != (#[trigger] r@[b])@,
        forall|c: int| 0 <= c < r@.len() ==> (#[trigger] r@[c])@.len() == k && from_some_pair(prev_lk@, r@[c]@),
        forall|i: int, j: int, u: Seq<i32>| 0 <= i < j < prev_lk@.len() && u.len() == k
            && #[trigger] is_sorted_union(u, prev_lk@[i]@, prev_lk@[j]@) ==> listed(r@, u),
{
    let n = prev_lk.len();
    let mut r: Vec<Vec<i32>> = Vec::new();
    let mut i: usize = 0;
    while i < n
        invariant
            n == prev_lk@.len(),
            i <= n,
            forall|a: int, b: int| 0 <= a < b < r@.len() ==> (#[trigger] r@[a])@ != (#[trigger] r@[b])@,
            forall|c: int| 0 <= c < r@.len() ==> (#[trigger] r@[c])@.len() == k && from_some_pair(prev_lk@, r@[c]@),
            forall|p: int, q: int, u: Seq<i32>| 0 <= p < q < n && p < i && u.len() == k
                && #[trigger] is_sorted_union(u, prev_lk@[p]@, prev_lk@[q]@) ==> listed(r@, u),
        decreases n - i,
    {
        let mut j: usize = i + 1;
        while j < n
            invariant
                n == prev_lk@.len(),
                i < n,
                i + 1 <= j <= n,
                forall|a: int, b: int| 0 <= a < b < r@.len() ==> (#[trigger] r@[a])@ != (#[trigger] r@[b])@,
                forall|c: int| 0 <= c < r@.len() ==> (#[trigger] r@[c])@.len() == k && from_some_pair(prev_lk@, r@[c]@),
                forall|p: int, q: int, u: Seq<i32>| 0 <= p < q < n && (p < i || (p == i && q < j)) && u.len() == k
                    && #[trigger] is_sorted_union(u, prev_lk@[p]@, prev_lk@[q]@) ==> listed(r@, u),
            decreases n - j,
        {
            let u = sorted_union(&prev_lk[i], &prev_lk[j]);
            let ghost before = r@;
            if u.len() == k && !is_listed(&r, &u) {
                r.push(u);
                proof {
                    let last = r@.len() - 1;
                    assert(r@[last]@ == u@);
                    assert forall|c: int| 0 <= c < r@.len() implies (#[trigger] r@[c])@.len() == k && from_some_pair(prev_lk@, r@[c]@) by {
                        if c < last {
                            assert(r@[c] == before[c]);
                        } else {
                            assert(is_sorted_union(r@[c]@, prev_lk@[i as int]@, prev_lk@[j as int]@));
                        }
                    }
                    assert forall|a: int, b: int| 0 <= a < b < r@.len() implies (#[trigger] r@[a])@ != (#[trigger] r@[b])@ by {
                        if b == last {
                            assert(r@[a] == before[a]);
                        } else {
                            assert(r@[a] == before[a]);
                            assert(r@[b] == before[b]);
                        }
                    }
                }
            }
            proof {
                assert forall|c: int| 0 <= c < before.len() implies (#[trigger] r@[c]) == before[c] by {}
                assert forall|p: int, q: int, w: Seq<i32>| 0 <= p < q < n && (p < i || (p == i && q < j + 1)) && w.len() == k
                    && #[trigger] is_sorted_union(w, prev_lk@[p]@, prev_lk@[q]@) implies listed(r@, w) by {
                    if p == i && q == j {
                        lemma_sorted_unique(w, u@);
                        if !listed(before, w) {
                            assert(r@[r@.len() - 1]@ == w);
                        } else {
                            let c = choose|c: int| 0 <= c < before.len() && (#[trigger] before[c])@ == w;
                            assert(r@[c] == before[c]);
                        }
                    } else {
                        assert(listed(before, w));
                        let c = choose|c: int| 0 <= c < before.len() && (#[trigger] before[c])@ == w;
                        assert(r@[c] == before[c]);
                    }
                }
            }
            j = j + 1;
        }
        i = i + 1;
    }
    r
}

/// Every item of `c` occurs in `t`.
pub open spec fn holds_all(t: Seq<i32>, c: Seq<i32>) -> bool {
    forall|x: i32| c.contains(x) ==> t.contains(x)
}

/// How many of the transactions hold every item of `c`.
pub open spec fn support_of(ts: Seq<Vec<i32>>, c: Seq<i32>) -> nat
    decreases ts.len(),
{
    if ts.len() == 0 {
        0
    } else {
        support_of(ts.drop_last(), c) + if holds_all(ts.last()@, c) { 1nat } else { 0nat }
    }
}

fn holds_item(t: &Vec<i32>, x: i32) -> (r: bool)
    ensures
        r == t@.contains(x),
{
    let mut i: usize = 0;
    while i < t.len()
        invariant
            i <= t@.len(),
            forall|q: int| 0 <= q < i ==> t@[q] != x,
        decreases t@.len() - i,
    {
        if t[i] == x {
            assert(t@[i as int] == x);
            return true;
        }
        i = i + 1;
    }
    false
}

fn holds_all_items(t: &Vec<i32>, c: &Vec<i32>) -> (r: bool)
    ensures
        r == holds_all(t@, c@),
{
    let mut i: usize = 0;
    while i < c.len()
        invariant
            i <= c@.len(),
            forall|q: int| 0 <= q < i ==> t@.contains(#[trigger] c@[q]),
        decreases c@.len() - i,
    {
        if !holds_item(t, c[i]) {
            assert(c@.contains(c@[i as int]));
            return false;
        }
        i = i + 1;
    }
    assert forall|x: i32| c@.contains(x) implies t@.contains(x) by {
        let q = choose|q: int| 0 <= q < c@.len() && c@[q] == x;
        assert(t@.contains(c@[q]));
    }
    true
}

/// The support count of an itemset: the number of transactions that hold
/// all of its items.
pub fn support_count(transactions: &Vec<Vec<i32>>, candidate: &Vec<i32>) -> (r: usize)
    ensures
        r == support_of(transactions@, candidate@),
{
    let mut count: usize = 0;
    let mut i: usize = 0;
    while i < transactions.len()
        invariant
            i <= transactions@.len(),
            count == support_of(transactions@.take(i as int), candidate@),
            count <= i,
        decreases transactions@.len() - i,
    {
        assert(transactions@.take(i + 1).drop_last() =~= transactions@.take(i as int));
        if holds_all_items(&transactions[i], candidate) {
            count = count + 1;
        }
        i = i + 1;
    }
    assert(transactions@.take(transactions@.len() as int) =~= transactions@);
    count
}

/// `seen` extended by the items of `t` that it does not hold yet, in order.
pub open spec fn add_all(seen: Seq<i32>, t: Seq<i32>) -> Seq<i32>
    decreases t.len(),
{
    if t.len() == 0 {
        seen
    } else {
        add_once(add_all(seen, t.drop_last()), t.last())
    }
}

/// The items of the transactions, each once, in order of first occurrence.
pub open spec fn items_in(ts: Seq<Vec<i32>>) -> Seq<i32>
    decreases ts.len(),
{
    if ts.len() == 0 {
        seq![]
    } else {
        add_all(items_in(ts.drop_last()), ts.last()@)
    }
}

/// The items that occur in some transaction, each once, in order of first
/// occurrence.
pub fn distinct_items(transactions: &Vec<Vec<i32>>) -> (r: Vec<i32>)
    ensures
        r@ == items_in(transactions@),
{
    let mut r: Vec<i32> = Vec::new();
    let mut i: usize = 0;
    while i < transactions.len()
        invariant
            i <= transactions@.len(),
            r@ == items_in(transactions@.take(i as int)),
        decreases transactions@.len() - i,
    {
        assert(transactions@.take(i + 1).drop_last() =~= transactions@.take(i as int));
        let t = &transactions[i];
        let ghost seen = r@;
        let mut j: usize = 0;
        while j < t.len()
            invariant
                j <= t@.len(),
                r@ == add_all(seen, t@.take(j as int)),
            decreases t@.len() - j,
        {
            assert(t@.take(j + 1).drop_last() =~= t@.take(j as int));
            add_number_once(&mut r, t[j]);
            j = j + 1;
        }
        assert(t@.take(t@.len() as int) =~= t@);
        i = i + 1;
    }
    assert(transactions@.take(transactions@.len() as int) =~= transactions@);
    r
}

/// The items of `s` that are not in `l`, in order.
pub open spec fn without(s: Seq<i32>, l: Seq<i32>) -> Seq<i32>
    decreases s.len(),
{
    if s.len() == 0 {
        seq![]
    } else if l.contains(s.last()) {
        without(s.drop_last(), l)
    } else {
        without(s.drop_last(), l).push(s.last())
    }
}

/// The consequent of a rule: the items of the itemset that are not in its
/// antecedent, in itemset order.
pub fn items_without(itemset: &Vec<i32>, lhs: &Vec<i32>) -> (r: Vec<i32>)
    ensures
        r@ == without(itemset@, lhs@),
{
    let mut r: Vec<i32> = Vec::new();
    let mut i: usize = 0;
    while i < itemset.len()
        invariant
            i <= itemset@.len(),
            r@ == without(itemset@.take(i as int), lhs@),
        decreases itemset@.len() - i,
    {
        assert(itemset@.take(i + 1).drop_last() =~= itemset@.take(i as int));
        if !holds_item(lhs, itemset[i]) {
            r.push(itemset[i]);
        }
        i = i + 1;
    }
    assert(itemset@.take(itemset@.len() as int) =~= itemset@);
    r
}

/// The receipts of the rows, each once, in order of first appearance.
pub open spec fn receipts_in(rows: Seq<(i32, i32)>) -> Seq<i32>
    decreases rows.len(),
{
    if rows.len() == 0 {
        seq![]
    } else if receipts_in(rows.drop_last()).contains(rows.last().0) {
        receipts_in(rows.drop_last())
    } else {
        receipts_in(rows.drop_last()).push(rows.last().0)
    }
}

/// The products of the rows of receipt `rid`, in row order.
pub open spec fn products_on(rows: Seq<(i32, i32)>, rid: i32) -> Seq<i32>
    decreases rows.len(),
{
    if rows.len() == 0 {
        seq![]
    } else if rows.last().0 == rid {
        products_on(rows.drop_last(), rid).push(rows.last().1)
    } else {
        products_on(rows.drop_last(), rid)
    }
}

fn products_of_receipt(rows: &Vec<(i32, i32)>, rid: i32) -> (r: Vec<i32>)
    ensures
        r@ == products_on(rows@, rid),
{
    let mut r: Vec<i32> = Vec::new();
    let mut i: usize = 0;
    while i < rows.len()
        invariant
            i <= rows@.len(),
            r@ == products_on(rows@.take(i as int), rid),
        decreases rows@.len() - i,
    {
        assert(rows@.take(i + 1).drop_last() =~= rows@.take(i as int));
        if rows[i].0 == rid {
            r.push(rows[i].1);
        }
        i = i + 1;
    }
    assert(rows@.take(rows@.len() as int) =~= rows@);
    r
}

/// The market baskets of the sales rows `(receipt_id, product_id)`: one per
/// receipt, in order of first appearance, holding that receipt's products
/// in row order.
pub fn transactions_by_receipt(rows: &Vec<(i32, i32)>) -> (r: Vec<Vec<i32>>)
    ensures
        r@.len() == receipts_in(rows@).len(),
        forall|g: int| 0 <= g < r@.len() ==> (#[trigger] r@[g])@ == products_on(rows@, receipts_in(rows@)[g]),
{
    let mut receipts: Vec<i32> = Vec::new();
    let mut i: usize = 0;
    while i < rows.len()
        invariant
            i <= rows@.len(),
            receipts@ == receipts_in(rows@.take(i as int)),
        decreases rows@.len() - i,
    {
        assert(rows@.take(i + 1).drop_last() =~= rows@.take(i as int));
        if !holds_item(&receipts, rows[i].0) {
            receipts.push(rows[i].0);
        }
        i = i + 1;
    }
    assert(rows@.take(rows@.len() as int) =~= rows@);
    let mut r: Vec<Vec<i32>> = Vec::new();
    let mut g: usize = 0;
    while g < receipts.len()
        invariant
            g <= receipts@.len(),
            receipts@ == receipts_in(rows@),
            r@.len() == g,
            forall|h: int| 0 <= h < g ==> (#[trigger] r@[h])@ == products_on(rows@, receipts@[h]),
        decreases receipts@.len() - g,
    {
        r.push(products_of_receipt(rows, receipts[g]));
        g = g + 1;
    }
    r
}

} // verus!
