//! Change-log entries, their grouping by table, and the keys each group asks for.

use vstd::prelude::*;
use crate::text::{append_joined, joined, key_of, parse_key, same_text};
use crate::timestamp::Timestamp;

verus! {

/// One row of the change log: a mutation of `table_name` at the row whose
/// primary key is `primary_key_value`.
#[derive(Clone, Debug, PartialEq, Eq)]
pub struct ChangeEntry {
    pub id: i32,
    pub table_name: String,
    pub primary_key_value: String,
    pub change_time: Timestamp,
}

/// Why a table-group, or a whole cycle, could not be carried out.
#[derive(Clone, Copy, Debug, PartialEq, Eq, Structural)]
pub enum SyncError {
    /// The operational store could not be read.
    SourceUnavailable,
    /// The analytical store refused a read or a write.
    TargetWrite,
    /// A primary-key value in the change log is not a well-formed key.
    InvalidKey,
}

/// The tables whose changes are applied.
#[derive(Clone, Copy, Debug, PartialEq, Eq, Structural)]
pub enum TableKind {
    Customers,
    Products,
    Receipts,
    Sales,
}

pub open spec fn table_kind_of(name: Seq<char>) -> Option<TableKind> {
    if name == "customers"@ {
        Some(TableKind::Customers)
    } else if name == "products"@ {
        Some(TableKind::Products)
    } else if name == "receipts"@ {
        Some(TableKind::Receipts)
    } else if name == "sales"@ {
        Some(TableKind::Sales)
    } else {
        None
    }
}

/// The table a change-log table name stands for; `None` for a table that is
/// not synchronised.
pub fn table_kind(name: &str) -> (r: Option<TableKind>)
    ensures
        r == table_kind_of(name@),
{
    if same_text(name, "customers") {
        Some(TableKind::Customers)
    } else if same_text(name, "products") {
        Some(TableKind::Products)
    } else if same_text(name, "receipts") {
        Some(TableKind::Receipts)
    } else if same_text(name, "sales") {
        Some(TableKind::Sales)
    } else {
        None
    }
}

/// The entries of one table within a batch, as positions into the batch.
#[derive(Clone, Debug, PartialEq, Eq)]
pub struct TableGroup {
    pub table_name: String,
    pub members: Vec<usize>,
}

/// `members` lists, in increasing order, exactly the positions of the batch
/// whose entry belongs to table `name`.
pub open spec fn is_member_list(batch: Seq<ChangeEntry>, name: Seq<char>, members: Seq<usize>) -> bool {
    &&& forall|a: int, b: int| 0 <= a < b < members.len() ==> members[a] < members[b]
    &&& forall|a: int| 0 <= a < members.len() ==> members[a] < batch.len()
    &&& forall|a: int| 0 <= a < members.len() ==> (#[trigger] batch[members[a] as int]).table_name@ == name
    &&& forall|j: int| 0 <= j < batch.len() && (#[trigger] batch[j]).table_name@ == name ==> members.contains(j as usize)
}

/// `groups` partitions the batch by table: one group per distinct table
/// name, each with exactly that table's positions in batch order.
pub open spec fn is_grouping(batch: Seq<ChangeEntry>, groups: Seq<TableGroup>) -> bool {
    &&& forall|g: int| 0 <= g < groups.len() ==> is_member_list(batch, (#[trigger] groups[g]).table_name@, groups[g].members@)
    &&& forall|g: int, h: int| 0 <= g < h < groups.len() ==> (#[trigger] groups[g]).table_name@ != (#[trigger] groups[h]).table_name@
    &&& forall|j: int| 0 <= j < batch.len() ==> has_group(groups, (#[trigger] batch[j]).table_name@)
}

pub open spec fn has_group(groups: Seq<TableGroup>, name: Seq<char>) -> bool {
    exists|g: int| 0 <= g < groups.len() && (#[trigger] groups[g]).table_name@ == name
}

pub open spec fn names_hold(names: Seq<String>, name: Seq<char>) -> bool {
    exists|g: int| 0 <= g < names.len() && (#[trigger] names[g])@ == name
}

/// The positions of the batch whose entry belongs to table `name`, in order.
pub fn members_named(batch: &Vec<ChangeEntry>, name: &String) -> (r: Vec<usize>)
    ensures
        is_member_list(batch@, name@, r@),
{
    let mut r: Vec<usize> = Vec::new();
    let mut j: usize = 0;
    while j < batch.len()
        invariant
            j <= batch@.len(),
            forall|a: int, b: int| 0 <= a < b < r@.len() ==> r@[a] < r@[b],
            forall|a: int| 0 <= a < r@.len() ==> r@[a] < j,
            forall|a: int| 0 <= a < r@.len() ==> (#[trigger] batch@[r@[a] as int]).table_name@ == name@,
            forall|i: int| 0 <= i < j && (#[trigger] batch@[i]).table_name@ == name@ ==> r@.contains(i as usize),
        decreases batch@.len() - j,
    {
        if batch[j].table_name == *name {
            let ghost old_r = r@;
            r.push(j);
            assert(r@[r@.len() - 1] == j);
            assert forall|i: int| 0 <= i < j + 1 && (#[trigger] batch@[i]).table_name@ == name@ implies r@.contains(i as usize) by {
                if i < j {
                    let a = choose|a: int| 0 <= a < old_r.len() && old_r[a] == i as usize;
                    assert(r@[a] == old_r[a]);
                }
            }
        }
        j = j + 1;
    }
    r
}

fn position_of_name(names: &Vec<String>, name: &String) -> (r: Option<usize>)
    ensures
        match r {
            Some(g) => g < names@.len() && names@[g as int]@ == name@,
            None => forall|g: int| 0 <= g < names@.len() ==> (#[trigger] names@[g])@ != name@,
        },
{
    let mut g: usize = 0;
    while g < names.len()
        invariant
            g <= names@.len(),
            forall|h: int| 0 <= h < g ==> (#[trigger] names@[h])@ != name@,
        decreases names@.len() - g,
    {
        if names[g] == *name {
            return Some(g);
        }
        g = g + 1;
    }
    None
}

/// Partitions a batch of change-log entries by table. Each group keeps the
/// batch order of its entries; groups come in order of first appearance.
pub fn group_changes(batch: &Vec<ChangeEntry>) -> (r: Vec<TableGroup>)
    ensures
        is_grouping(batch@, r@),
        forall|g: int| 0 <= g < r@.len() ==> (#[trigger] r@[g]).members@.len() > 0,
        forall|g: int, h: int| 0 <= g < h < r@.len() ==> (#[trigger] r@[g]).members@[0] < (#[trigger] r@[h]).members@[0],
{
    let mut names: Vec<String> = Vec::new();
    let ghost mut firsts: Seq<int> = seq![];
    let mut j: usize = 0;
    while j < batch.len()
        invariant
            j <= batch@.len(),
            firsts.len() == names@.len(),
            forall|g: int| 0 <= g < names@.len() ==> 0 <= #[trigger] firsts[g] < j,
            forall|g: int| 0 <= g < names@.len() ==> (#[trigger] batch@[firsts[g]]).table_name@ == names@[g]@,
            forall|g: int, i: int| 0 <= g < names@.len() && 0 <= i < firsts[g] ==> (#[trigger] batch@[i]).table_name@ != (#[trigger] names@[g])@,
            forall|g: int, h: int| 0 <= g < h < names@.len() ==> #[trigger] firsts[g] < #[trigger] firsts[h],
            forall|g: int, h: int| 0 <= g < h < names@.len() ==> (#[trigger] names@[g])@ != (#[trigger] names@[h])@,
            forall|i: int| 0 <= i < j ==> names_hold(names@, (#[trigger] batch@[i]).table_name@),
        decreases batch@.len() - j,
    {
        match position_of_name(&names, &batch[j].table_name) {
            Some(g) => {
                assert forall|i: int| 0 <= i < j + 1 implies names_hold(names@, (#[trigger] batch@[i]).table_name@) by {
                    if i == j {
                        assert(names@[g as int]@ == batch@[i].table_name@);
                    }
                }
            }
            None => {
                let ghost old_names = names@;
                names.push(batch[j].table_name.clone());
                proof {
                    assert forall|i: int| 0 <= i < j implies (#[trigger] batch@[i]).table_name@ != batch@[j as int].table_name@ by {
                        assert(names_hold(old_names, batch@[i].table_name@));
                    }
                    firsts = firsts.push(j as int);
                    assert(names@[old_names.len() as int]@ == batch@[j as int].table_name@);
                    assert forall|g: int| 0 <= g < old_names.len() implies names@[g] == old_names[g] by {}
                }
                assert forall|i: int| 0 <= i < j + 1 implies names_hold(names@, (#[trigger] batch@[i]).table_name@) by {
                    if i < j {
                        let g = choose|g: int| 0 <= g < old_names.len() && (#[trigger] old_names[g])@ == batch@[i].table_name@;
                        assert(names@[g] == old_names[g]);
                    } else {
                        assert(names@[old_names.len() as int]@ == batch@[i].table_name@);
                    }
                }
            }
        }
        j = j + 1;
    }
    assert(j == batch@.len());
    assert forall|i: int| 0 <= i < batch@.len() implies names_hold(names@, (#[trigger] batch@[i]).table_name@) by {
        assert(i < j);
    }
    let mut groups: Vec<TableGroup> = Vec::new();
    let mut g: usize = 0;
    while g < names.len()
        invariant
            g <= names@.len(),
            groups@.len() == g,
            firsts.len() == names@.len(),
            forall|h: int| 0 <= h < names@.len() ==> 0 <= #[trigger] firsts[h] < batch@.len(),
            forall|h: int| 0 <= h < names@.len() ==> (#[trigger] batch@[firsts[h]]).table_name@ == names@[h]@,
            forall|h: int, i: int| 0 <= h < names@.len() && 0 <= i < firsts[h] ==> (#[trigger] batch@[i]).table_name@ != (#[trigger] names@[h])@,
            forall|h: int| 0 <= h < g ==> (#[trigger] groups@[h]).members@.len() > 0 && groups@[h].members@[0] == firsts[h],
            forall|g2: int, h: int| 0 <= g2 < h < names@.len() ==> (#[trigger] names@[g2])@ != (#[trigger] names@[h])@,
            forall|i: int| 0 <= i < batch@.len() ==> names_hold(names@, (#[trigger] batch@[i]).table_name@),
            forall|h: int| 0 <= h < g ==> (#[trigger] groups@[h]).table_name@ == names@[h]@,
            forall|h: int| 0 <= h < g ==> is_member_list(batch@, (#[trigger] groups@[h]).table_name@, groups@[h].members@),
        decreases names@.len() - g,
    {
        let members = members_named(batch, &names[g]);
        proof {
            let f = firsts[g as int];
            assert(batch@[f].table_name@ == names@[g as int]@);
            assert(members@.contains(f as usize));
            let a = choose|a: int| 0 <= a < members@.len() && members@[a] == f as usize;
            assert(batch@[members@[0] as int].table_name@ == names@[g as int]@);
            if a > 0 {
                assert(members@[0] < members@[a]);
            }
            assert(members@[0] == f);
        }
        let ghost before = groups@;
        groups.push(TableGroup { table_name: names[g].clone(), members });
        assert forall|h: int| 0 <= h < g + 1 implies (#[trigger] groups@[h]).members@.len() > 0 && groups@[h].members@[0] == firsts[h] by {
            if h < g {
                assert(groups@[h] == before[h]);
            }
        }
        g = g + 1;
    }
    assert forall|i: int| 0 <= i < batch@.len() implies has_group(groups@, (#[trigger] batch@[i]).table_name@) by {
        let h = choose|h: int| 0 <= h < names@.len() && (#[trigger] names@[h])@ == batch@[i].table_name@;
        assert(groups@[h].table_name@ == names@[h]@);
    }
    proof {
        lemma_groups_distinct(groups@, names@);
    }
    assert forall|g2: int, h: int| 0 <= g2 < h < groups@.len() implies (#[trigger] groups@[g2]).members@[0] < (#[trigger] groups@[h]).members@[0] by {
        assert(firsts[g2] < firsts[h]);
    }
    groups
}

proof fn lemma_groups_distinct(groups: Seq<TableGroup>, names: Seq<String>)
    requires
        groups.len() == names.len(),
        forall|h: int| 0 <= h < groups.len() ==> (#[trigger] groups[h]).table_name@ == names[h]@,
        forall|g2: int, h: int| 0 <= g2 < h < names.len() ==> (#[trigger] names[g2])@ != (#[trigger] names[h])@,
    ensures
        forall|g: int, h: int| 0 <= g < h < groups.len() ==> (#[trigger] groups[g]).table_name@ != (#[trigger] groups[h]).table_name@,
{
    assert forall|g: int, h: int| 0 <= g < h < groups.len() implies (#[trigger] groups[g]).table_name@ != (#[trigger] groups[h]).table_name@ by {
        assert(names[g]@ != names[h]@);
    }
}

/// The keys of the given members, in order of first appearance and without
/// repeats; `None` when one of them is not a well-formed key.
pub open spec fn member_keys(batch: Seq<ChangeEntry>, members: Seq<usize>) -> Option<Seq<i32>>
    decreases members.len(),
{
    if members.len() == 0 {
        Some(seq![])
    } else {
        match member_keys(batch, members.drop_last()) {
            None => None,
            Some(prev) => match key_of(batch[members.last() as int].primary_key_value@) {
                None => None,
                Some(k) => if prev.contains(k) {
                    Some(prev)
                } else {
                    Some(prev.push(k))
                },
            },
        }
    }
}

/// The primary keys that a table-group asks for, in the order in which the
/// group first mentions them. Fails with `InvalidKey` when a member carries
/// a value that is not a well-formed key, so that no such text ever reaches
/// a query.
pub fn group_keys(batch: &Vec<ChangeEntry>, group: &TableGroup) -> (r: Result<Vec<i32>, SyncError>)
    requires
        forall|a: int| 0 <= a < group.members@.len() ==> group.members@[a] < batch@.len(),
    ensures
        match r {
            Ok(keys) => member_keys(batch@, group.members@) == Some(keys@),
            Err(e) => e == SyncError::InvalidKey && member_keys(batch@, group.members@).is_none(),
        },
{
    let mut keys: Vec<i32> = Vec::new();
    let mut t: usize = 0;
    let ghost members = group.members@;
    while t < group.members.len()
        invariant
            members == group.members@,
            t <= members.len(),
            forall|a: int| 0 <= a < members.len() ==> members[a] < batch@.len(),
            member_keys(batch@, members.take(t as int)) == Some(keys@),
        decreases members.len() - t,
    {
        assert(members.take(t + 1).drop_last() =~= members.take(t as int));
        let m = group.members[t];
        match parse_key(batch[m].primary_key_value.as_str()) {
            None => {
                proof {
                    lemma_member_keys_fail_extends(batch@, members, t + 1);
                }
                return Err(SyncError::InvalidKey);
            },
            Some(k) => {
                let mut seen = false;
                let mut u: usize = 0;
                while u < keys.len()
                    invariant
                        u <= keys@.len(),
                        seen ==> keys@.contains(k),
                        !seen ==> forall|v: int| 0 <= v < u ==> keys@[v] != k,
                    decreases keys@.len() - u,
                {
                    if keys[u] == k {
                        seen = true;
                    }
                    u = u + 1;
                }
                if !seen {
                    keys.push(k);
                }
            },
        }
        t = t + 1;
    }
    assert(members.take(members.len() as int) =~= members);
    Ok(keys)
}

/// Once a prefix of the members holds a malformed key, so does every
/// longer prefix.
proof fn lemma_member_keys_fail_extends(batch: Seq<ChangeEntry>, members: Seq<usize>, t: int)
    requires
        0 < t <= members.len(),
        member_keys(batch, members.take(t)).is_none(),
    ensures
        member_keys(batch, members).is_none(),
    decreases members.len() - t,
{
    if t < members.len() {
        assert(members.take(t + 1).drop_last() =~= members.take(t));
        lemma_member_keys_fail_extends(batch, members, t + 1);
    } else {
        assert(members.take(t) =~= members);
    }
}

/// Every entry of the batch is no later than every entry after it.
pub open spec fn in_time_order(batch: Seq<ChangeEntry>) -> bool {
    forall|i: int, j: int| 0 <= i < j < batch.len() ==> (#[trigger] batch[i]).change_time.no_later_than((#[trigger] batch[j]).change_time)
}

/// Grouping keeps time order: when the batch comes in non-decreasing change
/// time, every table-group lists its entries in non-decreasing change time.
pub proof fn lemma_groups_keep_time_order(batch: Seq<ChangeEntry>, groups: Seq<TableGroup>)
    requires
        in_time_order(batch),
        is_grouping(batch, groups),
    ensures
        forall|g: int, a: int, b: int| 0 <= g < groups.len() && 0 <= a < b < groups[g].members@.len() ==>
            (#[trigger] batch[groups[g].members@[a] as int]).change_time.no_later_than(
                (#[trigger] batch[groups[g].members@[b] as int]).change_time),
{
    assert forall|g: int, a: int, b: int| 0 <= g < groups.len() && 0 <= a < b < groups[g].members@.len() implies
        (#[trigger] batch[groups[g].members@[a] as int]).change_time.no_later_than(
            (#[trigger] batch[groups[g].members@[b] as int]).change_time) by {
        assert(is_member_list(batch, groups[g].table_name@, groups[g].members@));
        assert(groups[g].members@[a] < groups[g].members@[b]);
    }
}

/// Keys are applied in change-time order: within a group of a time-ordered
/// batch, each key of `member_keys` is first mentioned at member position
/// `pos[a]`, these positions increase, and so the change times of the
/// first mentions never decrease from one key to the next.
pub proof fn lemma_keys_keep_time_order(batch: Seq<ChangeEntry>, members: Seq<usize>, keys: Seq<i32>) -> (pos: Seq<int>)
    requires
        in_time_order(batch),
        forall|a: int, b: int| 0 <= a < b < members.len() ==> members[a] < members[b],
        forall|a: int| 0 <= a < members.len() ==> members[a] < batch.len(),
        member_keys(batch, members) == Some(keys),
    ensures
        pos.len() == keys.len(),
        forall|a: int| 0 <= a < keys.len() ==> 0 <= #[trigger] pos[a] < members.len()
            && key_of(batch[members[pos[a]] as int].primary_key_value@) == Some(keys[a]),
        forall|a: int, b: int| 0 <= a < b < keys.len() ==> #[trigger] pos[a] < #[trigger] pos[b]
            && batch[members[pos[a]] as int].change_time.no_later_than(batch[members[pos[b]] as int].change_time),
    decreases members.len(),
{
    if members.len() == 0 {
        seq![]
    } else {
        let init = members.drop_last();
        let prev = member_keys(batch, init).unwrap();
        let p = lemma_keys_keep_time_order(batch, init, prev);
        let last = members.len() - 1;
        if keys == prev {
            p
        } else {
            let pos = p.push(last);
            assert(keys == prev.push(keys.last()));
            assert forall|a: int, b: int| 0 <= a < b < keys.len() implies #[trigger] pos[a] < #[trigger] pos[b]
                && batch[members[pos[a]] as int].change_time.no_later_than(batch[members[pos[b]] as int].change_time) by {
                if b < prev.len() {
                    assert(pos[a] == p[a] && pos[b] == p[b]);
                } else {
                    assert(pos[a] == p[a]);
                    assert(p[a] < init.len());
                    assert(members[p[a]] < members[last]);
                }
            }
            assert forall|a: int| 0 <= a < keys.len() implies 0 <= #[trigger] pos[a] < members.len()
                && key_of(batch[members[pos[a]] as int].primary_key_value@) == Some(keys[a]) by {
                if a < prev.len() {
                    assert(pos[a] == p[a]);
                    assert(members[p[a]] == init[p[a]]);
                }
            }
            pos
        }
    }
}

} // verus!
