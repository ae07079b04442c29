//! Grouping the quotes of a data file by expiry (days to expiry), expiries
//! in ascending order and quotes in file order.

use std::collections::BTreeMap;
use vstd::prelude::*;
use vstd::std_specs::btree::{increasing_seq, spec_btree_map_iter};
use vstd::std_specs::cmp::OrdSpec;
use vstd::std_specs::iter::IteratorSpec;

verus! {

/// The fewest quotes an expiry needs to be fitted as a slice; expiries with
/// fewer rows are dropped.
pub const MIN_SLICE_POINTS: usize = 5;

/// The rows of a data file that share one key (an expiry in whole days),
/// listed in file order.
pub struct RowGroup {
    pub key: u32,
    pub rows: Vec<usize>,
}

/// `groups` partitions the row indices `0..keys.len()` by key:
/// the keys ascend strictly, every group is non-empty and lists, in increasing
/// order, exactly the rows whose key it carries.
pub open spec fn is_grouping(keys: Seq<u32>, groups: Seq<RowGroup>) -> bool {
    &&& forall|a: int, b: int| 0 <= a < b < groups.len() ==> groups[a].key < groups[b].key
    &&& forall|g: int| 0 <= g < groups.len() ==> groups[g].rows@.len() > 0
    &&& forall|g: int, p: int|
        0 <= g < groups.len() && 0 <= p < groups[g].rows@.len() ==> {
            &&& groups[g].rows@[p] < keys.len()
            &&& keys[groups[g].rows@[p] as int] == groups[g].key
        }
    &&& forall|g: int, p: int, q: int|
        0 <= g < groups.len() && 0 <= p < q < groups[g].rows@.len() ==> groups[g].rows@[p]
            < groups[g].rows@[q]
    &&& forall|r: int| 0 <= r < keys.len() ==> #[trigger] holds_row(groups, r)
}

/// Some group lists row `r`.
pub open spec fn holds_row(groups: Seq<RowGroup>, r: int) -> bool {
    exists|g: int| 0 <= g < groups.len() && #[trigger] groups[g].rows@.contains(r as usize)
}

/// What the map from key to rows holds after the first `n` rows: each key
/// seen maps to the non-empty, increasing list of the rows before `n` that
/// carry it, and every such row is listed under its key.
spec fn rows_by_key_upto(keys: Seq<u32>, n: int, m: Map<u32, Vec<usize>>) -> bool {
    &&& forall|k: u32| #[trigger] m.contains_key(k) ==> m[k]@.len() > 0
    &&& forall|k: u32, p: int|
        m.contains_key(k) && 0 <= p < m[k]@.len() ==> {
            &&& #[trigger] m[k]@[p] < n
            &&& keys[m[k]@[p] as int] == k
        }
    &&& forall|k: u32, p: int, q: int|
        m.contains_key(k) && 0 <= p < q < m[k]@.len() ==> #[trigger] m[k]@[p] < #[trigger] m[k]@[q]
    &&& forall|r: int|
        0 <= r < n ==> #[trigger] m.contains_key(keys[r]) && m[keys[r]]@.contains(r as usize)
}

/// A key sequence that the map's iteration reports as increasing is strictly
/// increasing.
proof fn lemma_increasing_keys(s: Seq<u32>)
    requires
        increasing_seq(s),
    ensures
        forall|i: int, j: int| 0 <= i < j < s.len() ==> s[i] < s[j],
{
    assert forall|i: int, j: int| 0 <= i < j < s.len() implies s[i] < s[j] by {
        assert(s[i].cmp_spec(&s[j]) is Less);
    }
}

/// Groups row indices by key, keys in ascending order, rows in file order.
///
/// The rows are collected in a `BTreeMap` from key to rows, whose iteration
/// order gives the ascending keys.
pub fn group_rows_by_key(keys: &Vec<u32>) -> (groups: Vec<RowGroup>)
    ensures
        is_grouping(keys@, groups@),
{
    let mut by_key: BTreeMap<u32, Vec<usize>> = BTreeMap::new();
    let mut i: usize = 0;
    while i < keys.len()
        invariant
            i <= keys.len(),
            rows_by_key_upto(keys@, i as int, by_key@),
        decreases keys.len() - i,
    {
        let k = keys[i];
        let ghost before = by_key@;
        let ghost earlier: Seq<usize> = if before.contains_key(k) {
            before[k]@
        } else {
            Seq::empty()
        };
        let rows = match by_key.remove(&k) {
            Some(mut rows) => {
                rows.push(i);
                rows
            },
            None => {
                let mut rows: Vec<usize> = Vec::new();
                rows.push(i);
                rows
            },
        };
        assert(rows@ == earlier.push(i));
        assert forall|p: int| 0 <= p < rows@.len() implies #[trigger] rows@[p] < i + 1
            && keys@[rows@[p] as int] == k by {
            if p < earlier.len() {
                assert(before[k]@[p] == rows@[p]);
            }
        }
        assert forall|p: int, q: int| 0 <= p < q < rows@.len() implies #[trigger] rows@[p]
            < #[trigger] rows@[q] by {
            if q < earlier.len() {
                assert(before[k]@[p] < before[k]@[q]);
            } else {
                assert(before[k]@[p] < i);
            }
        }
        by_key.insert(k, rows);
        assert(by_key@ == before.insert(k, rows));
        assert forall|k2: u32| #[trigger] by_key@.contains_key(k2) implies by_key@[k2]@.len()
            > 0 by {
            if k2 != k {
                assert(before.contains_key(k2));
            }
        }
        assert forall|k2: u32, p: int|
            by_key@.contains_key(k2) && 0 <= p < by_key@[k2]@.len() implies #[trigger] by_key@[k2]@[p]
            < i + 1 && keys@[by_key@[k2]@[p] as int] == k2 by {
            if k2 == k {
                assert(by_key@[k2]@[p] == rows@[p]);
            } else {
                assert(by_key@[k2]@[p] == before[k2]@[p]);
                assert(before[k2]@[p] < i);
            }
        }
        assert forall|k2: u32, p: int, q: int|
            by_key@.contains_key(k2) && 0 <= p < q < by_key@[k2]@.len() implies #[trigger] by_key@[k2]@[p]
            < #[trigger] by_key@[k2]@[q] by {
            if k2 == k {
                assert(rows@[p] < rows@[q]);
            } else {
                assert(before[k2]@[p] < before[k2]@[q]);
            }
        }
        assert forall|r: int| 0 <= r < i + 1 implies #[trigger] by_key@.contains_key(keys@[r])
            && by_key@[keys@[r]]@.contains(r as usize) by {
            if r == i {
                assert(by_key@[k]@[by_key@[k]@.len() - 1] == r as usize);
            } else if keys@[r] == k {
                assert(before.contains_key(keys@[r]) && before[keys@[r]]@.contains(r as usize));
                let p = choose|p: int| 0 <= p < before[k]@.len() && before[k]@[p] == r as usize;
                assert(by_key@[k]@[p] == r as usize);
            } else {
                assert(before.contains_key(keys@[r]));
                assert(before[keys@[r]]@.contains(r as usize));
            }
        }
        assert(rows_by_key_upto(keys@, i + 1, by_key@));
        i = i + 1;
    }
    let mut groups: Vec<RowGroup> = Vec::new();
    for entry in it: by_key.iter()
        invariant
            it.seq() == spec_btree_map_iter(&by_key).remaining(),
            groups.len() == it.index(),
            forall|g: int|
                0 <= g < groups.len() ==> groups@[g].key == *it.seq()[g].0 && groups@[g].rows@
                    == it.seq()[g].1@,
    {
        let (k, rows) = entry;
        let copy = rows.clone();
        assert(copy@ == rows@);
        groups.push(RowGroup { key: *k, rows: copy });
    }
    proof {
        let listed = spec_btree_map_iter(&by_key).remaining();
        let m = by_key@;
        assert(groups.len() == listed.len());
        assert forall|g: int| 0 <= g < groups.len() implies m.contains_key(groups@[g].key)
            && #[trigger] groups@[g].rows@ == m[groups@[g].key]@ by {
            assert(m.contains_key(*listed[g].0));
        }
        assert forall|a: int, b: int| 0 <= a < b < groups.len() implies groups@[a].key
            < groups@[b].key by {
            let s = listed.map_values(|kv: (&u32, &Vec<usize>)| *kv.0);
            lemma_increasing_keys(s);
            assert(s[a] == groups@[a].key);
            assert(s[b] == groups@[b].key);
        }
        assert forall|r: int| 0 <= r < keys@.len() implies #[trigger] holds_row(groups@, r) by {
            let k = keys@[r];
            assert(m.contains_key(k));
            assert(listed.contains((&k, &m[k])));
            let g = choose|g: int| 0 <= g < listed.len() && listed[g] == (&k, &m[k]);
            assert(groups@[g].rows@.contains(r as usize));
        }
    }
    groups
}

/// In a grouping every row belongs to exactly one group: the one that
/// carries the row's key.
pub proof fn lemma_row_in_one_group(keys: Seq<u32>, groups: Seq<RowGroup>, r: usize, g: int, h: int)
    requires
        is_grouping(keys, groups),
        0 <= g < groups.len(),
        0 <= h < groups.len(),
        groups[g].rows@.contains(r),
        groups[h].rows@.contains(r),
    ensures
        g == h,
        groups[g].key == keys[r as int],
{
    let p = choose|p: int| 0 <= p < groups[g].rows@.len() && groups[g].rows@[p] == r as usize;
    let q = choose|q: int| 0 <= q < groups[h].rows@.len() && groups[h].rows@[q] == r as usize;
    assert(keys[groups[g].rows@[p] as int] == groups[g].key);
    assert(keys[groups[h].rows@[q] as int] == groups[h].key);
    if g < h {
        assert(groups[g].key < groups[h].key);
    } else if h < g {
        assert(groups[h].key < groups[g].key);
    }
}

/// Two strictly increasing sequences with the same members are equal.
proof fn lemma_increasing_same_members(a: Seq<int>, b: Seq<int>)
    requires
        forall|i: int, j: int| 0 <= i < j < a.len() ==> a[i] < a[j],
        forall|i: int, j: int| 0 <= i < j < b.len() ==> b[i] < b[j],
        forall|x: int| a.contains(x) <==> b.contains(x),
    ensures
        a == b,
    decreases a.len() + b.len(),
{
    if a.len() == 0 {
        if b.len() > 0 {
            assert(b.contains(b[0]));
        }
        assert(a =~= b);
    } else if b.len() == 0 {
        assert(a.contains(a[0]));
    } else {
        assert(a.contains(a[0]));
        assert(b.contains(b[0]));
        let i = choose|i: int| 0 <= i < b.len() && b[i] == a[0];
        let j = choose|j: int| 0 <= j < a.len() && a[j] == b[0];
        assert(a[0] >= b[0]) by {
            if i > 0 {
                assert(b[0] < b[i]);
            }
        }
        assert(b[0] >= a[0]) by {
            if j > 0 {
                assert(a[0] < a[j]);
            }
        }
        let a1 = a.drop_first();
        let b1 = b.drop_first();
        assert forall|x: int| a1.contains(x) <==> b1.contains(x) by {
            if a1.contains(x) {
                let k = choose|k: int| 0 <= k < a1.len() && a1[k] == x;
                assert(a[k + 1] == x);
                assert(a[0] < a[k + 1]);
                assert(a.contains(x));
                let m = choose|m: int| 0 <= m < b.len() && b[m] == x;
                assert(m != 0);
                assert(b1[m - 1] == x);
            }
            if b1.contains(x) {
                let k = choose|k: int| 0 <= k < b1.len() && b1[k] == x;
                assert(b[k + 1] == x);
                assert(b[0] < b[k + 1]);
                assert(b.contains(x));
                let m = choose|m: int| 0 <= m < a.len() && a[m] == x;
                assert(m != 0);
                assert(a1[m - 1] == x);
            }
        }
        lemma_increasing_same_members(a1, b1);
        assert(a =~= seq![a[0]] + a1);
        assert(b =~= seq![b[0]] + b1);
    }
}

/// The keys of a grouping, in order, as integers.
pub open spec fn group_keys(groups: Seq<RowGroup>) -> Seq<int> {
    groups.map_values(|g: RowGroup| g.key as int)
}

/// The rows of one group as integers.
pub open spec fn group_rows(g: RowGroup) -> Seq<int> {
    g.rows@.map_values(|r: usize| r as int)
}

proof fn lemma_group_has_row_key(keys: Seq<u32>, a: Seq<RowGroup>, b: Seq<RowGroup>, g: int)
    requires
        is_grouping(keys, a),
        is_grouping(keys, b),
        0 <= g < a.len(),
    ensures
        group_keys(b).contains(a[g].key as int),
{
    let r = a[g].rows@[0];
    assert(keys[r as int] == a[g].key);
    assert(holds_row(b, r as int));
    let h = choose|h: int| 0 <= h < b.len() && #[trigger] b[h].rows@.contains(r as usize);
    let p = choose|p: int| 0 <= p < b[h].rows@.len() && b[h].rows@[p] == r;
    assert(keys[b[h].rows@[p] as int] == b[h].key);
    assert(group_keys(b)[h] == a[g].key as int);
}

proof fn lemma_group_rows_are_key_rows(keys: Seq<u32>, a: Seq<RowGroup>, g: int, x: int)
    requires
        is_grouping(keys, a),
        keys.len() <= usize::MAX,
        0 <= g < a.len(),
    ensures
        group_rows(a[g]).contains(x) <==> (0 <= x < keys.len() && keys[x] == a[g].key),
{
    if group_rows(a[g]).contains(x) {
        let p = choose|p: int| 0 <= p < group_rows(a[g]).len() && group_rows(a[g])[p] == x;
        assert(a[g].rows@[p] as int == x);
    }
    if 0 <= x < keys.len() && keys[x] == a[g].key {
        assert(holds_row(a, x));
        let h = choose|h: int| 0 <= h < a.len() && #[trigger] a[h].rows@.contains(x as usize);
        lemma_row_in_one_group(keys, a, x as usize, h, h);
        if h < g {
            assert(a[h].key < a[g].key);
        } else if g < h {
            assert(a[g].key < a[h].key);
        }
        assert(h == g);
        let p = choose|p: int| 0 <= p < a[g].rows@.len() && a[g].rows@[p] == x as usize;
        assert(a[g].rows@[p] as int == x);
        assert(group_rows(a[g])[p] == x);
    }
}

/// The grouping of a key sequence is unique: two groupings of the same keys
/// list the same keys in the same order, each with the same rows.
pub proof fn lemma_grouping_unique(keys: Seq<u32>, a: Seq<RowGroup>, b: Seq<RowGroup>)
    requires
        keys.len() <= usize::MAX,
        is_grouping(keys, a),
        is_grouping(keys, b),
    ensures
        a.len() == b.len(),
        forall|g: int| 0 <= g < a.len() ==> a[g].key == b[g].key && a[g].rows@ == b[g].rows@,
{
    assert forall|x: int| group_keys(a).contains(x) <==> group_keys(b).contains(x) by {
        if group_keys(a).contains(x) {
            let g = choose|g: int| 0 <= g < group_keys(a).len() && group_keys(a)[g] == x;
            lemma_group_has_row_key(keys, a, b, g);
        }
        if group_keys(b).contains(x) {
            let g = choose|g: int| 0 <= g < group_keys(b).len() && group_keys(b)[g] == x;
            lemma_group_has_row_key(keys, b, a, g);
        }
    }
    lemma_increasing_same_members(group_keys(a), group_keys(b));
    assert(a.len() == group_keys(a).len());
    assert forall|g: int| 0 <= g < a.len() implies a[g].key == b[g].key && a[g].rows@
        == b[g].rows@ by {
        assert(group_keys(a)[g] == group_keys(b)[g]);
        assert forall|x: int| group_rows(a[g]).contains(x) <==> group_rows(b[g]).contains(x) by {
            lemma_group_rows_are_key_rows(keys, a, g, x);
            lemma_group_rows_are_key_rows(keys, b, g, x);
        }
        lemma_increasing_same_members(group_rows(a[g]), group_rows(b[g]));
        assert(a[g].rows@.len() == group_rows(a[g]).len());
        assert forall|p: int| 0 <= p < a[g].rows@.len() implies a[g].rows@[p] == b[g].rows@[p] by {
            assert(group_rows(a[g])[p] == group_rows(b[g])[p]);
        }
        assert(a[g].rows@ =~= b[g].rows@);
    }
}

} // verus!
