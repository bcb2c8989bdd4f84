//! Sums of sizes by key.
use vstd::prelude::*;

verus! {

/// The items of one key: their total size and number.
pub struct KeyTotal {
    pub key: String,
    pub total_size_bytes: u128,
    pub file_count: usize,
}

/// Sum of the sizes of the items of `fs` keyed `k`.
pub open spec fn key_bytes(fs: Seq<(String, u64)>, k: Seq<char>) -> int
    decreases fs.len(),
{
    if fs.len() == 0 {
        0
    } else {
        key_bytes(fs.drop_last(), k) + if fs.last().0@ == k {
            fs.last().1 as int
        } else {
            0
        }
    }
}

/// Number of the items of `fs` keyed `k`.
pub open spec fn key_count(fs: Seq<(String, u64)>, k: Seq<char>) -> int
    decreases fs.len(),
{
    if fs.len() == 0 {
        0
    } else {
        key_count(fs.drop_last(), k) + if fs.last().0@ == k {
            1int
        } else {
            0
        }
    }
}

/// Some total of `s` is keyed `k`.
pub open spec fn has_key(s: Seq<KeyTotal>, k: Seq<char>) -> bool {
    exists|g: int| 0 <= g < s.len() && #[trigger] s[g].key@ == k
}

pub open spec fn keys_unique(s: Seq<KeyTotal>) -> bool {
    forall|a: int, b: int|
        0 <= a < s.len() && 0 <= b < s.len() && a != b ==> #[trigger] s[a].key@ != #[trigger] s[b].key@
}

pub proof fn lemma_key_bounds(fs: Seq<(String, u64)>, k: Seq<char>)
    ensures
        0 <= key_bytes(fs, k) <= fs.len() * (u64::MAX as int),
        0 <= key_count(fs, k) <= fs.len(),
    decreases fs.len(),
{
    if fs.len() > 0 {
        lemma_key_bounds(fs.drop_last(), k);
        assert((fs.len() - 1) * (u64::MAX as int) + (u64::MAX as int) == fs.len() * (u64::MAX
            as int)) by (nonlinear_arith);
    }
}

proof fn lemma_key_absent(fs: Seq<(String, u64)>, k: Seq<char>)
    requires
        forall|f: int| 0 <= f < fs.len() ==> #[trigger] fs[f].0@ != k,
    ensures
        key_bytes(fs, k) == 0,
        key_count(fs, k) == 0,
    decreases fs.len(),
{
    if fs.len() > 0 {
        assert forall|f: int| 0 <= f < fs.drop_last().len() implies #[trigger] fs.drop_last()[f].0@ != k by {
            assert(fs.drop_last()[f] == fs[f]);
        }
        lemma_key_absent(fs.drop_last(), k);
    }
}

/// Up to `usize::MAX` sizes of at most `u64::MAX` bytes each add up within `u128`.
pub proof fn lemma_fits(k: int)
    requires
        0 <= k <= usize::MAX,
    ensures
        k * (u64::MAX as int) <= u128::MAX,
{
    assert(k * (u64::MAX as int) <= (usize::MAX as int) * (u64::MAX as int)) by (nonlinear_arith)
        requires
            0 <= k <= usize::MAX,
    ;
    assert((usize::MAX as int) * (u64::MAX as int) <= u128::MAX) by (nonlinear_arith)
        requires
            usize::MAX <= u64::MAX,
    ;
}

/// The place of the total keyed `key`, if any.
fn find_key(groups: &Vec<KeyTotal>, key: &String) -> (r: Option<usize>)
    ensures
        match r {
            Some(g) => g < groups@.len() && groups@[g as int].key@ == key@,
            None => forall|h: int| 0 <= h < groups@.len() ==> #[trigger] groups@[h].key@ != key@,
        },
{
    let mut g: usize = 0;
    while g < groups.len()
        invariant
            g <= groups@.len(),
            forall|h: int| 0 <= h < g ==> #[trigger] groups@[h].key@ != key@,
        decreases groups@.len() - g,
    {
        if groups[g].key == *key {
            return Some(g);
        }
        g = g + 1;
    }
    None
}

/// Sums the sizes of `items` by key, with the number of items of each key, in
/// the order each key is first met.
#[verifier::spinoff_prover]
pub fn sum_by_key(items: &Vec<(String, u64)>) -> (groups: Vec<KeyTotal>)
    ensures
        keys_unique(groups@),
        forall|g: int|
            0 <= g < groups@.len() ==> #[trigger] groups@[g].total_size_bytes == key_bytes(
                items@,
                groups@[g].key@,
            ) && groups@[g].file_count == key_count(items@, groups@[g].key@),
        forall|f: int|
            0 <= f < items@.len() ==> has_key(groups@, #[trigger] items@[f].0@),
{
    let n = items.len();
    let mut groups: Vec<KeyTotal> = Vec::new();
    let mut i: usize = 0;
    while i < n
        invariant
            n == items@.len(),
            i <= n,
            keys_unique(groups@),
            forall|g: int|
                0 <= g < groups@.len() ==> #[trigger] groups@[g].total_size_bytes == key_bytes(
                    items@.subrange(0, i as int),
                    groups@[g].key@,
                ) && groups@[g].file_count == key_count(
                    items@.subrange(0, i as int),
                    groups@[g].key@,
                ),
            forall|f: int|
                0 <= f < i ==> has_key(groups@, #[trigger] items@[f].0@),
        decreases n - i,
    {
        let ghost p = items@.subrange(0, i as int);
        let ghost q = items@.subrange(0, i + 1);
        assert(q.drop_last() == p);
        assert(q.last() == items@[i as int]);
        let key = items[i].0.clone();
        let size = items[i].1;
        let found = find_key(&groups, &key);
        let ghost before = groups@;
        proof {
            lemma_key_bounds(q, key@);
            lemma_fits(i + 1);
        }
        if let Some(g) = found {
            assert(key_bytes(q, key@) == key_bytes(p, key@) + size);
            assert(key_count(q, key@) == key_count(p, key@) + 1);
            let t = groups[g].total_size_bytes + size as u128;
            let c = groups[g].file_count + 1;
            let ext = groups[g].key.clone();
            groups.set(g, KeyTotal { key: ext, total_size_bytes: t, file_count: c });
            assert forall|a: int, b: int|
                0 <= a < groups@.len() && 0 <= b < groups@.len() && a != b implies #[trigger] groups@[a].key@
                != #[trigger] groups@[b].key@ by {
                assert(before[a].key@ != before[b].key@);
            }
            assert forall|f: int| 0 <= f < i + 1 implies has_key(groups@, #[trigger] items@[f].0@) by {
                if f == i {
                    assert(groups@[g as int].key@ == items@[f].0@);
                } else {
                    assert(has_key(before, items@[f].0@));
                    let h = choose|h: int|
                        0 <= h < before.len() && #[trigger] before[h].key@ == items@[f].0@;
                    assert(groups@[h].key@ == before[h].key@);
                }
            }
            assert forall|h: int| 0 <= h < groups@.len() implies #[trigger] groups@[h].total_size_bytes
                == key_bytes(q, groups@[h].key@) && groups@[h].file_count == key_count(
                q,
                groups@[h].key@,
            ) by {
                if h != g {
                    assert(before[h].key@ != key@);
                    assert(groups@[h] == before[h]);
                    assert(key_bytes(q, before[h].key@) == key_bytes(p, before[h].key@));
                    assert(key_count(q, before[h].key@) == key_count(p, before[h].key@));
                }
            }
        } else {
            proof {
                assert forall|f: int| 0 <= f < p.len() implies #[trigger] p[f].0@ != key@ by {
                    assert(p[f] == items@[f]);
                    assert(has_key(before, items@[f].0@));
                    let h = choose|h: int|
                        0 <= h < before.len() && #[trigger] before[h].key@ == items@[f].0@;
                }
                lemma_key_absent(p, key@);
            }
            groups.push(KeyTotal { key: key, total_size_bytes: size as u128, file_count: 1 });
            assert forall|a: int, b: int|
                0 <= a < groups@.len() && 0 <= b < groups@.len() && a != b implies #[trigger] groups@[a].key@
                != #[trigger] groups@[b].key@ by {
                if a < before.len() && b < before.len() {
                    assert(before[a].key@ != before[b].key@);
                }
            }
            assert forall|f: int| 0 <= f < i + 1 implies has_key(groups@, #[trigger] items@[f].0@) by {
                if f == i {
                    assert(groups@[before.len() as int].key@ == items@[f].0@);
                } else {
                    assert(has_key(before, items@[f].0@));
                    let h = choose|h: int|
                        0 <= h < before.len() && #[trigger] before[h].key@ == items@[f].0@;
                    assert(groups@[h].key@ == before[h].key@);
                }
            }
            assert forall|h: int| 0 <= h < groups@.len() implies #[trigger] groups@[h].total_size_bytes
                == key_bytes(q, groups@[h].key@) && groups@[h].file_count == key_count(
                q,
                groups@[h].key@,
            ) by {
                if h < before.len() {
                    assert(before[h].key@ != key@);
                    assert(groups@[h] == before[h]);
                    assert(key_bytes(q, before[h].key@) == key_bytes(p, before[h].key@));
                    assert(key_count(q, before[h].key@) == key_count(p, before[h].key@));
                } else {
                    assert(key_bytes(q, key@) == key_bytes(p, key@) + size);
                    assert(key_count(q, key@) == key_count(p, key@) + 1);
                }
            }
        }
        i = i + 1;
    }
    assert(items@.subrange(0, n as int) == items@);
    groups
}

/// Reordering totals with distinct keys keeps the keys distinct and the same
/// totals present.
pub proof fn lemma_perm_keeps_keys(a: Seq<KeyTotal>, b: Seq<KeyTotal>)
    requires
        keys_unique(a),
        a.to_multiset() == b.to_multiset(),
    ensures
        keys_unique(b),
        forall|x: KeyTotal| a.contains(x) <==> b.contains(x),
{
    broadcast use vstd::seq_lib::group_to_multiset_ensures;
    assert forall|x: KeyTotal| a.contains(x) <==> b.contains(x) by {
        assert(a.contains(x) <==> a.to_multiset().count(x) > 0);
        assert(b.contains(x) <==> b.to_multiset().count(x) > 0);
    }
    assert(a.no_duplicates()) by {
        assert forall|i: int, j: int| 0 <= i < a.len() && 0 <= j < a.len() && i != j implies a[i]
            != a[j] by {
            assert(a[i].key@ != a[j].key@);
        }
    }
    a.lemma_multiset_has_no_duplicates();
    b.lemma_multiset_has_no_duplicates_conv();
    assert forall|i: int, j: int|
        0 <= i < b.len() && 0 <= j < b.len() && i != j implies #[trigger] b[i].key@
        != #[trigger] b[j].key@ by {
        assert(b.contains(b[i]));
        assert(b.contains(b[j]));
        let ia = choose|ia: int| 0 <= ia < a.len() && a[ia] == b[i];
        let ja = choose|ja: int| 0 <= ja < a.len() && a[ja] == b[j];
        if ia != ja {
            assert(a[ia].key@ != a[ja].key@);
        }
    }
}

} // verus!
