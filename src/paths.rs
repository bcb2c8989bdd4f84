//! File names and extensions of path strings. Both `/` and `\` separate the
//! parts of a path.
use vstd::prelude::*;
use crate::outside::{lower_of, lowercase};
use crate::text::chars_of;

verus! {

pub open spec fn is_sep(c: char) -> bool {
    c == '/' || c == '\\'
}

/// Where the last part of `p` (its file name) begins: just after the last separator.
pub open spec fn name_start(p: Seq<char>) -> int
    decreases p.len(),
{
    if p.len() == 0 {
        0
    } else if is_sep(p.last()) {
        p.len() as int
    } else {
        name_start(p.drop_last())
    }
}

/// Where the last `.` of the file name of `p` stands, or -1 when it has none.
pub open spec fn name_dot(p: Seq<char>) -> int
    decreases p.len(),
{
    if p.len() == 0 {
        -1
    } else if is_sep(p.last()) {
        -1
    } else if p.last() == '.' {
        p.len() - 1
    } else {
        name_dot(p.drop_last())
    }
}

/// The extension of the file that `p` names: what follows the last `.` of the
/// file name, unless the name has no `.`, only a leading one, or is `..`.
pub open spec fn extension_of(p: Seq<char>) -> Option<Seq<char>> {
    let s = name_start(p);
    let d = name_dot(p);
    if d <= s || (p.len() - s == 2 && p[s] == '.' && p[s + 1] == '.') {
        None
    } else {
        Some(p.subrange(d + 1, p.len() as int))
    }
}

/// The key a file is grouped under by type: its extension in lower case, or
/// `(No Extension)`.
pub open spec fn type_key_spec(p: Seq<char>) -> Seq<char> {
    match extension_of(p) {
        Some(x) => lower_of(x),
        None => "(No Extension)"@,
    }
}

proof fn lemma_name_bounds(p: Seq<char>)
    ensures
        0 <= name_start(p) <= p.len(),
        name_dot(p) == -1 || name_start(p) <= name_dot(p) < p.len(),
        name_dot(p) >= 0 ==> p[name_dot(p)] == '.',
    decreases p.len(),
{
    if p.len() > 0 {
        lemma_name_bounds(p.drop_last());
    }
}

/// The start of the file name of `cs` and the place of its last dot, if any.
fn name_parts(cs: &Vec<char>) -> (r: (usize, Option<usize>))
    ensures
        r.0 == name_start(cs@),
        match r.1 {
            Some(d) => d == name_dot(cs@),
            None => name_dot(cs@) == -1,
        },
{
    let n = cs.len();
    let mut start: usize = 0;
    let mut dot: Option<usize> = None;
    let mut i: usize = 0;
    while i < n
        invariant
            n == cs@.len(),
            i <= n,
            start == name_start(cs@.subrange(0, i as int)),
            match dot {
                Some(d) => d == name_dot(cs@.subrange(0, i as int)),
                None => name_dot(cs@.subrange(0, i as int)) == -1,
            },
        decreases n - i,
    {
        proof {
            assert(cs@.subrange(0, i + 1).drop_last() == cs@.subrange(0, i as int));
        }
        let c = cs[i];
        if c == '/' || c == '\\' {
            start = i + 1;
            dot = None;
        } else if c == '.' {
            dot = Some(i);
        }
        i = i + 1;
    }
    assert(cs@.subrange(0, n as int) == cs@);
    (start, dot)
}

/// The key `path` is grouped under by type: see `type_key_spec`.
pub fn type_key(path: &String) -> (r: String)
    ensures
        r@ == type_key_spec(path@),
{
    let cs = chars_of(path.as_str());
    let n = cs.len();
    let (s, dot) = name_parts(&cs);
    proof {
        lemma_name_bounds(cs@);
    }
    match dot {
        Some(d) => {
            if d <= s || (n - s == 2 && cs[s] == '.' && cs[s + 1] == '.') {
                String::from_str("(No Extension)")
            } else {
                let ext = path.as_str().substring_char(d + 1, n);
                lowercase(ext)
            }
        },
        None => String::from_str("(No Extension)"),
    }
}

/// The non-empty parts of `p` between separators, in order.
pub open spec fn parts(p: Seq<char>) -> Seq<Seq<char>>
    decreases p.len(),
{
    if p.len() == 0 {
        seq![]
    } else {
        let r = parts(p.drop_last());
        let c = p.last();
        if is_sep(c) {
            r
        } else if p.len() >= 2 && !is_sep(p[p.len() - 2]) {
            r.drop_last().push(r.last().push(c))
        } else {
            r.push(seq![c])
        }
    }
}

proof fn lemma_parts_nonempty(p: Seq<char>)
    requires
        p.len() > 0,
        !is_sep(p.last()),
    ensures
        parts(p).len() > 0,
    decreases p.len(),
{
    if p.len() >= 2 && !is_sep(p[p.len() - 2]) {
        assert(p.drop_last().last() == p[p.len() - 2]);
        lemma_parts_nonempty(p.drop_last());
    }
}

/// `r` gives where each part of the first `i` characters of `cs` begins and ends.
pub open spec fn ranges_match(cs: Seq<char>, r: Seq<(usize, usize)>, i: int) -> bool {
    &&& r.len() == parts(cs.subrange(0, i)).len()
    &&& forall|k: int|
        #![trigger r[k]]
        0 <= k < r.len() ==> r[k].0 <= r[k].1 <= i && cs.subrange(
            r[k].0 as int,
            r[k].1 as int,
        ) == parts(cs.subrange(0, i))[k]
}

/// Where each part of `cs` (see `parts`) begins and ends.
#[verifier::spinoff_prover]
pub fn part_ranges(cs: &Vec<char>) -> (r: Vec<(usize, usize)>)
    ensures
        r@.len() == parts(cs@).len(),
        forall|k: int|
            0 <= k < r@.len() ==> #[trigger] r@[k].0 <= r@[k].1 <= cs@.len() && cs@.subrange(
                r@[k].0 as int,
                r@[k].1 as int,
            ) == parts(cs@)[k],
{
    let n = cs.len();
    let mut r: Vec<(usize, usize)> = Vec::new();
    let mut i: usize = 0;
    while i < n
        invariant
            n == cs@.len(),
            i <= n,
            ranges_match(cs@, r@, i as int),
            i > 0 && !is_sep(cs@[i - 1]) ==> r@.len() > 0 && r@.last().1 == i,
        decreases n - i,
    {
        let ghost pre = cs@.subrange(0, i as int);
        let ghost next = cs@.subrange(0, i + 1);
        assert(next.drop_last() == pre);
        assert(next.last() == cs@[i as int]);
        let c = cs[i];
        if c == '/' || c == '\\' {
            assert(parts(next) == parts(pre));
            assert forall|k: int|
                0 <= k < r@.len() implies #[trigger] r@[k].0 <= r@[k].1 <= i + 1 && cs@.subrange(
                r@[k].0 as int,
                r@[k].1 as int,
            ) == parts(next)[k] by {}
        } else if i > 0 && cs[i - 1] != '/' && cs[i - 1] != '\\' {
            assert(next[next.len() - 2] == cs@[i - 1]);
            proof {
                lemma_parts_nonempty(pre);
            }
            let last = r.len() - 1;
            let (a, _) = r[last];
            let ghost r0 = r@;
            r.set(last, (a, i + 1));
            assert(cs@.subrange(a as int, i + 1) == cs@.subrange(a as int, i as int).push(c));
            assert(parts(next) == parts(pre).drop_last().push(parts(pre).last().push(c)));
            assert(cs@.subrange(r0[last as int].0 as int, r0[last as int].1 as int) == parts(pre)[last as int]);
            assert forall|k: int|
                0 <= k < r@.len() implies #[trigger] r@[k].0 <= r@[k].1 <= i + 1 && cs@.subrange(
                r@[k].0 as int,
                r@[k].1 as int,
            ) == parts(next)[k] by {
                if k < last {
                    assert(r@[k] == r0[k]);
                    assert(parts(next)[k] == parts(pre)[k]);
                } else {
                    assert(r0[k].1 == i);
                    assert(parts(next)[k] == parts(pre)[k].push(c));
                }
            }
        } else {
            let ghost r0 = r@;
            r.push((i, i + 1));
            assert(cs@.subrange(i as int, i + 1) == seq![c]);
            assert(parts(next) == parts(pre).push(seq![c]));
            assert forall|k: int|
                0 <= k < r@.len() implies #[trigger] r@[k].0 <= r@[k].1 <= i + 1 && cs@.subrange(
                r@[k].0 as int,
                r@[k].1 as int,
            ) == parts(next)[k] by {
                if k < r0.len() {
                    assert(r@[k] == r0[k]);
                    assert(parts(next)[k] == parts(pre)[k]);
                }
            }
        }
        assert(ranges_match(cs@, r@, i + 1)) by {
            assert(cs@.subrange(0, i + 1) == next);
        }
        i = i + 1;
    }
    assert(cs@.subrange(0, n as int) == cs@);
    assert(ranges_match(cs@, r@, n as int));
    r
}

/// The folder holding what `p` names: `p` up to its last separator. None when
/// `p` has no separator.
pub open spec fn parent_spec(p: Seq<char>) -> Option<Seq<char>> {
    let s = name_start(p);
    if s == 0 {
        None
    } else {
        Some(p.subrange(0, s - 1))
    }
}

/// The folder holding what `path` names: see `parent_spec`.
pub fn parent_path(path: &String) -> (r: Option<String>)
    ensures
        match r {
            Some(q) => parent_spec(path@) == Some(q@),
            None => parent_spec(path@) is None,
        },
{
    let cs = chars_of(path.as_str());
    let (s, _) = name_parts(&cs);
    proof {
        lemma_name_bounds(cs@);
    }
    if s == 0 {
        None
    } else {
        Some(path.as_str().substring_char(0, s - 1).to_string())
    }
}

/// The file name of `path`: what follows its last separator.
pub fn file_name_of(path: &String) -> (r: String)
    ensures
        r@ == path@.subrange(name_start(path@), path@.len() as int),
{
    let cs = chars_of(path.as_str());
    let (s, _) = name_parts(&cs);
    proof {
        lemma_name_bounds(cs@);
    }
    path.as_str().substring_char(s, cs.len()).to_string()
}

/// The order of a character in path order: separators come first.
pub open spec fn rank(c: char) -> int {
    if is_sep(c) {
        0
    } else {
        c as int + 1
    }
}

/// `a` and `b` agree, rank for rank, on their first `k` characters.
pub open spec fn same_ranks(a: Seq<char>, b: Seq<char>, k: int) -> bool {
    forall|m: int| 0 <= m < k ==> #[trigger] rank(a[m]) == rank(b[m])
}

/// `a` comes strictly before `b` in path order: the order of the characters,
/// with separators before everything else. A depth-first walk that visits each
/// folder's entries in name order lists paths in this order.
pub open spec fn path_less(a: Seq<char>, b: Seq<char>) -> bool {
    exists|k: int|
        0 <= k <= a.len() && k <= b.len() && #[trigger] same_ranks(a, b, k) && ((k == a.len()
            && k < b.len()) || (k < a.len() && k < b.len() && rank(a[k]) < rank(b[k])))
}

/// Path order is transitive.
pub proof fn lemma_path_less_transitive(a: Seq<char>, b: Seq<char>, c: Seq<char>)
    requires
        path_less(a, b),
        path_less(b, c),
    ensures
        path_less(a, c),
{
    let k1 = choose|k: int|
        0 <= k <= a.len() && k <= b.len() && #[trigger] same_ranks(a, b, k) && ((k == a.len()
            && k < b.len()) || (k < a.len() && k < b.len() && rank(a[k]) < rank(b[k])));
    let k2 = choose|k: int|
        0 <= k <= b.len() && k <= c.len() && #[trigger] same_ranks(b, c, k) && ((k == b.len()
            && k < c.len()) || (k < b.len() && k < c.len() && rank(b[k]) < rank(c[k])));
    let k = if k1 < k2 {
        k1
    } else {
        k2
    };
    assert(same_ranks(a, c, k));
    if k1 < k2 {
        assert(rank(b[k1]) == rank(c[k1]));
    } else if k2 < k1 {
        assert(rank(a[k2]) == rank(b[k2]));
    }
}

/// Nothing comes before itself in path order.
pub proof fn lemma_path_less_irreflexive(a: Seq<char>)
    ensures
        !path_less(a, a),
{
}

fn rank_of(c: char) -> (r: u64)
    ensures
        r == rank(c),
{
    if c == '/' || c == '\\' {
        0
    } else {
        c as u32 as u64 + 1
    }
}

/// Whether `a` comes strictly before `b` in path order.
pub fn path_before(a: &Vec<char>, b: &Vec<char>) -> (r: bool)
    ensures
        r == path_less(a@, b@),
{
    let mut k: usize = 0;
    while k < a.len() && k < b.len() && rank_of(a[k]) == rank_of(b[k])
        invariant
            k <= a@.len(),
            k <= b@.len(),
            same_ranks(a@, b@, k as int),
        decreases a@.len() - k,
    {
        k = k + 1;
    }
    if k < a.len() && k < b.len() {
        if rank_of(a[k]) < rank_of(b[k]) {
            return true;
        }
        assert forall|j: int| !(0 <= j <= a@.len() && j <= b@.len() && #[trigger] same_ranks(a@, b@, j) && ((j == a@.len()
            && j < b@.len()) || (j < a@.len() && j < b@.len() && rank(a@[j]) < rank(b@[j])))) by {
            if 0 <= j <= a@.len() && j <= b@.len() && same_ranks(a@, b@, j) {
                if j > k {
                    assert(rank(a@[k as int]) == rank(b@[k as int]));
                }
            }
        }
        false
    } else if k == a.len() && k < b.len() {
        true
    } else {
        assert forall|j: int| !(0 <= j <= a@.len() && j <= b@.len() && #[trigger] same_ranks(a@, b@, j) && ((j == a@.len()
            && j < b@.len()) || (j < a@.len() && j < b@.len() && rank(a@[j]) < rank(b@[j])))) by {
            if 0 <= j <= a@.len() && j <= b@.len() && same_ranks(a@, b@, j) && j < k {
                assert(rank(a@[j]) == rank(b@[j]));
            }
        }
        false
    }
}

/// `child` names something directly or further inside the folder `parent`:
/// it is longer, starts with `parent`, and a separator divides the two.
pub open spec fn extends(parent: Seq<char>, child: Seq<char>) -> bool {
    &&& parent.len() < child.len()
    &&& child.subrange(0, parent.len() as int) == parent
    &&& (is_sep(child[parent.len() as int]) || (parent.len() > 0 && is_sep(parent.last())))
}

/// Whether `child` lies inside the folder `parent` (see `extends`).
pub fn extends_path(parent: &Vec<char>, child: &Vec<char>) -> (r: bool)
    ensures
        r == extends(parent@, child@),
{
    let n = parent.len();
    if n >= child.len() {
        return false;
    }
    let mut j: usize = 0;
    while j < n
        invariant
            n == parent@.len(),
            n < child@.len(),
            j <= n,
            forall|k: int| 0 <= k < j ==> parent@[k] == child@[k],
        decreases n - j,
    {
        if parent[j] != child[j] {
            assert(child@.subrange(0, n as int)[j as int] == child@[j as int]);
            return false;
        }
        j = j + 1;
    }
    assert(child@.subrange(0, n as int) == parent@);
    let c = child[n];
    if c == '/' || c == '\\' {
        true
    } else {
        n > 0 && (parent[n - 1] == '/' || parent[n - 1] == '\\')
    }
}

} // verus!
