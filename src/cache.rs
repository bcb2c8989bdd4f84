//! The per-drive cache of walks.
//!
//! Each drive is uncached, being walked, or cached. The cache never walks by
//! itself: `begin` tells its caller whether to use the cached scan, wait for a
//! walk already under way, or walk now and hand the result to `install`.
use vstd::prelude::*;
use crate::model::DriveScanResult;

verus! {

/// What is known of one drive.
pub enum DriveState {
    /// A walk of the drive is under way.
    Scanning,
    /// The last completed walk of the drive.
    Cached(DriveScanResult),
}

/// What the caller of `begin` does next.
#[derive(Debug, Clone, Copy, PartialEq, Eq, Structural)]
pub enum CacheStep {
    /// The drive is cached: read it with `get`.
    Ready,
    /// Another caller is walking the drive: wait for its `install`.
    InFlight,
    /// Walk the drive, then `install` the result (or `abandon` on failure).
    Walk,
}

/// One drive's entry in the cache.
pub struct Slot {
    pub drive: String,
    pub state: DriveState,
}

/// The drives and their states, keyed by drive identifier.
pub struct ScanCache {
    slots: Vec<Slot>,
}

/// The map that a list of slots stands for (a later slot wins).
pub open spec fn map_of(s: Seq<Slot>) -> Map<Seq<char>, DriveState>
    decreases s.len(),
{
    if s.len() == 0 {
        Map::empty()
    } else {
        map_of(s.drop_last()).insert(s.last().drive@, s.last().state)
    }
}

pub open spec fn keys_unique(s: Seq<Slot>) -> bool {
    forall|i: int, j: int|
        0 <= i < s.len() && 0 <= j < s.len() && i != j ==> #[trigger] s[i].drive@
            != #[trigger] s[j].drive@
}

/// The step `begin` takes on cache state `m` for drive `d`.
pub open spec fn begin_spec(m: Map<Seq<char>, DriveState>, d: Seq<char>) -> (Map<
    Seq<char>,
    DriveState,
>, CacheStep) {
    if m.contains_key(d) {
        match m[d] {
            DriveState::Scanning => (m, CacheStep::InFlight),
            DriveState::Cached(_) => (m, CacheStep::Ready),
        }
    } else {
        (m.insert(d, DriveState::Scanning), CacheStep::Walk)
    }
}

/// The cache state after `install` of `r` for drive `d`.
pub open spec fn install_spec(m: Map<Seq<char>, DriveState>, d: Seq<char>, r: DriveScanResult) -> Map<
    Seq<char>,
    DriveState,
> {
    m.insert(d, DriveState::Cached(r))
}

/// The cache state after `invalidate` of drive `d`.
pub open spec fn invalidate_spec(m: Map<Seq<char>, DriveState>, d: Seq<char>) -> Map<
    Seq<char>,
    DriveState,
> {
    m.remove(d)
}

/// The scan cached for drive `d`, if any.
pub open spec fn cached_spec(m: Map<Seq<char>, DriveState>, d: Seq<char>) -> Option<DriveScanResult> {
    if m.contains_key(d) {
        match m[d] {
            DriveState::Cached(r) => Some(r),
            DriveState::Scanning => None,
        }
    } else {
        None
    }
}

proof fn lemma_map_of_find(s: Seq<Slot>, i: int)
    requires
        keys_unique(s),
        0 <= i < s.len(),
    ensures
        map_of(s).contains_key(s[i].drive@),
        map_of(s)[s[i].drive@] == s[i].state,
    decreases s.len(),
{
    if i < s.len() - 1 {
        assert(s[i].drive@ != s[s.len() - 1].drive@);
        assert(keys_unique(s.drop_last()));
        assert(s.drop_last()[i] == s[i]);
        lemma_map_of_find(s.drop_last(), i);
    }
}

proof fn lemma_map_of_absent(s: Seq<Slot>, k: Seq<char>)
    requires
        forall|i: int| 0 <= i < s.len() ==> #[trigger] s[i].drive@ != k,
    ensures
        !map_of(s).contains_key(k),
    decreases s.len(),
{
    if s.len() > 0 {
        assert forall|i: int| 0 <= i < s.drop_last().len() implies #[trigger] s.drop_last()[i].drive@
            != k by {
            assert(s.drop_last()[i] == s[i]);
        }
        lemma_map_of_absent(s.drop_last(), k);
    }
}

proof fn lemma_map_of_update(s: Seq<Slot>, i: int, x: Slot)
    requires
        keys_unique(s),
        0 <= i < s.len(),
        x.drive@ == s[i].drive@,
    ensures
        keys_unique(s.update(i, x)),
        map_of(s.update(i, x)) == map_of(s).insert(x.drive@, x.state),
    decreases s.len(),
{
    let t = s.update(i, x);
    assert forall|a: int, b: int|
        0 <= a < t.len() && 0 <= b < t.len() && a != b implies #[trigger] t[a].drive@
        != #[trigger] t[b].drive@ by {
        assert(s[a].drive@ != s[b].drive@);
    }
    if i == s.len() - 1 {
        assert(t.drop_last() == s.drop_last());
        assert(map_of(s.drop_last()).insert(s[i].drive@, s[i].state).insert(x.drive@, x.state)
            == map_of(s.drop_last()).insert(x.drive@, x.state));
    } else {
        assert(keys_unique(s.drop_last()));
        assert(t.drop_last() == s.drop_last().update(i, x));
        lemma_map_of_update(s.drop_last(), i, x);
        assert(s.drop_last()[i] == s[i]);
        assert(s[i].drive@ != s.last().drive@);
        assert(map_of(s.drop_last()).insert(x.drive@, x.state).insert(s.last().drive@, s.last().state)
            == map_of(s.drop_last()).insert(s.last().drive@, s.last().state).insert(x.drive@, x.state));
    }
}

proof fn lemma_map_of_remove(s: Seq<Slot>, i: int)
    requires
        keys_unique(s),
        0 <= i < s.len(),
    ensures
        keys_unique(s.remove(i)),
        map_of(s.remove(i)) == map_of(s).remove(s[i].drive@),
    decreases s.len(),
{
    let t = s.remove(i);
    let k = s[i].drive@;
    assert forall|a: int, b: int|
        0 <= a < t.len() && 0 <= b < t.len() && a != b implies #[trigger] t[a].drive@
        != #[trigger] t[b].drive@ by {
        let a0 = if a < i { a } else { a + 1 };
        let b0 = if b < i { b } else { b + 1 };
        assert(t[a] == s[a0]);
        assert(t[b] == s[b0]);
        assert(s[a0].drive@ != s[b0].drive@);
    }
    assert(keys_unique(s.drop_last()));
    if i == s.len() - 1 {
        assert(t == s.drop_last());
        assert forall|j: int| 0 <= j < s.drop_last().len() implies #[trigger] s.drop_last()[j].drive@
            != k by {
            assert(s.drop_last()[j] == s[j]);
            assert(s[j].drive@ != s[i].drive@);
        }
        lemma_map_of_absent(s.drop_last(), k);
        assert(map_of(s.drop_last()) == map_of(s.drop_last()).insert(k, s[i].state).remove(k));
    } else {
        assert(t.drop_last() == s.drop_last().remove(i));
        assert(t.last() == s.last());
        lemma_map_of_remove(s.drop_last(), i);
        assert(s.drop_last()[i] == s[i]);
        assert(s[i].drive@ != s.last().drive@);
        assert(map_of(s.drop_last()).remove(k).insert(s.last().drive@, s.last().state)
            == map_of(s.drop_last()).insert(s.last().drive@, s.last().state).remove(k));
    }
}

impl ScanCache {
    /// The cache state, drive by drive.
    pub closed spec fn view(&self) -> Map<Seq<char>, DriveState> {
        map_of(self.slots@)
    }

    /// No drive has two slots.
    pub closed spec fn wf(&self) -> bool {
        keys_unique(self.slots@)
    }

    /// An empty cache.
    pub fn new() -> (r: Self)
        ensures
            r.wf(),
            r.view() == Map::<Seq<char>, DriveState>::empty(),
    {
        ScanCache { slots: Vec::new() }
    }

    /// The slot of `drive`, if it has one.
    fn find(&self, drive: &String) -> (r: Option<usize>)
        requires
            self.wf(),
        ensures
            match r {
                Some(i) => i < self.slots@.len() && self.slots@[i as int].drive@ == drive@,
                None => forall|i: int| 0 <= i < self.slots@.len() ==> #[trigger] self.slots@[i].drive@ != drive@,
            },
    {
        let mut i: usize = 0;
        while i < self.slots.len()
            invariant
                i <= self.slots@.len(),
                forall|j: int| 0 <= j < i ==> #[trigger] self.slots@[j].drive@ != drive@,
            decreases self.slots@.len() - i,
        {
            if self.slots[i].drive == *drive {
                return Some(i);
            }
            i = i + 1;
        }
        None
    }

    /// Says what to do for `drive`: use its cached scan, wait for the walk
    /// under way, or walk it now (the drive is then marked as being walked).
    pub fn begin(&mut self, drive: &String) -> (step: CacheStep)
        requires
            old(self).wf(),
        ensures
            final(self).wf(),
            (final(self).view(), step) == begin_spec(old(self).view(), drive@),
    {
        match self.find(drive) {
            Some(i) => {
                proof {
                    lemma_map_of_find(self.slots@, i as int);
                }
                match &self.slots[i].state {
                    DriveState::Scanning => CacheStep::InFlight,
                    DriveState::Cached(_) => CacheStep::Ready,
                }
            },
            None => {
                proof {
                    lemma_map_of_absent(self.slots@, drive@);
                }
                let ghost s0 = self.slots@;
                self.slots.push(Slot { drive: drive.clone(), state: DriveState::Scanning });
                assert(self.slots@.drop_last() == s0);
                assert forall|a: int, b: int|
                    0 <= a < self.slots@.len() && 0 <= b < self.slots@.len() && a != b implies #[trigger] self.slots@[a].drive@
                    != #[trigger] self.slots@[b].drive@ by {
                    if a < s0.len() && b < s0.len() {
                        assert(s0[a].drive@ != s0[b].drive@);
                    } else if a < s0.len() {
                        assert(s0[a].drive@ != drive@);
                    } else {
                        assert(s0[b].drive@ != drive@);
                    }
                }
                CacheStep::Walk
            },
        }
    }

    /// The scan cached for `drive`, if it has one.
    pub fn get(&self, drive: &String) -> (r: Option<&DriveScanResult>)
        requires
            self.wf(),
        ensures
            match r {
                Some(x) => cached_spec(self.view(), drive@) == Some(*x),
                None => cached_spec(self.view(), drive@) is None,
            },
    {
        match self.find(drive) {
            Some(i) => {
                proof {
                    lemma_map_of_find(self.slots@, i as int);
                }
                match &self.slots[i].state {
                    DriveState::Scanning => None,
                    DriveState::Cached(r) => Some(r),
                }
            },
            None => {
                proof {
                    lemma_map_of_absent(self.slots@, drive@);
                }
                None
            },
        }
    }

    /// Stores the result of a completed walk of `drive`, replacing whatever
    /// the drive had before.
    pub fn install(&mut self, drive: &String, result: DriveScanResult)
        requires
            old(self).wf(),
        ensures
            final(self).wf(),
            final(self).view() == install_spec(old(self).view(), drive@, result),
    {
        let ghost r0 = result;
        match self.find(drive) {
            Some(i) => {
                let x = Slot { drive: drive.clone(), state: DriveState::Cached(result) };
                proof {
                    lemma_map_of_update(self.slots@, i as int, x);
                }
                self.slots.set(i, x);
            },
            None => {
                proof {
                    lemma_map_of_absent(self.slots@, drive@);
                }
                let ghost s0 = self.slots@;
                self.slots.push(Slot { drive: drive.clone(), state: DriveState::Cached(result) });
                assert(self.slots@.drop_last() == s0);
                assert forall|a: int, b: int|
                    0 <= a < self.slots@.len() && 0 <= b < self.slots@.len() && a != b implies #[trigger] self.slots@[a].drive@
                    != #[trigger] self.slots@[b].drive@ by {
                    if a < s0.len() && b < s0.len() {
                        assert(s0[a].drive@ != s0[b].drive@);
                    } else if a < s0.len() {
                        assert(s0[a].drive@ != drive@);
                    } else {
                        assert(s0[b].drive@ != drive@);
                    }
                }
            },
        }
    }

    /// Forgets `drive`, so that the next `begin` walks it again.
    pub fn invalidate(&mut self, drive: &String)
        requires
            old(self).wf(),
        ensures
            final(self).wf(),
            final(self).view() == invalidate_spec(old(self).view(), drive@),
    {
        match self.find(drive) {
            Some(i) => {
                proof {
                    lemma_map_of_remove(self.slots@, i as int);
                }
                self.slots.remove(i);
            },
            None => {
                proof {
                    lemma_map_of_absent(self.slots@, drive@);
                    assert(map_of(self.slots@).remove(drive@) == map_of(self.slots@));
                }
            },
        }
    }

    /// Ends a walk of `drive` that failed: the drive is uncached again, and a
    /// cached scan, if the drive has one, stays.
    pub fn abandon(&mut self, drive: &String)
        requires
            old(self).wf(),
        ensures
            final(self).wf(),
            final(self).view() == if old(self).view().contains_key(drive@) && old(self).view()[drive@] is Scanning {
                old(self).view().remove(drive@)
            } else {
                old(self).view()
            },
    {
        match self.find(drive) {
            Some(i) => {
                proof {
                    lemma_map_of_find(self.slots@, i as int);
                }
                if let DriveState::Scanning = self.slots[i].state {
                    proof {
                        lemma_map_of_remove(self.slots@, i as int);
                    }
                    self.slots.remove(i);
                }
            },
            None => {
                proof {
                    lemma_map_of_absent(self.slots@, drive@);
                }
            },
        }
    }
}

/// A cache hit is idempotent: after a walk of an uncached drive is installed,
/// every later `begin` for it says `Ready`, changes nothing, and the cached
/// scan is the one installed. No second walk is asked for.
pub proof fn lemma_cache_hit_is_stable(m: Map<Seq<char>, DriveState>, d: Seq<char>, r: DriveScanResult)
    requires
        !m.contains_key(d),
    ensures
        begin_spec(m, d).1 == CacheStep::Walk,
        begin_spec(install_spec(begin_spec(m, d).0, d, r), d) == (
        install_spec(begin_spec(m, d).0, d, r),
        CacheStep::Ready,
        ),
        cached_spec(install_spec(begin_spec(m, d).0, d, r), d) == Some(r),
{
}

/// A rescan replaces: after `invalidate`, `begin` asks for a walk, and once its
/// result is installed the drive holds that result alone, whatever it held
/// before; other drives are untouched.
pub proof fn lemma_rescan_replaces(m: Map<Seq<char>, DriveState>, d: Seq<char>, r: DriveScanResult)
    ensures
        begin_spec(invalidate_spec(m, d), d).1 == CacheStep::Walk,
        cached_spec(install_spec(begin_spec(invalidate_spec(m, d), d).0, d, r), d) == Some(r),
        forall|k: Seq<char>|
            k != d ==> #[trigger] install_spec(begin_spec(invalidate_spec(m, d), d).0, d, r).contains_key(k)
                == m.contains_key(k) && (m.contains_key(k) ==> install_spec(
                begin_spec(invalidate_spec(m, d), d).0,
                d,
                r,
            )[k] == m[k]),
{
}

/// At most one walk per drive is under way: once `begin` has asked for a walk
/// of an uncached drive, every further `begin` for it answers `InFlight`
/// until the walk is installed or abandoned.
pub proof fn lemma_one_walk_in_flight(m: Map<Seq<char>, DriveState>, d: Seq<char>)
    requires
        !m.contains_key(d),
    ensures
        begin_spec(m, d).1 == CacheStep::Walk,
        begin_spec(begin_spec(m, d).0, d) == (begin_spec(m, d).0, CacheStep::InFlight),
{
}

} // verus!
