use std::collections::HashMap;
use vstd::prelude::*;

use crate::file_ref::FileRef;

verus! {

/// The files a discovery scan listed, each file once, with the path under
/// which it was listed last.
pub open spec fn latest_paths(files: Seq<(String, FileRef)>) -> Map<FileRef, Seq<char>>
    decreases files.len(),
{
    if files.len() == 0 {
        Map::empty()
    } else {
        latest_paths(files.drop_last()).insert(files.last().1, files.last().0@)
    }
}

/// A change to the set of files being followed.
#[derive(Debug)]
pub enum TrackAction {
    /// Start following the file, under this path.
    Start { file_ref: FileRef, path: String },
    /// Keep following the file, now under this path (it was renamed).
    Retarget { file_ref: FileRef, path: String },
    /// Stop following the file: it has been gone from the scans for the
    /// whole grace period.
    Stop { file_ref: FileRef },
}

impl TrackAction {
    pub open spec fn target(self) -> FileRef {
        match self {
            TrackAction::Start { file_ref, .. } => file_ref,
            TrackAction::Retarget { file_ref, .. } => file_ref,
            TrackAction::Stop { file_ref } => file_ref,
        }
    }
}

/// A followed file: the path it is followed under, and, when the scans no
/// longer list it, the time (in seconds) of the first scan that missed it.
pub type Followed = (Seq<char>, Option<u64>);

/// The time from which a missing file's grace period runs: when it was first
/// missed, or now.
pub open spec fn missing_since(entry: Followed, now: u64) -> u64 {
    match entry.1 {
        Some(t) => t,
        None => now,
    }
}

/// Whether a file missed since `since` has been missing for the whole grace
/// period at time `now`.
pub open spec fn grace_over(since: u64, now: u64, grace: u64) -> bool {
    now >= since + grace
}

/// The followed files after a scan at time `now`: every listed file, under
/// its latest path and not missing; and every file followed before that is
/// not listed and whose grace period is not over, under its old path and
/// missing since it was first missed.
pub open spec fn next_followed(
    before: Map<FileRef, Followed>,
    files: Seq<(String, FileRef)>,
    now: u64,
    grace: u64,
) -> Map<FileRef, Followed> {
    let latest = latest_paths(files);
    Map::new(
        |r: FileRef|
            latest.contains_key(r) || (before.contains_key(r) && !grace_over(
                missing_since(before[r], now),
                now,
                grace,
            )),
        |r: FileRef|
            if latest.contains_key(r) {
                (latest[r], None::<u64>)
            } else {
                (before[r].0, Some(missing_since(before[r], now)))
            },
    )
}

/// What a reconciliation of the followed files with a scan at time `now`
/// promises: the followed files become `next_followed`; it starts each
/// listed file that was not followed, under its latest path; it moves each
/// followed file that is listed under another path to that path; it stops
/// each file that is no longer followed; it touches no other file, and no
/// file twice.
pub open spec fn reconciled(
    before: Map<FileRef, Followed>,
    after: Map<FileRef, Followed>,
    files: Seq<(String, FileRef)>,
    now: u64,
    grace: u64,
    actions: Seq<TrackAction>,
) -> bool {
    let latest = latest_paths(files);
    &&& after == next_followed(before, files, now, grace)
    &&& forall|i: int|
        0 <= i < actions.len() ==> match #[trigger] actions[i] {
            TrackAction::Start { file_ref, path } => latest.contains_key(file_ref) && !before.contains_key(
                file_ref,
            ) && path@ == latest[file_ref],
            TrackAction::Retarget { file_ref, path } => latest.contains_key(file_ref)
                && before.contains_key(file_ref) && before[file_ref].0 != latest[file_ref] && path@
                == latest[file_ref],
            TrackAction::Stop { file_ref } => before.contains_key(file_ref) && !after.contains_key(
                file_ref,
            ),
        }
    &&& forall|r: FileRef|
        #![trigger after.contains_key(r)]
        #![trigger before.contains_key(r)]
        #![trigger latest.contains_key(r)]
        ((latest.contains_key(r) && !before.contains_key(r)) || (latest.contains_key(r)
            && before.contains_key(r) && before[r].0 != latest[r]) || (before.contains_key(r)
            && !after.contains_key(r))) ==> exists|i: int|
            0 <= i < actions.len() && (#[trigger] actions[i]).target() == r
    &&& forall|i: int, j: int|
        0 <= i < j < actions.len() ==> (#[trigger] actions[i]).target() != (#[trigger] actions[j]).target()
}

/// The map key of a file identity: device and inode side by side.
pub open spec fn ref_key(r: FileRef) -> u128 {
    (r.device as int * 0x1_0000_0000_0000_0000int + r.inode as int) as u128
}

proof fn lemma_ref_key_injective(a: FileRef, b: FileRef)
    requires
        ref_key(a) == ref_key(b),
    ensures
        a == b,
{
    let m: int = 0x1_0000_0000_0000_0000int;
    let (ad, ai, bd, bi) = (a.device as int, a.inode as int, b.device as int, b.inode as int);
    assert(ad * m + ai == bd * m + bi);
    assert(ad == bd && ai == bi) by (nonlinear_arith)
        requires
            ad * m + ai == bd * m + bi,
            0 <= ai < m,
            0 <= bi < m,
            0 <= ad < m,
            0 <= bd < m,
            m == 0x1_0000_0000_0000_0000int,
    ;
}

fn key_of(r: FileRef) -> (k: u128)
    ensures
        k == ref_key(r),
{
    (r.device as u128) * 0x1_0000_0000_0000_0000u128 + (r.inode as u128)
}

/// The files being followed, by identity, with the path each was last seen
/// under and, for a file the scans no longer list, when it was first missed.
/// A file keeps being followed across renames, and for a grace period after
/// it disappears.
pub struct Tracker {
    order: Vec<FileRef>,
    entries: HashMap<u128, (String, Option<u64>)>,
}

/// `order` lists each file once, and `entries` holds exactly the keys of
/// the listed files.
pub open spec fn tracked_wf(order: Seq<FileRef>, entries: Map<u128, (String, Option<u64>)>) -> bool {
    &&& forall|i: int, j: int| 0 <= i < j < order.len() ==> order[i] != order[j]
    &&& forall|r: FileRef| #[trigger] entries.contains_key(ref_key(r)) <==> order.contains(r)
}

pub open spec fn tracked_view(order: Seq<FileRef>, entries: Map<u128, (String, Option<u64>)>) -> Map<
    FileRef,
    Followed,
> {
    Map::new(
        |r: FileRef| order.contains(r),
        |r: FileRef| (entries[ref_key(r)].0@, entries[ref_key(r)].1),
    )
}

pub open spec fn tracked_paths(order: Seq<FileRef>, entries: Map<u128, (String, Option<u64>)>) -> Map<
    FileRef,
    Seq<char>,
> {
    Map::new(|r: FileRef| order.contains(r), |r: FileRef| entries[ref_key(r)].0@)
}

impl View for Tracker {
    type V = Map<FileRef, Followed>;

    closed spec fn view(&self) -> Map<FileRef, Followed> {
        tracked_view(self.order@, self.entries@)
    }
}

/// Adding an absent file to the listing keeps it well formed.
proof fn lemma_add_entry(
    order: Seq<FileRef>,
    entries: Map<u128, (String, Option<u64>)>,
    r: FileRef,
    v: (String, Option<u64>),
)
    requires
        tracked_wf(order, entries),
        !order.contains(r),
    ensures
        tracked_wf(order.push(r), entries.insert(ref_key(r), v)),
        forall|q: FileRef| #[trigger] order.push(r).contains(q) <==> (order.contains(q) || q == r),
{
    let o2 = order.push(r);
    let e2 = entries.insert(ref_key(r), v);
    assert forall|q: FileRef| #[trigger] o2.contains(q) <==> (order.contains(q) || q == r) by {
        if order.contains(q) {
            let k = choose|k: int| 0 <= k < order.len() && order[k] == q;
            assert(o2[k] == q);
        }
        if o2.contains(q) && q != r {
            let k = choose|k: int| 0 <= k < o2.len() && o2[k] == q;
            assert(order[k] == q);
        }
        assert(o2[order.len() as int] == r);
    }
    assert forall|q: FileRef| #[trigger] e2.contains_key(ref_key(q)) <==> o2.contains(q) by {
        if ref_key(q) == ref_key(r) {
            lemma_ref_key_injective(q, r);
        }
    }
    assert forall|a: int, b: int| 0 <= a < b < o2.len() implies o2[a] != o2[b] by {
        if b == order.len() {
            assert(order.contains(o2[a]));
        }
    }
}

impl Tracker {
    #[verifier::type_invariant]
    closed spec fn inv(self) -> bool {
        tracked_wf(self.order@, self.entries@)
    }

    /// No file followed yet.
    pub fn new() -> (t: Tracker)
        ensures
            t@ == Map::<FileRef, Followed>::empty(),
    {
        let t = Tracker { order: Vec::new(), entries: HashMap::new() };
        assert(t@ =~= Map::<FileRef, Followed>::empty());
        t
    }

    /// Bring the followed files in line with a discovery scan made at time
    /// `now` (in seconds), keeping a file that disappeared for `grace`
    /// seconds from the first scan that missed it, and say which files to
    /// start following, which to move to a new path, and which to stop.
    #[verifier::rlimit(60)]
    pub fn reconcile(&mut self, files: &Vec<(String, FileRef)>, now: u64, grace: u64) -> (actions: Vec<
        TrackAction,
    >)
        ensures
            reconciled(old(self)@, final(self)@, files@, now, grace, actions@),
    {
        proof {
            use_type_invariant(&*self);
        }
        let ghost before = self@;
        let ghost latest = latest_paths(files@);
        let mut next_order: Vec<FileRef> = Vec::new();
        let mut next_entries: HashMap<u128, (String, Option<u64>)> = HashMap::new();
        let mut i: usize = 0;
        while i < files.len()
            invariant
                i <= files@.len(),
                tracked_wf(next_order@, next_entries@),
                tracked_paths(next_order@, next_entries@) == latest_paths(files@.take(i as int)),
                forall|r: FileRef| #[trigger] next_order@.contains(r) ==> next_entries@[ref_key(r)].1 is None,
            decreases files@.len() - i,
        {
            let file_ref = files[i].1;
            let key = key_of(file_ref);
            let path = files[i].0.clone();
            let ghost prev_order = next_order@;
            let ghost prev_entries = next_entries@;
            if next_entries.contains_key(&key) {
                next_entries.insert(key, (path, None));
                proof {
                    assert(prev_order.contains(file_ref));
                    assert forall|r: FileRef| #[trigger] next_entries@.contains_key(ref_key(r)) <==> next_order@.contains(r) by {
                        if ref_key(r) == key {
                            lemma_ref_key_injective(r, file_ref);
                        }
                    }
                }
            } else {
                next_entries.insert(key, (path, None));
                next_order.push(file_ref);
                proof {
                    lemma_add_entry(prev_order, prev_entries, file_ref, next_entries@[key]);
                }
            }
            proof {
                assert(files@.take(i + 1).drop_last() =~= files@.take(i as int));
                assert(files@.take(i + 1).last() == files@[i as int]);
                let lhs = tracked_paths(next_order@, next_entries@);
                let rhs = latest_paths(files@.take(i + 1));
                assert forall|r: FileRef| #[trigger] lhs.contains_key(r) <==> rhs.contains_key(r) by {
                    assert(prev_entries.contains_key(ref_key(r)) <==> prev_order.contains(r));
                    if ref_key(r) == key {
                        lemma_ref_key_injective(r, file_ref);
                    }
                    if next_order@.contains(r) && r != file_ref && !prev_order.contains(r) {
                        let k = choose|k: int| 0 <= k < next_order@.len() && next_order@[k] == r;
                        assert(prev_order[k] == r);
                    }
                    if prev_order.contains(r) {
                        let k = choose|k: int| 0 <= k < prev_order.len() && prev_order[k] == r;
                        assert(next_order@[k] == r);
                    }
                }
                assert forall|r: FileRef| lhs.contains_key(r) implies #[trigger] lhs[r] == rhs[r] by {
                    if ref_key(r) == key {
                        lemma_ref_key_injective(r, file_ref);
                    } else {
                        assert(prev_entries.contains_key(ref_key(r)) <==> prev_order.contains(r));
                        if !prev_order.contains(r) {
                            let k = choose|k: int| 0 <= k < next_order@.len() && next_order@[k] == r;
                            assert(prev_order[k] == r);
                        }
                    }
                }
                assert(lhs =~= rhs);
                assert forall|r: FileRef| #[trigger] next_order@.contains(r) implies next_entries@[ref_key(r)].1 is None by {
                    if ref_key(r) != key {
                        if !prev_order.contains(r) {
                            let k = choose|k: int| 0 <= k < next_order@.len() && next_order@[k] == r;
                            assert(prev_order[k] == r);
                        }
                    }
                }
            }
            i = i + 1;
        }
        assert(files@.take(files@.len() as int) =~= files@);
        assert forall|r: FileRef| #[trigger] latest.contains_key(r) <==> next_order@.contains(r) by {
            assert(tracked_paths(next_order@, next_entries@).contains_key(r) <==> next_order@.contains(r));
        }
        let ghost listed = next_order@;
        // Starts and moves, for the listed files.
        let mut actions: Vec<TrackAction> = Vec::new();
        let mut j: usize = 0;
        while j < next_order.len()
            invariant
                j <= next_order@.len(),
                next_order@ == listed,
                latest == latest_paths(files@),
                tracked_wf(next_order@, next_entries@),
                tracked_wf(self.order@, self.entries@),
                before == tracked_view(self.order@, self.entries@),
                latest == tracked_paths(next_order@, next_entries@),
                forall|r: FileRef| #[trigger] latest.contains_key(r) <==> listed.contains(r),
                actions@.len() <= j,
                forall|a: int|
                    0 <= a < actions@.len() ==> match #[trigger] actions@[a] {
                        TrackAction::Start { file_ref, path } => latest.contains_key(file_ref)
                            && !before.contains_key(file_ref) && path@ == latest[file_ref],
                        TrackAction::Retarget { file_ref, path } => latest.contains_key(file_ref)
                            && before.contains_key(file_ref) && before[file_ref].0 != latest[file_ref]
                            && path@ == latest[file_ref],
                        TrackAction::Stop { .. } => false,
                    },
                forall|a: int|
                    0 <= a < actions@.len() ==> exists|k: int|
                        0 <= k < j && listed[k] == (#[trigger] actions@[a]).target(),
                forall|k: int|
                    0 <= k < j && (!before.contains_key(#[trigger] listed[k]) || before[listed[k]].0
                        != latest[listed[k]]) ==> exists|a: int|
                        0 <= a < actions@.len() && (#[trigger] actions@[a]).target() == listed[k],
                forall|a: int, b: int|
                    0 <= a < b < actions@.len() ==> (#[trigger] actions@[a]).target() != (
                    #[trigger] actions@[b]).target(),
            decreases next_order@.len() - j,
        {
            let file_ref = next_order[j];
            let key = key_of(file_ref);
            assert(listed.contains(file_ref));
            let ghost prev = actions@;
            let mut acted = false;
            if !self.entries.contains_key(&key) {
                let path = next_entries.get(&key).unwrap().0.clone();
                actions.push(TrackAction::Start { file_ref, path });
                acted = true;
                proof {
                    assert(!self.order@.contains(file_ref));
                }
            } else {
                let old_path = &self.entries.get(&key).unwrap().0;
                let new_path = &next_entries.get(&key).unwrap().0;
                proof {
                    assert(self.order@.contains(file_ref));
                    assert(before[file_ref].0 == old_path@);
                    assert(latest[file_ref] == new_path@);
                }
                if *old_path != *new_path {
                    let path = new_path.clone();
                    actions.push(TrackAction::Retarget { file_ref, path });
                    acted = true;
                }
            }
            proof {
                if acted {
                    assert(actions@.len() == prev.len() + 1);
                    assert(actions@[prev.len() as int].target() == file_ref);
                    assert forall|a: int, b: int| 0 <= a < b < actions@.len() implies (#[trigger] actions@[a]).target() != (#[trigger] actions@[b]).target() by {
                        assert(actions@[a] == prev[a] || a == prev.len());
                        if b == prev.len() {
                            assert(actions@[a] == prev[a]);
                            let k = choose|k: int| 0 <= k < j && listed[k] == prev[a].target();
                        } else {
                            assert(actions@[b] == prev[b]);
                        }
                    }
                    assert forall|a: int| 0 <= a < actions@.len() implies exists|k: int|
                        0 <= k < j + 1 && listed[k] == (#[trigger] actions@[a]).target() by {
                        if a < prev.len() {
                            assert(actions@[a] == prev[a]);
                            let k = choose|k: int| 0 <= k < j && listed[k] == prev[a].target();
                        } else {
                            assert(listed[j as int] == actions@[a].target());
                        }
                    }
                    assert forall|k: int|
                        0 <= k < j + 1 && (!before.contains_key(#[trigger] listed[k]) || before[listed[k]].0
                            != latest[listed[k]]) implies exists|a: int|
                        0 <= a < actions@.len() && (#[trigger] actions@[a]).target() == listed[k] by {
                        if k < j {
                            let a = choose|a: int| 0 <= a < prev.len() && prev[a].target() == listed[k];
                            assert(actions@[a] == prev[a]);
                        }
                    }
                    assert forall|a: int| 0 <= a < actions@.len() implies match #[trigger] actions@[a] {
                        TrackAction::Start { file_ref, path } => latest.contains_key(file_ref)
                            && !before.contains_key(file_ref) && path@ == latest[file_ref],
                        TrackAction::Retarget { file_ref, path } => latest.contains_key(file_ref)
                            && before.contains_key(file_ref) && before[file_ref].0 != latest[file_ref]
                            && path@ == latest[file_ref],
                        TrackAction::Stop { .. } => false,
                    } by {
                        if a < prev.len() {
                            assert(actions@[a] == prev[a]);
                        }
                    }
                } else {
                    assert(actions@ == prev);
                    assert forall|a: int| 0 <= a < actions@.len() implies exists|k: int|
                        0 <= k < j + 1 && listed[k] == (#[trigger] actions@[a]).target() by {
                        let k = choose|k: int| 0 <= k < j && listed[k] == prev[a].target();
                    }
                }
            }
            j = j + 1;
        }
        // Stops, and files kept through their grace period.
        let ghost starts = actions@.len();
        let mut k: usize = 0;
        while k < self.order.len()
            invariant
                k <= self.order@.len(),
                starts <= actions@.len(),
                latest == latest_paths(files@),
                tracked_wf(next_order@, next_entries@),
                tracked_wf(self.order@, self.entries@),
                before == tracked_view(self.order@, self.entries@),
                forall|r: FileRef| #[trigger] latest.contains_key(r) <==> listed.contains(r),
                forall|r: FileRef|
                    #[trigger] next_order@.contains(r) <==> (listed.contains(r) || (self.order@.take(
                        k as int,
                    ).contains(r) && !grace_over(missing_since(before[r], now), now, grace))),
                forall|r: FileRef|
                    #[trigger] next_order@.contains(r) ==> tracked_view(next_order@, next_entries@)[r]
                        == next_followed(before, files@, now, grace)[r],
                forall|a: int|
                    0 <= a < actions@.len() ==> match #[trigger] actions@[a] {
                        TrackAction::Start { file_ref, path } => latest.contains_key(file_ref)
                            && !before.contains_key(file_ref) && path@ == latest[file_ref],
                        TrackAction::Retarget { file_ref, path } => latest.contains_key(file_ref)
                            && before.contains_key(file_ref) && before[file_ref].0 != latest[file_ref]
                            && path@ == latest[file_ref],
                        TrackAction::Stop { file_ref } => before.contains_key(file_ref)
                            && !latest.contains_key(file_ref) && grace_over(
                            missing_since(before[file_ref], now),
                            now,
                            grace,
                        ),
                    },
                forall|a: int|
                    0 <= a < starts ==> latest.contains_key((#[trigger] actions@[a]).target()),
                forall|a: int|
                    starts <= a < actions@.len() ==> exists|m: int|
                        0 <= m < k && self.order@[m] == (#[trigger] actions@[a]).target(),
                forall|r: FileRef|
                    #![trigger before.contains_key(r)]
                    #![trigger latest.contains_key(r)]
                    ((latest.contains_key(r) && !before.contains_key(r)) || (latest.contains_key(r)
                        && before.contains_key(r) && before[r].0 != latest[r])) ==> exists|a: int|
                        0 <= a < actions@.len() && (#[trigger] actions@[a]).target() == r,
                forall|m: int|
                    0 <= m < k && !latest.contains_key(#[trigger] self.order@[m]) && grace_over(
                        missing_since(before[self.order@[m]], now),
                        now,
                        grace,
                    ) ==> exists|a: int|
                        0 <= a < actions@.len() && (#[trigger] actions@[a]).target() == self.order@[m],
                forall|a: int, b: int|
                    0 <= a < b < actions@.len() ==> (#[trigger] actions@[a]).target() != (
                    #[trigger] actions@[b]).target(),
            decreases self.order@.len() - k,
        {
            let file_ref = self.order[k];
            let key = key_of(file_ref);
            let ghost prev_order = next_order@;
            let ghost prev_entries = next_entries@;
            let ghost prev = actions@;
            proof {
                assert(self.order@.contains(file_ref));
                let t0 = self.order@.take(k as int);
                let t1 = self.order@.take(k + 1);
                assert(t1 =~= t0.push(file_ref));
                assert(!t0.contains(file_ref)) by {
                    if t0.contains(file_ref) {
                        let m = choose|m: int| 0 <= m < t0.len() && t0[m] == file_ref;
                        assert(self.order@[m] == self.order@[k as int]);
                    }
                }
                assert forall|q: FileRef| #[trigger] t1.contains(q) <==> (t0.contains(q) || q == file_ref) by {
                    if t1.contains(q) && q != file_ref {
                        let m = choose|m: int| 0 <= m < t1.len() && t1[m] == q;
                        assert(t0[m] == q);
                    }
                    if t0.contains(q) {
                        let m = choose|m: int| 0 <= m < t0.len() && t0[m] == q;
                        assert(t1[m] == q);
                    }
                    assert(t1[k as int] == file_ref);
                }
            }
            if !next_entries.contains_key(&key) {
                let entry = self.entries.get(&key).unwrap();
                let since: u64 = match entry.1 {
                    Some(t) => t,
                    None => now,
                };
                proof {
                    assert(!listed.contains(file_ref));
                    assert(!latest.contains_key(file_ref));
                    assert(since == missing_since(before[file_ref], now));
                }
                if now >= since && now - since >= grace {
                    actions.push(TrackAction::Stop { file_ref });
                    proof {
                        assert(actions@[prev.len() as int].target() == file_ref);
                        assert forall|a: int, b: int| 0 <= a < b < actions@.len() implies (#[trigger] actions@[a]).target() != (#[trigger] actions@[b]).target() by {
                            if b == prev.len() {
                                assert(actions@[a] == prev[a]);
                                if a >= starts {
                                    let m = choose|m: int| 0 <= m < k && self.order@[m] == prev[a].target();
                                } else {
                                    assert(latest.contains_key(prev[a].target()));
                                }
                            } else {
                                assert(actions@[a] == prev[a] && actions@[b] == prev[b]);
                            }
                        }
                        assert forall|a: int| starts <= a < actions@.len() implies exists|m: int|
                            0 <= m < k + 1 && self.order@[m] == (#[trigger] actions@[a]).target() by {
                            if a < prev.len() {
                                assert(actions@[a] == prev[a]);
                                let m = choose|m: int| 0 <= m < k && self.order@[m] == prev[a].target();
                            } else {
                                assert(self.order@[k as int] == actions@[a].target());
                            }
                        }
                        assert forall|a: int| 0 <= a < starts implies latest.contains_key((#[trigger] actions@[a]).target()) by {
                            assert(actions@[a] == prev[a]);
                        }
                        assert forall|a: int| 0 <= a < actions@.len() implies match #[trigger] actions@[a] {
                            TrackAction::Start { file_ref, path } => latest.contains_key(file_ref)
                                && !before.contains_key(file_ref) && path@ == latest[file_ref],
                            TrackAction::Retarget { file_ref, path } => latest.contains_key(file_ref)
                                && before.contains_key(file_ref) && before[file_ref].0 != latest[file_ref]
                                && path@ == latest[file_ref],
                            TrackAction::Stop { file_ref } => before.contains_key(file_ref)
                                && !latest.contains_key(file_ref) && grace_over(
                                missing_since(before[file_ref], now),
                                now,
                                grace,
                            ),
                        } by {
                            if a < prev.len() {
                                assert(actions@[a] == prev[a]);
                            }
                        }
                        assert forall|r: FileRef|
                            ((latest.contains_key(r) && !before.contains_key(r)) || (latest.contains_key(r)
                                && before.contains_key(r) && before[r].0 != latest[r])) implies exists|a: int|
                                0 <= a < actions@.len() && (#[trigger] actions@[a]).target() == r by {
                            let a = choose|a: int| 0 <= a < prev.len() && (#[trigger] prev[a]).target() == r;
                            assert(actions@[a] == prev[a]);
                        }
                        assert forall|m: int|
                            0 <= m < k + 1 && !latest.contains_key(#[trigger] self.order@[m]) && grace_over(
                                missing_since(before[self.order@[m]], now),
                                now,
                                grace,
                            ) implies exists|a: int|
                                0 <= a < actions@.len() && (#[trigger] actions@[a]).target() == self.order@[m] by {
                            if m < k {
                                let a = choose|a: int| 0 <= a < prev.len() && (#[trigger] prev[a]).target() == self.order@[m];
                                assert(actions@[a] == prev[a]);
                            } else {
                                assert(actions@[prev.len() as int].target() == self.order@[m]);
                            }
                        }
                    }
                } else {
                    let path = entry.0.clone();
                    next_entries.insert(key, (path, Some(since)));
                    next_order.push(file_ref);
                    proof {
                        assert(!prev_order.contains(file_ref));
                        lemma_add_entry(prev_order, prev_entries, file_ref, next_entries@[key]);
                        assert(!grace_over(missing_since(before[file_ref], now), now, grace));
                        assert forall|r: FileRef| #[trigger] next_order@.contains(r) implies tracked_view(next_order@, next_entries@)[r]
                            == next_followed(before, files@, now, grace)[r] by {
                            if r == file_ref {
                                assert(entry == self.entries@[key]);
                                assert(before[file_ref] == (entry.0@, entry.1));
                                assert(next_entries@[key] == (entry.0, Some(since)));
                                assert(tracked_view(next_order@, next_entries@)[r] == (entry.0@, Some(since)));
                                assert(!latest.contains_key(r));
                                assert(latest == latest_paths(files@));
                            } else {
                                assert(prev_order.contains(r));
                                if ref_key(r) == key {
                                    lemma_ref_key_injective(r, file_ref);
                                }
                                assert(tracked_view(prev_order, prev_entries)[r] == next_followed(before, files@, now, grace)[r]);
                            }
                        }
                        assert forall|a: int| starts <= a < actions@.len() implies exists|m: int|
                            0 <= m < k + 1 && self.order@[m] == (#[trigger] actions@[a]).target() by {
                            let m = choose|m: int| 0 <= m < k && self.order@[m] == actions@[a].target();
                        }
                        assert forall|m: int|
                            0 <= m < k + 1 && !latest.contains_key(#[trigger] self.order@[m]) && grace_over(
                                missing_since(before[self.order@[m]], now),
                                now,
                                grace,
                            ) implies exists|a: int|
                                0 <= a < actions@.len() && (#[trigger] actions@[a]).target() == self.order@[m] by {
                            if m == k {
                                assert(self.order@[m] == file_ref);
                            }
                        }
                    }
                }
            } else {
                proof {
                    assert(next_order@.contains(file_ref));
                    assert(listed.contains(file_ref)) by {
                        if !listed.contains(file_ref) {
                            assert(self.order@.take(k as int).contains(file_ref));
                        }
                    }
                    assert forall|a: int| starts <= a < actions@.len() implies exists|m: int|
                        0 <= m < k + 1 && self.order@[m] == (#[trigger] actions@[a]).target() by {
                        let m = choose|m: int| 0 <= m < k && self.order@[m] == actions@[a].target();
                    }
                    assert forall|m: int|
                        0 <= m < k + 1 && !latest.contains_key(#[trigger] self.order@[m]) && grace_over(
                            missing_since(before[self.order@[m]], now),
                            now,
                            grace,
                        ) implies exists|a: int|
                            0 <= a < actions@.len() && (#[trigger] actions@[a]).target() == self.order@[m] by {
                        if m == k {
                            assert(self.order@[m] == file_ref);
                        }
                    }
                }
            }
            k = k + 1;
        }
        proof {
            assert(self.order@.take(self.order@.len() as int) =~= self.order@);
            let after = tracked_view(next_order@, next_entries@);
            let spec_after = next_followed(before, files@, now, grace);
            assert forall|r: FileRef| #[trigger] after.contains_key(r) <==> spec_after.contains_key(r) by {
                assert(before.contains_key(r) <==> self.order@.contains(r));
            }
            assert forall|r: FileRef| after.contains_key(r) implies #[trigger] after[r] == spec_after[r] by {
            }
            assert(after =~= spec_after);
            assert forall|r: FileRef|
                ((latest.contains_key(r) && !before.contains_key(r)) || (latest.contains_key(r)
                    && before.contains_key(r) && before[r].0 != latest[r]) || (before.contains_key(r)
                    && !after.contains_key(r))) implies exists|a: int|
                0 <= a < actions@.len() && (#[trigger] actions@[a]).target() == r by {
                if before.contains_key(r) && !after.contains_key(r) {
                    let m = choose|m: int| 0 <= m < self.order@.len() && self.order@[m] == r;
                    assert(!latest.contains_key(self.order@[m]));
                }
            }
        }
        *self = Tracker { order: next_order, entries: next_entries };
        actions
    }
}

/// The followed files include exactly the files of the latest scan: a file
/// is listed by the scan if and only if some entry names it, and the path
/// kept for it is that of the last entry naming it.
pub proof fn lemma_followed_are_discovered(files: Seq<(String, FileRef)>, r: FileRef)
    ensures
        latest_paths(files).contains_key(r) <==> exists|i: int| 0 <= i < files.len() && (#[trigger] files[i]).1 == r,
        latest_paths(files).contains_key(r) ==> exists|i: int|
            0 <= i < files.len() && (#[trigger] files[i]).1 == r && latest_paths(files)[r] == files[i].0@
                && forall|j: int| i < j < files.len() ==> (#[trigger] files[j]).1 != r,
    decreases files.len(),
{
    if files.len() > 0 {
        let init = files.drop_last();
        lemma_followed_are_discovered(init, r);
        let n = files.len() - 1;
        if files[n].1 != r {
            if exists|i: int| 0 <= i < init.len() && (#[trigger] init[i]).1 == r {
                let i = choose|i: int| 0 <= i < init.len() && (#[trigger] init[i]).1 == r && latest_paths(init)[r] == init[i].0@
                    && forall|j: int| i < j < init.len() ==> (#[trigger] init[j]).1 != r;
                assert(files[i] == init[i]);
                assert forall|j: int| i < j < files.len() implies (#[trigger] files[j]).1 != r by {
                    if j < n {
                        assert(files[j] == init[j]);
                    }
                }
            }
            if exists|i: int| 0 <= i < files.len() && (#[trigger] files[i]).1 == r {
                let i = choose|i: int| 0 <= i < files.len() && (#[trigger] files[i]).1 == r;
                assert(init[i] == files[i]);
            }
        } else {
            assert(files[n].1 == r);
        }
    }
}

/// Every file the scan lists is followed afterwards, under its latest path
/// and not marked missing.
pub proof fn lemma_listed_files_followed(
    before: Map<FileRef, Followed>,
    after: Map<FileRef, Followed>,
    files: Seq<(String, FileRef)>,
    now: u64,
    grace: u64,
    actions: Seq<TrackAction>,
    k: int,
)
    requires
        reconciled(before, after, files, now, grace, actions),
        0 <= k < files.len(),
    ensures
        after.contains_key(files[k].1),
        after[files[k].1] == (latest_paths(files)[files[k].1], None::<u64>),
{
    lemma_followed_are_discovered(files, files[k].1);
}

/// Reconciling with the scan the followed files already reflect (every file
/// listed, none missing) starts, moves and stops nothing.
pub proof fn lemma_reconcile_settles(
    before: Map<FileRef, Followed>,
    after: Map<FileRef, Followed>,
    files: Seq<(String, FileRef)>,
    now: u64,
    grace: u64,
    actions: Seq<TrackAction>,
)
    requires
        reconciled(before, after, files, now, grace, actions),
        before == latest_paths(files).map_values(|p: Seq<char>| (p, None::<u64>)),
    ensures
        actions.len() == 0,
        after == before,
{
    let latest = latest_paths(files);
    if actions.len() > 0 {
        let a = actions[0];
        match a {
            TrackAction::Start { file_ref, path } => {},
            TrackAction::Retarget { file_ref, path } => {},
            TrackAction::Stop { file_ref } => {
                assert(before.contains_key(file_ref));
                assert(latest.contains_key(file_ref));
            },
        }
    }
    assert(after =~= before);
}

/// A followed file that the scan lists, under whatever path (say after a
/// rename), is never restarted or stopped; the only action on it can be a
/// move to the path it is now listed under.
pub proof fn lemma_listed_file_keeps_follower(
    before: Map<FileRef, Followed>,
    after: Map<FileRef, Followed>,
    files: Seq<(String, FileRef)>,
    now: u64,
    grace: u64,
    actions: Seq<TrackAction>,
    r: FileRef,
    k: int,
)
    requires
        reconciled(before, after, files, now, grace, actions),
        before.contains_key(r),
        0 <= k < files.len(),
        files[k].1 == r,
    ensures
        forall|i: int|
            0 <= i < actions.len() && (#[trigger] actions[i]).target() == r ==> (actions[i] matches TrackAction::Retarget { path, .. } && path@ == latest_paths(files)[r]),
{
    lemma_followed_are_discovered(files, r);
    assert(after.contains_key(r));
}

/// A file is stopped only when the scan no longer lists it and its grace
/// period, counted from the first scan that missed it, is over.
pub proof fn lemma_stop_only_after_grace(
    before: Map<FileRef, Followed>,
    after: Map<FileRef, Followed>,
    files: Seq<(String, FileRef)>,
    now: u64,
    grace: u64,
    actions: Seq<TrackAction>,
    i: int,
)
    requires
        reconciled(before, after, files, now, grace, actions),
        0 <= i < actions.len(),
        actions[i] is Stop,
    ensures
        !latest_paths(files).contains_key(actions[i].target()),
        before.contains_key(actions[i].target()),
        now >= missing_since(before[actions[i].target()], now) + grace,
{
    let r = actions[i].target();
    assert(!after.contains_key(r));
}

/// The files that a scan listed, by path, each with the identity it was
/// listed with last.
pub open spec fn latest_refs(files: Seq<(String, FileRef)>) -> Map<Seq<char>, FileRef>
    decreases files.len(),
{
    if files.len() == 0 {
        Map::empty()
    } else {
        latest_refs(files.drop_last()).insert(files.last().0@, files.last().1)
    }
}

/// The files being followed in retry mode, by path: a path, once followed,
/// stays followed (its follower waits for the file to come back), and its
/// identity is the one last seen under that path.
pub struct RetryTracker {
    entries: Vec<(String, FileRef)>,
}

pub open spec fn entries_view(entries: Seq<(String, FileRef)>) -> Map<Seq<char>, FileRef> {
    latest_refs(entries)
}

/// No path is listed twice.
pub open spec fn paths_distinct(entries: Seq<(String, FileRef)>) -> bool {
    forall|i: int, j: int| 0 <= i < j < entries.len() ==> (#[trigger] entries[i]).0@ != (#[trigger] entries[j]).0@
}

impl View for RetryTracker {
    type V = Map<Seq<char>, FileRef>;

    closed spec fn view(&self) -> Map<Seq<char>, FileRef> {
        entries_view(self.entries@)
    }
}

/// In a list without repeated paths, a path is present exactly where it is
/// listed, with the identity listed beside it.
proof fn lemma_distinct_lookup(entries: Seq<(String, FileRef)>)
    requires
        paths_distinct(entries),
    ensures
        forall|i: int| 0 <= i < entries.len() ==> #[trigger] latest_refs(entries).contains_key(entries[i].0@)
            && latest_refs(entries)[entries[i].0@] == entries[i].1,
        forall|p: Seq<char>| #[trigger] latest_refs(entries).contains_key(p) ==> exists|i: int|
            0 <= i < entries.len() && (#[trigger] entries[i]).0@ == p,
    decreases entries.len(),
{
    if entries.len() > 0 {
        let init = entries.drop_last();
        assert(paths_distinct(init)) by {
            assert forall|i: int, j: int| 0 <= i < j < init.len() implies (#[trigger] init[i]).0@ != (#[trigger] init[j]).0@ by {
                assert(init[i] == entries[i] && init[j] == entries[j]);
            }
        }
        lemma_distinct_lookup(init);
        let last = entries.last();
        assert forall|i: int| 0 <= i < entries.len() implies #[trigger] latest_refs(entries).contains_key(entries[i].0@)
            && latest_refs(entries)[entries[i].0@] == entries[i].1 by {
            if i < entries.len() - 1 {
                assert(init[i] == entries[i]);
                assert(entries[i].0@ != entries[entries.len() - 1].0@);
                assert(latest_refs(init).contains_key(init[i].0@));
            }
        }
        assert forall|p: Seq<char>| #[trigger] latest_refs(entries).contains_key(p) implies exists|i: int|
            0 <= i < entries.len() && (#[trigger] entries[i]).0@ == p by {
            if p != last.0@ {
                assert(latest_refs(init).contains_key(p));
                let i = choose|i: int| 0 <= i < init.len() && (#[trigger] init[i]).0@ == p;
                assert(entries[i] == init[i]);
            } else {
                assert(entries[entries.len() - 1].0@ == p);
            }
        }
    }
}

impl RetryTracker {
    #[verifier::type_invariant]
    closed spec fn inv(self) -> bool {
        paths_distinct(self.entries@)
    }

    /// No path followed yet.
    pub fn new() -> (t: RetryTracker)
        ensures
            t@ == Map::<Seq<char>, FileRef>::empty(),
    {
        RetryTracker { entries: Vec::new() }
    }

    /// Add the paths of the latest scan to the followed paths and say which
    /// to start following. Paths are never dropped.
    pub fn reconcile(&mut self, files: &Vec<(String, FileRef)>) -> (actions: Vec<TrackAction>)
        ensures
            final(self)@ == old(self)@.union_prefer_right(latest_refs(files@)),
            forall|i: int|
                0 <= i < actions@.len() ==> match #[trigger] actions@[i] {
                    TrackAction::Start { file_ref, path } => !old(self)@.contains_key(path@)
                        && final(self)@.contains_key(path@) && final(self)@[path@] == file_ref,
                    _ => false,
                },
            forall|p: Seq<char>|
                #![trigger latest_refs(files@).contains_key(p)]
                latest_refs(files@).contains_key(p) && !old(self)@.contains_key(p) ==> exists|i: int|
                    0 <= i < actions@.len() && match #[trigger] actions@[i] {
                        TrackAction::Start { path, .. } => path@ == p,
                        _ => false,
                    },
            forall|i: int, j: int|
                0 <= i < j < actions@.len() ==> match (#[trigger] actions@[i], #[trigger] actions@[j]) {
                    (TrackAction::Start { path: a, .. }, TrackAction::Start { path: b, .. }) => a@ != b@,
                    _ => true,
                },
    {
        proof {
            use_type_invariant(&*self);
        }
        let mut entries: Vec<(String, FileRef)> = Vec::new();
        std::mem::swap(&mut entries, &mut self.entries);
        let ghost before = entries@;
        let old_len = entries.len();
        proof {
            lemma_distinct_lookup(before);
        }
        let mut i: usize = 0;
        while i < files.len()
            invariant
                i <= files@.len(),
                old_len == before.len(),
                old_len <= entries@.len(),
                paths_distinct(entries@),
                paths_distinct(before),
                forall|k: int| 0 <= k < old_len ==> (#[trigger] entries@[k]).0@ == before[k].0@,
                latest_refs(entries@) == latest_refs(before).union_prefer_right(latest_refs(files@.take(i as int))),
                forall|k: int| old_len <= k < entries@.len() ==> !latest_refs(before).contains_key((#[trigger] entries@[k]).0@),
            decreases files@.len() - i,
        {
            let ghost prev = entries@;
            let (ref path, file_ref) = files[i];
            proof {
                lemma_distinct_lookup(prev);
                assert(files@.take(i + 1).drop_last() =~= files@.take(i as int));
                assert(files@.take(i + 1).last() == files@[i as int]);
            }
            let mut k: usize = 0;
            let mut found = false;
            while k < entries.len()
                invariant_except_break
                    !found,
                    k <= entries@.len(),
                    entries@ == prev,
                    forall|m: int| 0 <= m < k ==> (#[trigger] prev[m]).0@ != path@,
                ensures
                    k <= prev.len(),
                    found ==> k < prev.len() && prev[k as int].0@ == path@ && entries@ == prev,
                    !found ==> k == prev.len() && entries@ == prev && forall|m: int| 0 <= m < prev.len() ==> (#[trigger] prev[m]).0@ != path@,
                decreases entries@.len() - k,
            {
                if entries[k].0 == *path {
                    found = true;
                    break;
                }
                k = k + 1;
            }
            if found {
                let (p, _) = entries.remove(k);
                entries.insert(k, (p, file_ref));
                proof {
                    assert(entries@ =~= prev.update(k as int, (prev[k as int].0, file_ref)));
                    assert(paths_distinct(entries@)) by {
                        assert forall|a: int, b: int| 0 <= a < b < entries@.len() implies (#[trigger] entries@[a]).0@ != (#[trigger] entries@[b]).0@ by {
                            assert(entries@[a].0@ == prev[a].0@ && entries@[b].0@ == prev[b].0@);
                        }
                    }
                    lemma_distinct_lookup(entries@);
                    let lhs = latest_refs(entries@);
                    let rhs = latest_refs(before).union_prefer_right(latest_refs(files@.take(i + 1)));
                    assert forall|q: Seq<char>| #[trigger] lhs.contains_key(q) <==> rhs.contains_key(q) by {
                        if lhs.contains_key(q) {
                            let m = choose|m: int| 0 <= m < entries@.len() && (#[trigger] entries@[m]).0@ == q;
                            assert(prev[m].0@ == q);
                        }
                        if latest_refs(prev).contains_key(q) {
                            let m = choose|m: int| 0 <= m < prev.len() && (#[trigger] prev[m]).0@ == q;
                            assert(entries@[m].0@ == q);
                        }
                    }
                    assert forall|q: Seq<char>| lhs.contains_key(q) implies #[trigger] lhs[q] == rhs[q] by {
                        let m = choose|m: int| 0 <= m < entries@.len() && (#[trigger] entries@[m]).0@ == q;
                        assert(lhs.contains_key(entries@[m].0@));
                        if m != k {
                            assert(entries@[m] == prev[m]);
                            assert(latest_refs(prev).contains_key(prev[m].0@));
                            assert(q != path@);
                        } else {
                            assert(q == path@);
                        }
                    }
                    assert(lhs =~= rhs);
                    assert forall|m: int| 0 <= m < old_len implies (#[trigger] entries@[m]).0@ == before[m].0@ by {
                        assert(entries@[m].0@ == prev[m].0@);
                    }
                    assert forall|m: int| old_len <= m < entries@.len() implies !latest_refs(before).contains_key((#[trigger] entries@[m]).0@) by {
                        assert(entries@[m].0@ == prev[m].0@);
                    }
                }
            } else {
                entries.push((path.clone(), file_ref));
                proof {
                    assert(entries@ =~= prev.push((*path, file_ref)));
                    assert(paths_distinct(entries@)) by {
                        assert forall|a: int, b: int| 0 <= a < b < entries@.len() implies (#[trigger] entries@[a]).0@ != (#[trigger] entries@[b]).0@ by {
                            if b < prev.len() {
                                assert(entries@[a] == prev[a] && entries@[b] == prev[b]);
                            } else {
                                assert(entries@[a] == prev[a]);
                            }
                        }
                    }
                    assert(latest_refs(entries@) == latest_refs(prev).insert(path@, file_ref)) by {
                        assert(entries@.drop_last() =~= prev);
                    }
                    assert(latest_refs(entries@) =~= latest_refs(before).union_prefer_right(latest_refs(files@.take(i + 1))));
                    assert(!latest_refs(prev).contains_key(path@));
                    assert(!latest_refs(before).contains_key(path@)) by {
                        if latest_refs(before).contains_key(path@) {
                            assert(latest_refs(prev).contains_key(path@));
                        }
                    }
                    assert forall|m: int| 0 <= m < old_len implies (#[trigger] entries@[m]).0@ == before[m].0@ by {
                        assert(entries@[m] == prev[m]);
                    }
                    assert forall|m: int| old_len <= m < entries@.len() implies !latest_refs(before).contains_key((#[trigger] entries@[m]).0@) by {
                        if m < prev.len() {
                            assert(entries@[m] == prev[m]);
                        }
                    }
                }
            }
            i = i + 1;
        }
        assert(files@.take(files@.len() as int) =~= files@);
        let ghost after = entries@;
        proof {
            lemma_distinct_lookup(after);
        }
        let mut actions: Vec<TrackAction> = Vec::new();
        let mut j: usize = old_len;
        while j < entries.len()
            invariant
                old_len <= j <= entries@.len(),
                entries@ == after,
                paths_distinct(after),
                forall|k: int| old_len <= k < after.len() ==> !latest_refs(before).contains_key((#[trigger] after[k]).0@),
                actions@.len() == j - old_len,
                forall|a: int|
                    0 <= a < actions@.len() ==> match #[trigger] actions@[a] {
                        TrackAction::Start { file_ref, path } => path@ == after[old_len + a].0@ && file_ref == after[old_len + a].1,
                        _ => false,
                    },
            decreases entries@.len() - j,
        {
            let path = entries[j].0.clone();
            actions.push(TrackAction::Start { file_ref: entries[j].1, path });
            j = j + 1;
        }
        proof {
            let fin = latest_refs(after);
            assert forall|i: int| 0 <= i < actions@.len() implies match #[trigger] actions@[i] {
                TrackAction::Start { file_ref, path } => !latest_refs(before).contains_key(path@)
                    && fin.contains_key(path@) && fin[path@] == file_ref,
                _ => false,
            } by {
                assert(after[old_len + i].0@ == after[old_len + i].0@);
            }
            assert forall|p: Seq<char>|
                #![trigger latest_refs(files@).contains_key(p)]
                latest_refs(files@).contains_key(p) && !latest_refs(before).contains_key(p) implies exists|i: int|
                    0 <= i < actions@.len() && match #[trigger] actions@[i] {
                        TrackAction::Start { path, .. } => path@ == p,
                        _ => false,
                    } by {
                assert(fin.contains_key(p));
                let m = choose|m: int| 0 <= m < after.len() && (#[trigger] after[m]).0@ == p;
                if m < old_len {
                    assert(after[m].0@ == before[m].0@);
                    lemma_distinct_lookup(before);
                    assert(latest_refs(before).contains_key(before[m].0@));
                }
                let a = m - old_len;
                assert(actions@[a] is Start);
            }
            assert forall|i: int, j: int| 0 <= i < j < actions@.len() implies match (#[trigger] actions@[i], #[trigger] actions@[j]) {
                (TrackAction::Start { path: a, .. }, TrackAction::Start { path: b, .. }) => a@ != b@,
                _ => true,
            } by {
                assert(after[old_len + i].0@ != after[old_len + j].0@);
            }
        }
        self.entries = entries;
        actions
    }
}

} // verus!
