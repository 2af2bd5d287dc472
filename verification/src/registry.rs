//! The owned registry: one typed object holding every playback cursor,
//! group and tick bucket of the engine.
//!
//! A bucket gathers every resource sharing one tick period and owns the
//! per-group cursors of that period.  The host drives each bucket with
//! `tick_bucket`, handing in the liveness flag of every member; the
//! registry decides everything else: pruning, wrapping, which buffers to
//! assemble, and when the bucket itself terminates.

use vstd::prelude::*;
use crate::container::AnimationBNTX;
use crate::playback::Cursor;
use crate::playback::LoopPolicy;
use crate::playback::spec_wrap;
use crate::playback::spec_tick;
use crate::playback::wrap_cursor;
use crate::playback::advance_cursor;

verus! {

/// One registered resource: its identifying hash, its parsed container,
/// and its own cursor (used only when the resource is ungrouped).
pub struct Member {
    pub hash: u64,
    pub anim: AnimationBNTX,
    pub cursor: Cursor,
}

/// The shared playback state of one group within a bucket.
#[derive(Clone, Copy, Debug, PartialEq, Eq, Structural)]
pub struct GroupState {
    pub key: u64,
    pub cursor: Cursor,
    /// Loop policy recorded when the group was created, from the first
    /// descriptor registered into it; descriptors sharing a group are
    /// expected to share their timing metadata.
    pub policy: LoopPolicy,
}

/// Every resource and group sharing one tick period.
pub struct Bucket {
    pub period_ms: u64,
    pub members: Vec<Member>,
    pub groups: Vec<GroupState>,
}

/// All buckets, keyed by tick period.
pub struct Registry {
    pub buckets: Vec<Bucket>,
}

/// One assembled output buffer owed to the host after a tick.
pub struct Refresh {
    pub hash: u64,
    pub data: Vec<u8>,
}

/// The group key within a bucket.  Two descriptors share a cursor exactly
/// when they sit in the same bucket (same tick period) and agree on the
/// group number and the loop flag, so the key packs the latter two; the
/// period is the bucket's.
pub open spec fn spec_group_key_of(group_number: u32, loop_enabled: bool) -> u64 {
    ((group_number as u64) * 2 + if loop_enabled {
        1u64
    } else {
        0u64
    }) as u64
}

/// Computes the group key of a descriptor's group number and loop flag.
pub fn group_key_of(group_number: u32, loop_enabled: bool) -> (r: u64)
    ensures
        r == spec_group_key_of(group_number, loop_enabled),
{
    (group_number as u64) * 2 + if loop_enabled {
        1u64
    } else {
        0u64
    }
}

impl Member {
    /// A non-zero group number makes playback shared.
    pub open spec fn spec_grouped(self) -> bool {
        self.anim.group_number != 0
    }

    /// The group key this member resolves its cursor through.
    pub open spec fn spec_key(self) -> u64 {
        spec_group_key_of(self.anim.group_number, self.anim.loop_animation == 1)
    }
}

pub open spec fn spec_has_group(gs: Seq<GroupState>, key: u64) -> bool {
    exists|i: int| 0 <= i < gs.len() && (#[trigger] gs[i]).key == key
}

/// The group with `key`; well defined wherever keys are unique and the
/// key is present.
pub open spec fn spec_group_at(gs: Seq<GroupState>, key: u64) -> GroupState {
    gs[choose|i: int| 0 <= i < gs.len() && (#[trigger] gs[i]).key == key]
}

impl Bucket {
    /// Internal consistency of one bucket: every member's container is
    /// consistent, member hashes and group keys are unique, and every
    /// grouped member's group exists.
    pub open spec fn wf(self) -> bool {
        &&& forall|i: int| 0 <= i < self.members@.len() ==> (#[trigger] self.members@[i]).anim.wf()
        &&& forall|i: int, j: int|
            0 <= i < j < self.members@.len() ==> (#[trigger] self.members@[i]).hash != (
            #[trigger] self.members@[j]).hash
        &&& forall|i: int|
            0 <= i < self.members@.len() && (#[trigger] self.members@[i]).spec_grouped()
                ==> spec_has_group(self.groups@, self.members@[i].spec_key())
        &&& forall|i: int, j: int|
            0 <= i < j < self.groups@.len() ==> (#[trigger] self.groups@[i]).key != (
            #[trigger] self.groups@[j]).key
    }

    pub open spec fn spec_has_hash(self, h: u64) -> bool {
        exists|k: int| 0 <= k < self.members@.len() && (#[trigger] self.members@[k]).hash == h
    }
}

pub open spec fn spec_has_bucket_seq(s: Seq<Bucket>, p: u64) -> bool {
    exists|i: int| 0 <= i < s.len() && (#[trigger] s[i]).period_ms == p
}

impl Registry {
    /// Internal consistency: every bucket is consistent, periods are
    /// unique, and no resource hash appears in two buckets.
    pub open spec fn wf(self) -> bool {
        &&& forall|i: int| 0 <= i < self.buckets@.len() ==> (#[trigger] self.buckets@[i]).wf()
        &&& forall|i: int, j: int|
            0 <= i < j < self.buckets@.len() ==> (#[trigger] self.buckets@[i]).period_ms != (
            #[trigger] self.buckets@[j]).period_ms
        &&& forall|i: int, j: int, h: u64|
            0 <= i < j < self.buckets@.len() && (#[trigger] self.buckets@[i].spec_has_hash(h))
                ==> !(#[trigger] self.buckets@[j].spec_has_hash(h))
    }

    pub open spec fn spec_has_bucket(self, p: u64) -> bool {
        spec_has_bucket_seq(self.buckets@, p)
    }

    /// The bucket with period `p`; well defined wherever `wf` holds and
    /// the period is present.
    pub open spec fn spec_bucket_at(self, p: u64) -> Bucket {
        self.buckets@[choose|i: int| 0 <= i < self.buckets@.len() && (#[trigger] self.buckets@[i]).period_ms == p]
    }

    pub open spec fn spec_has_resource(self, h: u64) -> bool {
        exists|i: int| 0 <= i < self.buckets@.len() && (#[trigger] self.buckets@[i]).spec_has_hash(h)
    }

    /// The stored per-resource cursor of resource `h`, if registered.
    pub open spec fn spec_resource_cursor(self, h: u64) -> Option<Cursor> {
        if self.spec_has_resource(h) {
            let b = self.buckets@[choose|i: int|
                0 <= i < self.buckets@.len() && (#[trigger] self.buckets@[i]).spec_has_hash(h)];
            let k = choose|k: int| 0 <= k < b.members@.len() && (#[trigger] b.members@[k]).hash == h;
            Some(b.members@[k].cursor)
        } else {
            None
        }
    }

    /// The cursor of group `key` in the bucket of period `p`; `None` once
    /// the bucket or the group is gone.
    pub open spec fn spec_group_cursor(self, p: u64, key: u64) -> Option<Cursor> {
        if self.spec_has_bucket(p) && spec_has_group(self.spec_bucket_at(p).groups@, key) {
            Some(spec_group_at(self.spec_bucket_at(p).groups@, key).cursor)
        } else {
            None
        }
    }

    /// An empty registry.
    pub fn new() -> (r: Registry)
        ensures
            r.wf(),
            r.buckets@.len() == 0,
    {
        Registry { buckets: Vec::new() }
    }

    /// Index of the bucket with period `p`, if any.
    fn find_bucket(&self, p: u64) -> (r: Option<usize>)
        ensures
            r matches Some(i) ==> i < self.buckets@.len() && self.buckets@[i as int].period_ms
                == p,
            r is None ==> !self.spec_has_bucket(p),
    {
        let n = self.buckets.len();
        let mut i: usize = 0;
        while i < n
            invariant
                i <= n,
                n == self.buckets@.len(),
                forall|k: int| 0 <= k < i ==> (#[trigger] self.buckets@[k]).period_ms != p,
            decreases n - i,
        {
            if self.buckets[i].period_ms == p {
                return Some(i);
            }
            i += 1;
        }
        None
    }

    /// Whether a bucket for period `p` exists.
    pub fn has_bucket(&self, p: u64) -> (r: bool)
        ensures
            r == self.spec_has_bucket(p),
    {
        match self.find_bucket(p) {
            Some(_) => true,
            None => false,
        }
    }

    /// Whether resource `h` is registered anywhere.
    pub fn contains_resource(&self, h: u64) -> (r: bool)
        ensures
            r == self.spec_has_resource(h),
    {
        let n = self.buckets.len();
        let mut i: usize = 0;
        while i < n
            invariant
                i <= n,
                n == self.buckets@.len(),
                forall|k: int| 0 <= k < i ==> !(#[trigger] self.buckets@[k]).spec_has_hash(h),
            decreases n - i,
        {
            if bucket_member_index(&self.buckets[i], h).is_some() {
                return true;
            }
            i += 1;
        }
        false
    }
}

/// Index of the member with hash `h` in a bucket, if any.
fn bucket_member_index(b: &Bucket, h: u64) -> (r: Option<usize>)
    ensures
        r matches Some(k) ==> k < b.members@.len() && b.members@[k as int].hash == h
            && b.spec_has_hash(h),
        r is None ==> !b.spec_has_hash(h),
{
    let n = b.members.len();
    let mut k: usize = 0;
    while k < n
        invariant
            k <= n,
            n == b.members@.len(),
            forall|t: int| 0 <= t < k ==> (#[trigger] b.members@[t]).hash != h,
        decreases n - k,
    {
        if b.members[k].hash == h {
            return Some(k);
        }
        k += 1;
    }
    None
}

/// Index of the group with `key` in a group table, if any.
fn group_index(gs: &Vec<GroupState>, key: u64) -> (r: Option<usize>)
    ensures
        r matches Some(i) ==> i < gs@.len() && gs@[i as int].key == key && spec_has_group(
            gs@,
            key,
        ),
        r is None ==> !spec_has_group(gs@, key),
{
    let n = gs.len();
    let mut i: usize = 0;
    while i < n
        invariant
            i <= n,
            n == gs@.len(),
            forall|k: int| 0 <= k < i ==> (#[trigger] gs@[k]).key != key,
        decreases n - i,
    {
        if gs[i].key == key {
            return Some(i);
        }
        i += 1;
    }
    None
}

/// The group table after a registration: unchanged for an ungrouped
/// member or an existing group, extended by a fresh zeroed group state
/// otherwise.
pub open spec fn spec_registered_groups(gs: Seq<GroupState>, m: Member) -> Seq<GroupState> {
    if !m.spec_grouped() || spec_has_group(gs, m.spec_key()) {
        gs
    } else {
        gs.push(
            GroupState {
                key: m.spec_key(),
                cursor: Cursor { current_frame: 0u32, current_loop_count: 0i32 },
                policy: m.anim.spec_policy(),
            },
        )
    }
}

/// All buckets other than the one of period `p0` are untouched.
pub open spec fn spec_other_buckets_unchanged(pre: Registry, post: Registry, p0: u64) -> bool {
    forall|p: u64|
        p != p0 ==> #[trigger] post.spec_has_bucket(p) == pre.spec_has_bucket(p) && (
        pre.spec_has_bucket(p) ==> post.spec_bucket_at(p) == pre.spec_bucket_at(p))
}

impl Registry {
    /// Registers a parsed container under its resource hash into the
    /// bucket of `tick_period_ms`, creating the bucket and, for a grouped
    /// descriptor, the group state when absent.  The new member starts on
    /// a zeroed cursor; a fresh group does too.
    pub fn register(&mut self, hash: u64, anim: AnimationBNTX, tick_period_ms: u64)
        requires
            old(self).wf(),
            anim.wf(),
            !old(self).spec_has_resource(hash),
        ensures
            final(self).wf(),
            final(self).spec_has_bucket(tick_period_ms),
            final(self).spec_has_resource(hash),
            ({
                let nb = final(self).spec_bucket_at(tick_period_ms);
                let newm = Member {
                    hash,
                    anim,
                    cursor: Cursor { current_frame: 0u32, current_loop_count: 0i32 },
                };
                &&& nb.period_ms == tick_period_ms
                &&& (old(self).spec_has_bucket(tick_period_ms) ==> nb.members@ == old(self).spec_bucket_at(tick_period_ms).members@.push(newm) && nb.groups@
                    == spec_registered_groups(
                    old(self).spec_bucket_at(tick_period_ms).groups@,
                    newm,
                ) && final(self).buckets@.len() == old(self).buckets@.len())
                &&& (!old(self).spec_has_bucket(tick_period_ms) ==> nb.members@ == seq![newm]
                    && nb.groups@ == spec_registered_groups(Seq::<GroupState>::empty(), newm)
                    && final(self).buckets@.len() == old(self).buckets@.len() + 1)
                &&& (anim.group_number != 0 ==> spec_has_group(nb.groups@, newm.spec_key()))
            }),
            spec_other_buckets_unchanged(*old(self), *final(self), tick_period_ms),
    {
        let grouped = anim.group_number != 0;
        let key = group_key_of(anim.group_number, anim.loop_animation == 1);
        let pol = anim.policy();
        let newm = Member { hash, anim, cursor: Cursor::zeroed() };
        let ghost gm = newm;
        match self.find_bucket(tick_period_ms) {
            Some(bi) => {
                proof {
                    let ci = choose|i: int|
                        0 <= i < old(self).buckets@.len() && (#[trigger] old(self).buckets@[i]).period_ms == tick_period_ms;
                    assert(ci == bi as int);
                }
                let mut b = self.buckets.remove(bi);
                let ghost ob = b;
                b.members.push(newm);
                if grouped {
                    match group_index(&b.groups, key) {
                        Some(_) => (),
                        None => {
                            b.groups.push(
                                GroupState { key, cursor: Cursor::zeroed(), policy: pol },
                            );
                        },
                    }
                }
                let ghost nb = b;
                self.buckets.insert(bi, b);
                proof {
                    assert(self.buckets@ =~= old(self).buckets@.update(bi as int, nb));
                    assert(nb.members@ == ob.members@.push(gm));
                    assert(nb.groups@ == spec_registered_groups(ob.groups@, gm));
                    assert(forall|h2: u64|
                        #[trigger] nb.spec_has_hash(h2) ==> ob.spec_has_hash(h2) || h2 == hash)
                        by {
                        assert forall|h2: u64| #[trigger]
                            nb.spec_has_hash(h2) implies ob.spec_has_hash(h2) || h2
                            == hash by {
                            let k = choose|k: int|
                                0 <= k < nb.members@.len() && (#[trigger] nb.members@[k]).hash
                                    == h2;
                            if k < ob.members@.len() {
                                assert(ob.members@[k].hash == h2);
                            }
                        }
                    }
                    assert(nb.wf()) by {
                        assert(forall|i: int|
                            0 <= i < nb.members@.len() ==> (#[trigger] nb.members@[i]).anim.wf());
                        assert(!ob.spec_has_hash(hash)) by {
                            assert(old(self).buckets@[bi as int] == ob);
                        }
                        assert(forall|i: int, j: int|
                            0 <= i < j < nb.members@.len() ==> (#[trigger] nb.members@[i]).hash
                                != (#[trigger] nb.members@[j]).hash) by {
                            assert forall|i: int, j: int|
                                0 <= i < j < nb.members@.len() implies (
                            #[trigger] nb.members@[i]).hash != (
                            #[trigger] nb.members@[j]).hash by {
                                if j < ob.members@.len() {
                                } else {
                                    assert(nb.members@[j] == gm);
                                    if ob.members@[i].hash == hash {
                                        assert(ob.spec_has_hash(hash));
                                    }
                                }
                            }
                        }
                        assert forall|i: int|
                            0 <= i < nb.members@.len() && (#[trigger] nb.members@[i]).spec_grouped()
                                implies spec_has_group(nb.groups@, nb.members@[i].spec_key()) by {
                            if i < ob.members@.len() {
                                assert(spec_has_group(ob.groups@, ob.members@[i].spec_key()));
                                let w = choose|w: int|
                                    0 <= w < ob.groups@.len() && (#[trigger] ob.groups@[w]).key
                                        == ob.members@[i].spec_key();
                                assert(nb.groups@[w].key == ob.members@[i].spec_key());
                            } else {
                                assert(nb.members@[i] == gm);
                                if spec_has_group(ob.groups@, gm.spec_key()) {
                                    let w = choose|w: int|
                                        0 <= w < ob.groups@.len() && (#[trigger] ob.groups@[w]).key
                                            == gm.spec_key();
                                    assert(nb.groups@[w].key == gm.spec_key());
                                } else {
                                    assert(nb.groups@[ob.groups@.len() as int].key
                                        == gm.spec_key());
                                }
                            }
                        }
                    }
                    assert(self.spec_has_bucket(tick_period_ms)) by {
                        assert(self.buckets@[bi as int].period_ms == tick_period_ms);
                    }
                    assert(self.spec_bucket_at(tick_period_ms) == nb) by {
                        let ci = choose|i: int|
                            0 <= i < self.buckets@.len() && (#[trigger] self.buckets@[i]).period_ms
                                == tick_period_ms;
                        assert(self.buckets@[bi as int].period_ms == tick_period_ms);
                        if ci != bi as int {
                            assert(old(self).buckets@[ci].period_ms == tick_period_ms);
                        }
                    }
                    assert(self.spec_has_resource(hash)) by {
                        assert(nb.members@[ob.members@.len() as int].hash == hash);
                        assert(nb.spec_has_hash(hash));
                        assert(self.buckets@[bi as int].spec_has_hash(hash));
                    }
                    assert(self.wf()) by {
                        assert forall|i: int, j: int, h: u64|
                            0 <= i < j < self.buckets@.len() && (
                            #[trigger] self.buckets@[i].spec_has_hash(h)) implies !(
                        #[trigger] self.buckets@[j].spec_has_hash(h)) by {
                            if i == bi as int {
                                if !old(self).buckets@[i].spec_has_hash(h) {
                                    assert(h == hash);
                                    if old(self).buckets@[j].spec_has_hash(hash) {
                                        assert(old(self).spec_has_resource(hash));
                                    }
                                }
                            } else if j == bi as int {
                                if self.buckets@[j].spec_has_hash(h) && !old(self).buckets@[j].spec_has_hash(h) {
                                    assert(h == hash);
                                    assert(old(self).buckets@[i].spec_has_hash(hash)
                                        ==> old(self).spec_has_resource(hash));
                                }
                            }
                        }
                    }
                    assert(spec_other_buckets_unchanged(*old(self), *self, tick_period_ms)) by {
                    assert forall|p: u64| p != tick_period_ms implies #[trigger] self
                        .spec_has_bucket(p) == old(self).spec_has_bucket(p) && (old(self).spec_has_bucket(p) ==> self.spec_bucket_at(p) == old(self).spec_bucket_at(
                        p,
                    )) by {
                        assert(forall|k: int|
                            0 <= k < self.buckets@.len() && k != bi as int
                                ==> #[trigger] self.buckets@[k] == old(self).buckets@[k]);
                        if old(self).spec_has_bucket(p) {
                            let oi = choose|i: int|
                                0 <= i < old(self).buckets@.len() && (#[trigger] old(self).buckets@[i]).period_ms == p;
                            assert(oi != bi as int);
                            assert(self.buckets@[oi].period_ms == p);
                            let ni = choose|i: int|
                                0 <= i < self.buckets@.len() && (
                                #[trigger] self.buckets@[i]).period_ms == p;
                            if ni != oi {
                                if ni == bi as int {
                                    assert(self.buckets@[ni].period_ms == tick_period_ms);
                                } else {
                                    assert(old(self).buckets@[ni].period_ms == p);
                                }
                            }
                        } else {
                            if self.spec_has_bucket(p) {
                                let ni = choose|i: int|
                                    0 <= i < self.buckets@.len() && (
                                    #[trigger] self.buckets@[i]).period_ms == p;
                                assert(ni != bi as int);
                                assert(old(self).buckets@[ni].period_ms == p);
                            }
                        }
                    }
                    }
                }
            },
            None => {
                let mut members: Vec<Member> = Vec::new();
                members.push(newm);
                let mut groups: Vec<GroupState> = Vec::new();
                if grouped {
                    groups.push(GroupState { key, cursor: Cursor::zeroed(), policy: pol });
                }
                let ghost nb = Bucket { period_ms: tick_period_ms, members, groups };
                let nbv = Bucket { period_ms: tick_period_ms, members, groups };
                self.buckets.push(nbv);
                proof {
                    let n0 = old(self).buckets@.len() as int;
                    assert(self.buckets@ == old(self).buckets@.push(nb));
                    assert(nb.members@ =~= seq![gm]);
                    assert(nb.groups@ =~= spec_registered_groups(Seq::<GroupState>::empty(), gm));
                    assert(nb.wf()) by {
                        if gm.spec_grouped() {
                            assert(nb.groups@[0].key == gm.spec_key());
                        }
                    }
                    assert(self.spec_has_bucket(tick_period_ms)) by {
                        assert(self.buckets@[n0].period_ms == tick_period_ms);
                    }
                    assert(self.spec_bucket_at(tick_period_ms) == nb) by {
                        let ci = choose|i: int|
                            0 <= i < self.buckets@.len() && (#[trigger] self.buckets@[i]).period_ms
                                == tick_period_ms;
                        if ci != n0 {
                            assert(old(self).buckets@[ci].period_ms == tick_period_ms);
                        }
                    }
                    assert(self.spec_has_resource(hash)) by {
                        assert(nb.members@[0].hash == hash);
                        assert(self.buckets@[n0].spec_has_hash(hash));
                    }
                    assert(self.wf()) by {
                        assert(forall|k: int|
                            0 <= k < n0 ==> (#[trigger] self.buckets@[k]) == old(self).buckets@[k]);
                        assert forall|i: int, j: int|
                            0 <= i < j < self.buckets@.len() implies (
                        #[trigger] self.buckets@[i]).period_ms != (
                        #[trigger] self.buckets@[j]).period_ms by {
                            if j == n0 {
                                assert(!old(self).spec_has_bucket(tick_period_ms));
                            }
                        }
                        assert forall|i: int, j: int, h: u64|
                            0 <= i < j < self.buckets@.len() && (
                            #[trigger] self.buckets@[i].spec_has_hash(h)) implies !(
                        #[trigger] self.buckets@[j].spec_has_hash(h)) by {
                            if j == n0 {
                                if self.buckets@[j].spec_has_hash(h) {
                                    assert(nb.members@[0].hash == h);
                                    if old(self).buckets@[i].spec_has_hash(hash) {
                                        assert(old(self).spec_has_resource(hash));
                                    }
                                }
                            }
                        }
                    }
                    assert(spec_other_buckets_unchanged(*old(self), *self, tick_period_ms)) by {
                    assert forall|p: u64| p != tick_period_ms implies #[trigger] self
                        .spec_has_bucket(p) == old(self).spec_has_bucket(p) && (old(self).spec_has_bucket(p) ==> self.spec_bucket_at(p) == old(self).spec_bucket_at(
                        p,
                    )) by {
                        if old(self).spec_has_bucket(p) {
                            let oi = choose|i: int|
                                0 <= i < old(self).buckets@.len() && (#[trigger] old(self).buckets@[i]).period_ms == p;
                            assert(self.buckets@[oi].period_ms == p);
                            let ni = choose|i: int|
                                0 <= i < self.buckets@.len() && (
                                #[trigger] self.buckets@[i]).period_ms == p;
                            if ni != oi {
                                if ni == n0 {
                                } else {
                                    assert(old(self).buckets@[ni].period_ms == p);
                                }
                            }
                        } else {
                            if self.spec_has_bucket(p) {
                                let ni = choose|i: int|
                                    0 <= i < self.buckets@.len() && (
                                    #[trigger] self.buckets@[i]).period_ms == p;
                                if ni < n0 {
                                    assert(old(self).buckets@[ni].period_ms == p);
                                }
                            }
                        }
                    }
                    }
                }
            },
        }
    }
}

/// Group cursors after the wrap stage of a tick; keys and policies stay.
pub open spec fn spec_wrap_groups(gs: Seq<GroupState>) -> Seq<GroupState> {
    Seq::new(
        gs.len(),
        |i: int|
            GroupState {
                key: gs[i].key,
                cursor: spec_wrap(gs[i].policy, gs[i].cursor),
                policy: gs[i].policy,
            },
    )
}

/// Group cursors after a whole tick: wrapped, then advanced once.
pub open spec fn spec_tick_groups(gs: Seq<GroupState>) -> Seq<GroupState> {
    Seq::new(
        gs.len(),
        |i: int|
            GroupState {
                key: gs[i].key,
                cursor: spec_tick(gs[i].policy, gs[i].cursor),
                policy: gs[i].policy,
            },
    )
}

/// A member after a tick: an ungrouped member's own cursor is wrapped and
/// advanced once; a grouped member's state lives in its group.
pub open spec fn spec_tick_member(m: Member) -> Member {
    if m.spec_grouped() {
        m
    } else {
        Member { hash: m.hash, anim: m.anim, cursor: spec_tick(m.anim.spec_policy(), m.cursor) }
    }
}

/// The members left after one tick processed the liveness flags, each
/// ticked: exactly the flagged members, in order.
pub open spec fn spec_survivors(ms: Seq<Member>, fl: Seq<bool>) -> Seq<Member>
    recommends
        ms.len() == fl.len(),
    decreases ms.len(),
{
    if ms.len() == 0 {
        Seq::empty()
    } else {
        let rest = spec_survivors(ms.drop_last(), fl.subrange(0, ms.len() - 1));
        if fl[ms.len() - 1] {
            rest.push(spec_tick_member(ms.last()))
        } else {
            rest
        }
    }
}

/// The cursor a member shows on this tick, after the wrap stage: its own
/// wrapped cursor, or its group's wrapped cursor.
pub open spec fn spec_shown_cursor(m: Member, gw: Seq<GroupState>) -> Cursor {
    if m.spec_grouped() {
        spec_group_at(gw, m.spec_key()).cursor
    } else {
        spec_wrap(m.anim.spec_policy(), m.cursor)
    }
}

/// The refresh a member owes on this tick, if any: none when the shown
/// frame runs off the frame table or the frame's image index runs off the
/// atlas (both are skipped, not failed), otherwise the assembled buffer.
pub open spec fn spec_refresh_of(m: Member, gw: Seq<GroupState>) -> Option<(u64, Seq<u8>)> {
    let f = spec_shown_cursor(m, gw).current_frame;
    if f < m.anim.frame_count && m.anim.frame_datas@[f as int].image_index
        < m.anim.image_data_count {
        Some(
            (
                m.hash,
                m.anim.bntx_template_header@ + m.anim.spec_image_slice(
                    m.anim.frame_datas@[f as int].image_index as int,
                ) + m.anim.bntx_template_footer@,
            ),
        )
    } else {
        None
    }
}

/// Every refresh one tick of a bucket delivers, in member order: one per
/// flagged member whose frame and image index are in range.
pub open spec fn spec_tick_refreshes(ms: Seq<Member>, fl: Seq<bool>, gw: Seq<GroupState>) -> Seq<
    (u64, Seq<u8>),
>
    recommends
        ms.len() == fl.len(),
    decreases ms.len(),
{
    if ms.len() == 0 {
        Seq::empty()
    } else {
        let rest = spec_tick_refreshes(ms.drop_last(), fl.subrange(0, ms.len() - 1), gw);
        if fl[ms.len() - 1] {
            match spec_refresh_of(ms.last(), gw) {
                Some(r) => rest.push(r),
                None => rest,
            }
        } else {
            rest
        }
    }
}

/// The mathematical content of a refresh list.
pub open spec fn spec_refreshes_view(rs: Seq<Refresh>) -> Seq<(u64, Seq<u8>)> {
    Seq::new(rs.len(), |i: int| (rs[i].hash, rs[i].data@))
}

/// The flagged member a survivor position comes from.
pub proof fn lemma_survivor_source(ms: Seq<Member>, fl: Seq<bool>, k: int) -> (j: int)
    requires
        ms.len() == fl.len(),
        0 <= k < spec_survivors(ms, fl).len(),
    ensures
        0 <= j < ms.len(),
        fl[j],
        spec_survivors(ms, fl)[k] == spec_tick_member(ms[j]),
        spec_survivors(ms, fl)[k].hash == ms[j].hash,
    decreases ms.len(),
{
    let ms0 = ms.drop_last();
    let fl0 = fl.subrange(0, ms.len() - 1);
    let rest = spec_survivors(ms0, fl0);
    if k < rest.len() {
        let j = lemma_survivor_source(ms0, fl0, k);
        assert(ms0[j] == ms[j]);
        j
    } else {
        assert(fl[ms.len() - 1]);
        assert(spec_survivors(ms, fl)[k] == spec_tick_member(ms[ms.len() - 1]));
        ms.len() - 1
    }
}

/// Law: pruning keeps order and uniqueness: the survivors of a tick are
/// never more than the members, their hashes stay pairwise distinct, and
/// a member whose liveness flag was false leaves no survivor behind.
pub proof fn lemma_survivors_props(ms: Seq<Member>, fl: Seq<bool>)
    requires
        ms.len() == fl.len(),
        forall|i: int, j: int|
            0 <= i < j < ms.len() ==> (#[trigger] ms[i]).hash != (#[trigger] ms[j]).hash,
    ensures
        spec_survivors(ms, fl).len() <= ms.len(),
        forall|i: int, j: int|
            0 <= i < j < spec_survivors(ms, fl).len() ==> (#[trigger] spec_survivors(ms, fl)[i]).hash
                != (#[trigger] spec_survivors(ms, fl)[j]).hash,
        forall|j: int, k: int|
            0 <= j < ms.len() && !fl[j] && 0 <= k < spec_survivors(ms, fl).len() ==> (
            #[trigger] spec_survivors(ms, fl)[k]).hash != (#[trigger] ms[j]).hash,
    decreases ms.len(),
{
    let s = spec_survivors(ms, fl);
    if ms.len() > 0 {
        let ms0 = ms.drop_last();
        let fl0 = fl.subrange(0, ms.len() - 1);
        lemma_survivors_props(ms0, fl0);
        let rest = spec_survivors(ms0, fl0);
        assert(forall|j: int| 0 <= j < ms0.len() ==> #[trigger] ms0[j] == ms[j]);
        assert forall|i: int, j: int| 0 <= i < j < s.len() implies (#[trigger] s[i]).hash != (
        #[trigger] s[j]).hash by {
            if j < rest.len() {
            } else {
                let t = lemma_survivor_source(ms0, fl0, i);
                assert(s[j] == spec_tick_member(ms[ms.len() - 1]));
            }
        }
    }
    assert forall|j: int, k: int|
        0 <= j < ms.len() && !fl[j] && 0 <= k < s.len() implies (#[trigger] s[k]).hash != (
    #[trigger] ms[j]).hash by {
        let t = lemma_survivor_source(ms, fl, k);
    }
}

/// The flagged member a refresh position comes from.
pub proof fn lemma_refresh_source(ms: Seq<Member>, fl: Seq<bool>, gw: Seq<GroupState>, k: int) -> (j:
    int)
    requires
        ms.len() == fl.len(),
        0 <= k < spec_tick_refreshes(ms, fl, gw).len(),
    ensures
        0 <= j < ms.len(),
        fl[j],
        spec_tick_refreshes(ms, fl, gw)[k] == spec_refresh_of(ms[j], gw)->Some_0,
        spec_refresh_of(ms[j], gw) is Some,
        spec_tick_refreshes(ms, fl, gw)[k].0 == ms[j].hash,
    decreases ms.len(),
{
    let ms0 = ms.drop_last();
    let fl0 = fl.subrange(0, ms.len() - 1);
    let rest = spec_tick_refreshes(ms0, fl0, gw);
    if k < rest.len() {
        let j = lemma_refresh_source(ms0, fl0, gw, k);
        assert(ms0[j] == ms[j]);
        j
    } else {
        assert(fl[ms.len() - 1]);
        assert(spec_refresh_of(ms.last(), gw) is Some);
        ms.len() - 1
    }
}

/// Law: a resource whose liveness flag was false on a tick appears in no
/// refresh that tick delivers (with unique member hashes).
pub proof fn lemma_inactive_not_refreshed(ms: Seq<Member>, fl: Seq<bool>, gw: Seq<GroupState>)
    requires
        ms.len() == fl.len(),
        forall|i: int, j: int|
            0 <= i < j < ms.len() ==> (#[trigger] ms[i]).hash != (#[trigger] ms[j]).hash,
    ensures
        forall|j: int, k: int|
            0 <= j < ms.len() && !fl[j] && 0 <= k < spec_tick_refreshes(ms, fl, gw).len() ==> (
            #[trigger] spec_tick_refreshes(ms, fl, gw)[k]).0 != (#[trigger] ms[j]).hash,
{
    let s = spec_tick_refreshes(ms, fl, gw);
    assert forall|j: int, k: int|
        0 <= j < ms.len() && !fl[j] && 0 <= k < s.len() implies (#[trigger] s[k]).0 != (
    #[trigger] ms[j]).hash by {
        let t = lemma_refresh_source(ms, fl, gw, k);
    }
}

impl Registry {
    /// One tick of the bucket with `period`, driven by the host's
    /// liveness flags, one per member in order.
    ///
    /// A bucket found empty at the start of the tick terminates: it is
    /// removed whole, its group cursors with it, and `None` says the
    /// host may stop this period's thread.  Otherwise the tick prunes
    /// every member whose flag is false, wraps every cursor once, owes
    /// one refresh per surviving member whose frame and image index are
    /// in range, advances every cursor once, and returns the refreshes.
    pub fn tick_bucket(&mut self, period: u64, active: &Vec<bool>) -> (r: Option<Vec<Refresh>>)
        requires
            old(self).wf(),
            old(self).spec_has_bucket(period),
            active@.len() == old(self).spec_bucket_at(period).members@.len(),
        ensures
            final(self).wf(),
            spec_other_buckets_unchanged(*old(self), *final(self), period),
            old(self).spec_bucket_at(period).members@.len() == 0 ==> r is None && !final(self).spec_has_bucket(period) && final(self).buckets@.len() + 1 == old(self).buckets@.len() && (forall|key: u64|
                final(self).spec_group_cursor(period, key) is None),
            old(self).spec_bucket_at(period).members@.len() > 0 ==> r is Some && ({
                let ob = old(self).spec_bucket_at(period);
                let nb = final(self).spec_bucket_at(period);
                &&& final(self).spec_has_bucket(period)
                &&& final(self).buckets@.len() == old(self).buckets@.len()
                &&& nb.period_ms == period
                &&& nb.members@ == spec_survivors(ob.members@, active@)
                &&& nb.groups@ == spec_tick_groups(ob.groups@)
                &&& spec_refreshes_view(r->Some_0@) == spec_tick_refreshes(
                    ob.members@,
                    active@,
                    spec_wrap_groups(ob.groups@),
                )
            }),
            forall|k: int|
                0 <= k < old(self).spec_bucket_at(period).members@.len() && !active@[k] ==> !final(self).spec_has_resource(
                    (#[trigger] old(self).spec_bucket_at(period).members@[k]).hash,
                ),
    {
        let bi_opt = self.find_bucket(period);
        proof {
            assert(bi_opt is Some);
        }
        let bi = bi_opt.unwrap();
        proof {
            let ci = choose|i: int|
                0 <= i < old(self).buckets@.len() && (#[trigger] old(self).buckets@[i]).period_ms
                    == period;
            assert(ci == bi as int);
            assert(old(self).spec_bucket_at(period) == old(self).buckets@[bi as int]);
        }
        let ghost ob = old(self).buckets@[bi as int];
        let mut b = self.buckets.remove(bi);
        proof {
            assert(b == ob);
            assert(ob.wf());
        }
        if b.members.len() == 0 {
            proof {
                let pre = *old(self);
                assert(self.buckets@ == pre.buckets@.remove(bi as int));
                assert(forall|k: int|
                    0 <= k < bi as int ==> #[trigger] self.buckets@[k] == pre.buckets@[k]);
                assert(forall|k: int|
                    bi as int <= k < self.buckets@.len() ==> #[trigger] self.buckets@[k]
                        == pre.buckets@[k + 1]);
                assert(self.wf()) by {
                    assert forall|i2: int| 0 <= i2 < self.buckets@.len() implies (
                    #[trigger] self.buckets@[i2]).wf() by {
                        if i2 < bi as int {
                            assert(self.buckets@[i2] == pre.buckets@[i2]);
                        } else {
                            assert(self.buckets@[i2] == pre.buckets@[i2 + 1]);
                        }
                    }
                    assert forall|i2: int, j2: int| 0 <= i2 < j2 < self.buckets@.len() implies (
                    #[trigger] self.buckets@[i2]).period_ms != (
                    #[trigger] self.buckets@[j2]).period_ms by {}
                    assert forall|i2: int, j2: int, h: u64|
                        0 <= i2 < j2 < self.buckets@.len() && (
                        #[trigger] self.buckets@[i2].spec_has_hash(h)) implies !(
                    #[trigger] self.buckets@[j2].spec_has_hash(h)) by {}
                }
                assert(!self.spec_has_bucket(period)) by {
                    if self.spec_has_bucket(period) {
                        let ni = choose|i: int|
                            0 <= i < self.buckets@.len() && (
                            #[trigger] self.buckets@[i]).period_ms == period;
                        if ni < bi as int {
                            assert(pre.buckets@[ni].period_ms == period);
                        } else {
                            assert(pre.buckets@[ni + 1].period_ms == period);
                        }
                    }
                }
                assert(spec_other_buckets_unchanged(pre, *self, period)) by {
                    assert forall|p: u64| p != period implies #[trigger] self.spec_has_bucket(p)
                        == pre.spec_has_bucket(p) && (pre.spec_has_bucket(p)
                        ==> self.spec_bucket_at(p) == pre.spec_bucket_at(p)) by {
                        if pre.spec_has_bucket(p) {
                            let oi = choose|i: int|
                                0 <= i < pre.buckets@.len() && (
                                #[trigger] pre.buckets@[i]).period_ms == p;
                            assert(oi != bi as int);
                            let si: int = if oi < bi as int {
                                oi
                            } else {
                                oi - 1
                            };
                            assert(self.buckets@[si] == pre.buckets@[oi]);
                            assert(self.spec_has_bucket(p));
                            let ni = choose|i: int|
                                0 <= i < self.buckets@.len() && (
                                #[trigger] self.buckets@[i]).period_ms == p;
                            if ni != si {
                                if ni < bi as int {
                                    assert(pre.buckets@[ni].period_ms == p);
                                } else {
                                    assert(pre.buckets@[ni + 1].period_ms == p);
                                }
                            }
                        } else {
                            if self.spec_has_bucket(p) {
                                let ni = choose|i: int|
                                    0 <= i < self.buckets@.len() && (
                                    #[trigger] self.buckets@[i]).period_ms == p;
                                if ni < bi as int {
                                    assert(pre.buckets@[ni].period_ms == p);
                                } else {
                                    assert(pre.buckets@[ni + 1].period_ms == p);
                                }
                            }
                        }
                    }
                }
            }
            return None;
        }
        let ghost oms = ob.members@;
        let n = b.members.len();
        let gn = b.groups.len();
        let mut gi: usize = 0;
        while gi < gn
            invariant
                gi <= gn,
                gn == b.groups@.len(),
                b.groups@.len() == ob.groups@.len(),
                b.members@ == oms,
                b.period_ms == ob.period_ms,
                forall|k: int|
                    0 <= k < gi ==> #[trigger] b.groups@[k] == spec_wrap_groups(ob.groups@)[k],
                forall|k: int| gi <= k < gn ==> #[trigger] b.groups@[k] == ob.groups@[k],
            decreases gn - gi,
        {
            let g = b.groups[gi];
            b.groups.set(
                gi,
                GroupState { key: g.key, cursor: wrap_cursor(g.policy, g.cursor), policy: g.policy },
            );
            gi += 1;
        }
        proof {
            assert(b.groups@ =~= spec_wrap_groups(ob.groups@));
        }
        let ghost gw = spec_wrap_groups(ob.groups@);
        let mut kept: Vec<Member> = Vec::new();
        let mut refreshes: Vec<Refresh> = Vec::new();
        let mut i: usize = 0;
        while i < n
            invariant
                i <= n,
                n == oms.len(),
                active@.len() == n,
                ob.wf(),
                oms == ob.members@,
                gw == spec_wrap_groups(ob.groups@),
                b.members@ == oms.subrange(i as int, n as int),
                b.groups@ == gw,
                b.period_ms == ob.period_ms,
                kept@ == spec_survivors(oms.subrange(0, i as int), active@.subrange(0, i as int)),
                spec_refreshes_view(refreshes@) == spec_tick_refreshes(
                    oms.subrange(0, i as int),
                    active@.subrange(0, i as int),
                    gw,
                ),
            decreases n - i,
        {
            let m = b.members.remove(0);
            proof {
                assert(oms.subrange(i as int, n as int)[0] == oms[i as int]);
                assert(m == oms[i as int]);
                assert(b.members@ =~= oms.subrange(i as int + 1, n as int));
                assert(m.anim.wf());
            }
            let flag = active[i];
            let ghost pre_kept = kept@;
            let ghost pre_ref = refreshes@;
            if flag {
                let grouped = m.anim.group_number != 0;
                let shown: Cursor;
                if grouped {
                    let key = group_key_of(m.anim.group_number, m.anim.loop_animation == 1);
                    proof {
                        assert(m.spec_key() == key);
                        assert(spec_has_group(ob.groups@, key));
                        let w = choose|w: int|
                            0 <= w < ob.groups@.len() && (#[trigger] ob.groups@[w]).key == key;
                        assert(gw[w].key == key);
                        assert(spec_has_group(gw, key));
                    }
                    let gidx_opt = group_index(&b.groups, key);
                    proof {
                        assert(gidx_opt is Some);
                    }
                    let gidx = gidx_opt.unwrap();
                    shown = b.groups[gidx].cursor;
                    proof {
                        assert(forall|x: int|
                            0 <= x < gw.len() ==> (#[trigger] gw[x]).key == ob.groups@[x].key);
                        let c = choose|x: int| 0 <= x < gw.len() && (#[trigger] gw[x]).key == key;
                        if c != gidx as int {
                            assert(ob.groups@[c].key == key);
                            assert(ob.groups@[gidx as int].key == key);
                        }
                        assert(b.groups@[gidx as int] == spec_group_at(gw, key));
                        assert(shown == spec_shown_cursor(m, gw));
                    }
                } else {
                    shown = wrap_cursor(m.anim.policy(), m.cursor);
                    proof {
                        assert(shown == spec_shown_cursor(m, gw));
                    }
                }
                if shown.current_frame < m.anim.frame_count {
                    let fidx = shown.current_frame as usize;
                    let fd = m.anim.frame_datas[fidx];
                    match m.anim.assembled_frame(fd.image_index as usize) {
                        Ok(buf) => {
                            refreshes.push(Refresh { hash: m.hash, data: buf });
                            proof {
                                assert(spec_refresh_of(m, gw) is Some);
                                assert(spec_refresh_of(m, gw)->Some_0 == (m.hash, buf@));
                                assert(spec_refreshes_view(refreshes@) =~= spec_refreshes_view(
                                    pre_ref,
                                ).push(spec_refresh_of(m, gw)->Some_0));
                            }
                        },
                        Err(_) => {
                            proof {
                                assert(spec_refresh_of(m, gw) is None);
                            }
                        },
                    }
                } else {
                    proof {
                        assert(spec_refresh_of(m, gw) is None);
                    }
                }
                let m2 = if grouped {
                    Member { hash: m.hash, anim: m.anim, cursor: m.cursor }
                } else {
                    Member { hash: m.hash, anim: m.anim, cursor: advance_cursor(shown) }
                };
                proof {
                    assert(m2 == spec_tick_member(m));
                }
                kept.push(m2);
            }
            proof {
                let pms = oms.subrange(0, i as int + 1);
                let pfl = active@.subrange(0, i as int + 1);
                assert(pms.drop_last() =~= oms.subrange(0, i as int));
                assert(pfl.subrange(0, pms.len() - 1) =~= active@.subrange(0, i as int));
                assert(pms.last() == m);
                assert(pfl[pms.len() - 1] == flag);
                assert(kept@ == spec_survivors(pms, pfl));
                assert(spec_refreshes_view(refreshes@) == spec_tick_refreshes(pms, pfl, gw));
            }
            i += 1;
        }
        proof {
            assert(oms.subrange(0, n as int) =~= oms);
            assert(active@.subrange(0, n as int) =~= active@);
        }
        let mut gi2: usize = 0;
        while gi2 < gn
            invariant
                gi2 <= gn,
                gn == b.groups@.len(),
                b.groups@.len() == ob.groups@.len(),
                gw == spec_wrap_groups(ob.groups@),
                b.members@.len() == 0,
                b.period_ms == ob.period_ms,
                kept@ == spec_survivors(oms, active@),
                spec_refreshes_view(refreshes@) == spec_tick_refreshes(oms, active@, gw),
                forall|k: int|
                    0 <= k < gi2 ==> #[trigger] b.groups@[k] == spec_tick_groups(ob.groups@)[k],
                forall|k: int| gi2 <= k < gn ==> #[trigger] b.groups@[k] == gw[k],
            decreases gn - gi2,
        {
            let g = b.groups[gi2];
            b.groups.set(
                gi2,
                GroupState { key: g.key, cursor: advance_cursor(g.cursor), policy: g.policy },
            );
            gi2 += 1;
        }
        proof {
            assert(b.groups@ =~= spec_tick_groups(ob.groups@));
        }
        b.members = kept;
        let ghost nb = b;
        self.buckets.insert(bi, b);
        proof {
            let pre = *old(self);
            assert(self.buckets@ =~= pre.buckets@.update(bi as int, nb));
            assert(forall|k: int|
                0 <= k < self.buckets@.len() && k != bi as int ==> #[trigger] self.buckets@[k]
                    == pre.buckets@[k]);
            lemma_survivors_props(oms, active@);
            assert(nb.members@ == spec_survivors(oms, active@));
            assert(nb.wf()) by {
                assert forall|k: int| 0 <= k < nb.members@.len() implies (
                #[trigger] nb.members@[k]).anim.wf() by {
                    let j = lemma_survivor_source(oms, active@, k);
                }
                assert forall|k: int|
                    0 <= k < nb.members@.len() && (#[trigger] nb.members@[k]).spec_grouped()
                        implies spec_has_group(nb.groups@, nb.members@[k].spec_key()) by {
                    let j = lemma_survivor_source(oms, active@, k);
                    assert(nb.members@[k].spec_key() == oms[j].spec_key());
                    assert(nb.members@[k].spec_grouped() == oms[j].spec_grouped());
                    assert(spec_has_group(ob.groups@, oms[j].spec_key()));
                    let w = choose|w: int|
                        0 <= w < ob.groups@.len() && (#[trigger] ob.groups@[w]).key
                            == oms[j].spec_key();
                    assert(nb.groups@[w].key == oms[j].spec_key());
                }
                assert(forall|x: int|
                    0 <= x < nb.groups@.len() ==> (#[trigger] nb.groups@[x]).key
                        == ob.groups@[x].key);
            }
            assert(forall|h: u64|
                #[trigger] nb.spec_has_hash(h) ==> ob.spec_has_hash(h)) by {
                assert forall|h: u64| #[trigger]
                    nb.spec_has_hash(h) implies ob.spec_has_hash(h) by {
                    let k = choose|k: int|
                        0 <= k < nb.members@.len() && (#[trigger] nb.members@[k]).hash == h;
                    let j = lemma_survivor_source(oms, active@, k);
                    assert(ob.members@[j].hash == h);
                }
            }
            assert(self.wf()) by {
                assert forall|i2: int, j2: int, h: u64|
                    0 <= i2 < j2 < self.buckets@.len() && (
                    #[trigger] self.buckets@[i2].spec_has_hash(h)) implies !(
                #[trigger] self.buckets@[j2].spec_has_hash(h)) by {
                    if i2 == bi as int {
                        assert(pre.buckets@[i2].spec_has_hash(h)
                            ==> !pre.buckets@[j2].spec_has_hash(h));
                    } else if j2 == bi as int {
                        if self.buckets@[j2].spec_has_hash(h) {
                            assert(pre.buckets@[j2].spec_has_hash(h));
                        }
                    }
                }
            }
            assert(self.spec_has_bucket(period)) by {
                assert(self.buckets@[bi as int].period_ms == period);
            }
            assert(self.spec_bucket_at(period) == nb) by {
                let ci = choose|i2: int|
                    0 <= i2 < self.buckets@.len() && (#[trigger] self.buckets@[i2]).period_ms
                        == period;
                if ci != bi as int {
                    assert(pre.buckets@[ci].period_ms == period);
                }
            }
            assert(spec_other_buckets_unchanged(pre, *self, period)) by {
                assert forall|p: u64| p != period implies #[trigger] self.spec_has_bucket(p)
                    == pre.spec_has_bucket(p) && (pre.spec_has_bucket(p) ==> self.spec_bucket_at(
                    p,
                ) == pre.spec_bucket_at(p)) by {
                    if pre.spec_has_bucket(p) {
                        let oi = choose|i2: int|
                            0 <= i2 < pre.buckets@.len() && (#[trigger] pre.buckets@[i2]).period_ms
                                == p;
                        assert(oi != bi as int);
                        assert(self.buckets@[oi].period_ms == p);
                        let ni = choose|i2: int|
                            0 <= i2 < self.buckets@.len() && (
                            #[trigger] self.buckets@[i2]).period_ms == p;
                        if ni != oi {
                            if ni == bi as int {
                                assert(self.buckets@[ni].period_ms == period);
                            } else {
                                assert(pre.buckets@[ni].period_ms == p);
                            }
                        }
                    } else {
                        if self.spec_has_bucket(p) {
                            let ni = choose|i2: int|
                                0 <= i2 < self.buckets@.len() && (
                                #[trigger] self.buckets@[i2]).period_ms == p;
                            assert(ni != bi as int);
                            assert(pre.buckets@[ni].period_ms == p);
                        }
                    }
                }
            }
            assert forall|k: int|
                0 <= k < oms.len() && !active@[k] implies !self.spec_has_resource(
                (#[trigger] oms[k]).hash,
            ) by {
                let h = oms[k].hash;
                if self.spec_has_resource(h) {
                    let wi = choose|i2: int|
                        0 <= i2 < self.buckets@.len() && (#[trigger] self.buckets@[i2]).spec_has_hash(
                            h,
                        );
                    if wi == bi as int {
                        let wk = choose|k2: int|
                            0 <= k2 < nb.members@.len() && (#[trigger] nb.members@[k2]).hash == h;
                    } else {
                        assert(pre.buckets@[wi].spec_has_hash(h));
                        assert(ob.spec_has_hash(h));
                        assert(pre.buckets@[bi as int].spec_has_hash(h));
                    }
                }
            }
        }
        Some(refreshes)
    }
}

impl Registry {
    /// The member hashes of the bucket with `period`, in member order —
    /// what the host polls liveness for before a tick.
    pub fn member_hashes(&self, period: u64) -> (r: Vec<u64>)
        requires
            self.wf(),
            self.spec_has_bucket(period),
        ensures
            r@.len() == self.spec_bucket_at(period).members@.len(),
            forall|k: int|
                0 <= k < r@.len() ==> r@[k] == self.spec_bucket_at(period).members@[k].hash,
    {
        let bi_opt = self.find_bucket(period);
        proof {
            assert(bi_opt is Some);
        }
        let bi = bi_opt.unwrap();
        proof {
            let ci = choose|i: int|
                0 <= i < self.buckets@.len() && (#[trigger] self.buckets@[i]).period_ms == period;
            assert(ci == bi as int);
        }
        let n = self.buckets[bi].members.len();
        let mut r: Vec<u64> = Vec::new();
        let mut k: usize = 0;
        while k < n
            invariant
                k <= n,
                bi < self.buckets@.len(),
                self.buckets@[bi as int] == self.spec_bucket_at(period),
                n == self.spec_bucket_at(period).members@.len(),
                r@.len() == k,
                forall|t: int|
                    0 <= t < k ==> r@[t] == self.spec_bucket_at(period).members@[t].hash,
            decreases n - k,
        {
            r.push(self.buckets[bi].members[k].hash);
            k += 1;
        }
        r
    }

    /// The stored per-resource cursor of resource `h`, if registered.
    pub fn resource_cursor(&self, h: u64) -> (r: Option<Cursor>)
        requires
            self.wf(),
        ensures
            r == self.spec_resource_cursor(h),
    {
        let n = self.buckets.len();
        let mut i: usize = 0;
        while i < n
            invariant
                i <= n,
                n == self.buckets@.len(),
                self.wf(),
                forall|t: int| 0 <= t < i ==> !(#[trigger] self.buckets@[t]).spec_has_hash(h),
            decreases n - i,
        {
            match bucket_member_index(&self.buckets[i], h) {
                Some(k) => {
                    proof {
                        assert(self.spec_has_resource(h));
                        let wi = choose|t: int|
                            0 <= t < self.buckets@.len() && (
                            #[trigger] self.buckets@[t]).spec_has_hash(h);
                        if wi != i as int {
                            assert(self.buckets@[wi].spec_has_hash(h));
                            assert(self.buckets@[i as int].spec_has_hash(h));
                        }
                        let b = self.buckets@[i as int];
                        let wk = choose|t: int|
                            0 <= t < b.members@.len() && (#[trigger] b.members@[t]).hash == h;
                        if wk != k as int {
                            assert(b.members@[wk].hash == h);
                        }
                    }
                    return Some(self.buckets[i].members[k].cursor);
                },
                None => (),
            }
            i += 1;
        }
        None
    }

    /// The cursor of group `key` in the bucket of `period`; `None` once
    /// the bucket or the group is gone, never stale data.
    pub fn group_cursor(&self, period: u64, key: u64) -> (r: Option<Cursor>)
        requires
            self.wf(),
        ensures
            r == self.spec_group_cursor(period, key),
    {
        match self.find_bucket(period) {
            None => None,
            Some(bi) => {
                proof {
                    let ci = choose|i: int|
                        0 <= i < self.buckets@.len() && (#[trigger] self.buckets@[i]).period_ms
                            == period;
                    assert(ci == bi as int);
                }
                match group_index(&self.buckets[bi].groups, key) {
                    None => None,
                    Some(gi) => {
                        proof {
                            let gs = self.buckets@[bi as int].groups@;
                            let c = choose|x: int|
                                0 <= x < gs.len() && (#[trigger] gs[x]).key == key;
                            if c != gi as int {
                                assert(gs[c].key == key);
                                assert(gs[gi as int].key == key);
                            }
                        }
                        Some(self.buckets[bi].groups[gi].cursor)
                    },
                }
            },
        }
    }

    /// Deregisters resource `h` wherever it sits (the `BufferTooSmall`
    /// path and any other forced removal).  Its bucket and groups stay;
    /// an emptied bucket terminates on its next tick.
    pub fn remove_resource(&mut self, h: u64)
        requires
            old(self).wf(),
        ensures
            final(self).wf(),
            !final(self).spec_has_resource(h),
            final(self).buckets@.len() == old(self).buckets@.len(),
            forall|k: int|
                0 <= k < old(self).buckets@.len() ==> (#[trigger] final(self).buckets@[k]).period_ms
                    == old(self).buckets@[k].period_ms && final(self).buckets@[k].groups@ == old(
                    self,
                ).buckets@[k].groups@,
            forall|h2: u64|
                h2 != h ==> #[trigger] final(self).spec_has_resource(h2) == old(
                    self,
                ).spec_has_resource(h2),
    {
        let n = self.buckets.len();
        let mut i: usize = 0;
        while i < n
            invariant
                i <= n,
                n == self.buckets@.len(),
                self.wf(),
                *self == *old(self),
                forall|t: int| 0 <= t < i ==> !(#[trigger] self.buckets@[t]).spec_has_hash(h),
            decreases n - i,
        {
            match bucket_member_index(&self.buckets[i], h) {
                Some(k) => {
                    let mut b = self.buckets.remove(i);
                    let ghost ob = b;
                    b.members.remove(k);
                    let ghost nb = b;
                    self.buckets.insert(i, b);
                    proof {
                        let pre = *old(self);
                        assert(self.buckets@ =~= pre.buckets@.update(i as int, nb));
                        assert(forall|t: int|
                            0 <= t < self.buckets@.len() && t != i as int
                                ==> #[trigger] self.buckets@[t] == pre.buckets@[t]);
                        assert(nb.members@ == ob.members@.remove(k as int));
                        assert(forall|t: int|
                            0 <= t < k as int ==> #[trigger] nb.members@[t] == ob.members@[t]);
                        assert(forall|t: int|
                            k as int <= t < nb.members@.len() ==> #[trigger] nb.members@[t]
                                == ob.members@[t + 1]);
                        assert(forall|h2: u64|
                            #[trigger] nb.spec_has_hash(h2) ==> ob.spec_has_hash(h2)) by {
                            assert forall|h2: u64| #[trigger]
                                nb.spec_has_hash(h2) implies ob.spec_has_hash(h2) by {
                                let t = choose|t: int|
                                    0 <= t < nb.members@.len() && (#[trigger] nb.members@[t]).hash
                                        == h2;
                                if t < k as int {
                                    assert(ob.members@[t].hash == h2);
                                } else {
                                    assert(ob.members@[t + 1].hash == h2);
                                }
                            }
                        }
                        assert(nb.wf()) by {
                            assert forall|x: int| 0 <= x < nb.members@.len() implies (
                            #[trigger] nb.members@[x]).anim.wf() by {
                                if x < k as int {
                                } else {
                                    assert(nb.members@[x] == ob.members@[x + 1]);
                                }
                            }
                            assert forall|x: int, y: int|
                                0 <= x < y < nb.members@.len() implies (
                            #[trigger] nb.members@[x]).hash != (#[trigger] nb.members@[y]).hash by {
                                if x < k as int {
                                } else {
                                    assert(nb.members@[x] == ob.members@[x + 1]);
                                }
                            }
                            assert forall|x: int|
                                0 <= x < nb.members@.len() && (
                            #[trigger] nb.members@[x]).spec_grouped() implies spec_has_group(
                                nb.groups@,
                                nb.members@[x].spec_key(),
                            ) by {
                                if x < k as int {
                                } else {
                                    assert(nb.members@[x] == ob.members@[x + 1]);
                                }
                            }
                        }
                        assert(!nb.spec_has_hash(h)) by {
                            if nb.spec_has_hash(h) {
                                let t = choose|t: int|
                                    0 <= t < nb.members@.len() && (#[trigger] nb.members@[t]).hash
                                        == h;
                                if t < k as int {
                                    assert(ob.members@[t].hash == h && ob.members@[k as int].hash
                                        == h);
                                } else {
                                    assert(ob.members@[t + 1].hash == h && ob.members@[k as int].hash
                                        == h);
                                }
                            }
                        }
                        assert(self.wf()) by {
                            assert forall|x: int, y: int, h2: u64|
                                0 <= x < y < self.buckets@.len() && (
                                #[trigger] self.buckets@[x].spec_has_hash(h2)) implies !(
                            #[trigger] self.buckets@[y].spec_has_hash(h2)) by {
                                if x == i as int {
                                    assert(pre.buckets@[x].spec_has_hash(h2)
                                        ==> !pre.buckets@[y].spec_has_hash(h2));
                                } else if y == i as int {
                                    if self.buckets@[y].spec_has_hash(h2) {
                                        assert(pre.buckets@[y].spec_has_hash(h2));
                                    }
                                }
                            }
                        }
                        assert(!self.spec_has_resource(h)) by {
                            if self.spec_has_resource(h) {
                                let t = choose|t: int|
                                    0 <= t < self.buckets@.len() && (
                                    #[trigger] self.buckets@[t]).spec_has_hash(h);
                                if t != i as int {
                                    assert(pre.buckets@[t].spec_has_hash(h));
                                    assert(pre.buckets@[i as int].spec_has_hash(h));
                                }
                            }
                        }
                        assert forall|h2: u64| h2 != h implies #[trigger] self.spec_has_resource(
                            h2,
                        ) == pre.spec_has_resource(h2) by {
                            if pre.spec_has_resource(h2) {
                                let t = choose|t: int|
                                    0 <= t < pre.buckets@.len() && (
                                    #[trigger] pre.buckets@[t]).spec_has_hash(h2);
                                if t == i as int {
                                    let u = choose|u: int|
                                        0 <= u < ob.members@.len() && (
                                        #[trigger] ob.members@[u]).hash == h2;
                                    if u < k as int {
                                        assert(nb.members@[u].hash == h2);
                                    } else {
                                        assert(u != k as int);
                                        assert(nb.members@[u - 1].hash == h2);
                                    }
                                    assert(nb.spec_has_hash(h2));
                                    assert(self.buckets@[i as int].spec_has_hash(h2));
                                } else {
                                    assert(self.buckets@[t].spec_has_hash(h2));
                                }
                            } else {
                                if self.spec_has_resource(h2) {
                                    let t = choose|t: int|
                                        0 <= t < self.buckets@.len() && (
                                        #[trigger] self.buckets@[t]).spec_has_hash(h2);
                                    if t == i as int {
                                        assert(ob.spec_has_hash(h2));
                                        assert(pre.buckets@[t].spec_has_hash(h2));
                                    } else {
                                        assert(pre.buckets@[t].spec_has_hash(h2));
                                    }
                                }
                            }
                        }
                    }
                    return ;
                },
                None => (),
            }
            i += 1;
        }
    }
}

/// Law: two grouped members of one bucket with the same group key — the
/// same group number and loop flag, and, by sharing the bucket, the same
/// tick period — show the same cursor at every tick boundary: both
/// resolve to the one shared group cursor, wrapped once per tick.
pub proof fn lemma_group_lockstep(b: Bucket, i: int, j: int)
    requires
        b.wf(),
        0 <= i < b.members@.len(),
        0 <= j < b.members@.len(),
        b.members@[i].spec_grouped(),
        b.members@[j].spec_grouped(),
        b.members@[i].spec_key() == b.members@[j].spec_key(),
    ensures
        spec_shown_cursor(b.members@[i], spec_wrap_groups(b.groups@)) == spec_shown_cursor(
            b.members@[j],
            spec_wrap_groups(b.groups@),
        ),
{
}

} // verus!
