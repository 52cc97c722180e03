//! The API runtime's stream bookkeeping: the open-stream handshake with its
//! checkpoint replay, the per-target subscription index, and the fan-out of a
//! delivered certificate to the watchers it concerns.

use vstd::prelude::*;

use crate::store::{cert_views, IndexStore};
use crate::types::{
    contains_subnet, copy_vec, dedup_subnets, distinct_subnets, Certificate, CertificateView,
    SourceCheckpoint, SubnetId, TargetCheckpoint,
};

verus! {

/// Why the runtime refused a request.
#[derive(Clone, Copy, Debug)]
pub enum RuntimeError {
    /// Handshake completion for a stream id the runtime does not track.
    PendingStreamNotFound(u64),
    /// The gossip fabric rejected a peer update.
    UnableToPushPeerList,
    /// Storage could not answer a source-head query for this subnet.
    UnableToGetSourceHead(SubnetId),
    /// The handshake named no target subnet.
    InvalidTargetCheckpoint,
    /// No stable sample yet: the runtime does not serve streams.
    SampleNotStable,
}

/// The watcher streams subscribed to one target subnet.
pub struct Subscription {
    pub target: SubnetId,
    pub streams: Vec<u64>,
}

/// Whether `sid` occurs among the stream ids `v`.
pub open spec fn contains_stream(v: Seq<u64>, sid: u64) -> bool {
    exists|i: int| 0 <= i < v.len() && v[i] == sid
}

/// Whether the stream ids `v` are pairwise distinct.
pub open spec fn distinct_streams(v: Seq<u64>) -> bool {
    forall|i: int, j: int| 0 <= i < j < v.len() ==> v[i] != v[j]
}

/// How membership among stream ids changes when one id is appended.
pub proof fn lemma_contains_stream_push(v: Seq<u64>, x: u64, sid: u64)
    ensures
        contains_stream(v.push(x), sid) == (contains_stream(v, sid) || x == sid),
{
    if contains_stream(v, sid) {
        let i = choose|i: int| 0 <= i < v.len() && v[i] == sid;
        assert(v.push(x)[i] == sid);
    }
    if x == sid {
        assert(v.push(x)[v.len() as int] == sid);
    }
    if contains_stream(v.push(x), sid) {
        let i = choose|i: int| 0 <= i < v.push(x).len() && v.push(x)[i] == sid;
        if i < v.len() {
            assert(v[i] == sid);
        }
    }
}

/// Whether `sid` occurs among the stream ids `v`.
pub fn vec_contains_stream(v: &Vec<u64>, sid: u64) -> (r: bool)
    ensures
        r == contains_stream(v@, sid),
{
    let mut i: usize = 0;
    while i < v.len()
        invariant
            0 <= i <= v@.len(),
            forall|k: int| 0 <= k < i ==> v@[k] != sid,
        decreases v@.len() - i,
    {
        if v[i] == sid {
            return true;
        }
        i += 1;
    }
    false
}

/// Whether a certificate is addressed to at least one of the given subnets.
pub open spec fn addressed_to_any(cv: CertificateView, targets: Seq<SubnetId>) -> bool {
    exists|i: int|
        0 <= i < cv.target_subnets.len() && contains_subnet(targets, cv.target_subnets[i])
}

/// The predicate selecting the certificates a watcher of the given target
/// subnets receives.
pub open spec fn replay_pred(targets: Seq<SubnetId>) -> spec_fn(CertificateView) -> bool {
    |cv: CertificateView| addressed_to_any(cv, targets)
}

/// Whether the certificate is addressed to one of the requested subnets.
fn addressed_to_requested(c: &Certificate, targets: &Vec<SubnetId>) -> (r: bool)
    ensures
        r == addressed_to_any(c@, targets@),
{
    let mut i: usize = 0;
    while i < c.target_subnets.len()
        invariant
            0 <= i <= c.target_subnets@.len(),
            forall|k: int| 0 <= k < i ==> !contains_subnet(targets@, c@.target_subnets[k]),
        decreases c.target_subnets@.len() - i,
    {
        if crate::types::vec_contains_subnet(targets, &c.target_subnets[i]) {
            proof {
                assert(c@.target_subnets[i as int] == c.target_subnets@[i as int]@);
            }
            return true;
        }
        i += 1;
    }
    false
}

/// The client-facing runtime's stream state.
pub struct Runtime {
    /// Established bidirectional streams to watchers.
    pub active_streams: Vec<u64>,
    /// Streams whose open-stream handshake has not completed yet.
    pub pending_streams: Vec<u64>,
    /// Inverted index for fan-out: per target subnet, the subscribed streams.
    pub subnet_subscription: Vec<Subscription>,
    /// Whether a stable sample was declared; streams are refused before that.
    pub active_sample: bool,
}

impl Runtime {
    /// Whether `sid` is an established stream.
    pub open spec fn is_active(&self, sid: u64) -> bool {
        contains_stream(self.active_streams@, sid)
    }

    /// Whether `sid` is a stream awaiting its handshake.
    pub open spec fn is_pending(&self, sid: u64) -> bool {
        contains_stream(self.pending_streams@, sid)
    }

    /// Whether stream `sid` is subscribed to target subnet `t`.
    pub open spec fn subscribed(&self, t: Seq<u8>, sid: u64) -> bool {
        exists|k: int|
            0 <= k < self.subnet_subscription@.len() && self.subnet_subscription@[k].target@ == t
                && contains_stream(self.subnet_subscription@[k].streams@, sid)
    }

    /// Well-formedness: stream ids tracked once, pending and active disjoint,
    /// one subscription row per target, and only established streams
    /// subscribed.
    pub open spec fn wf(&self) -> bool {
        &&& distinct_streams(self.active_streams@)
        &&& distinct_streams(self.pending_streams@)
        &&& forall|sid: u64| !(self.is_active(sid) && self.is_pending(sid))
        &&& forall|k1: int, k2: int|
            0 <= k1 < k2 < self.subnet_subscription@.len()
                ==> self.subnet_subscription@[k1].target@ != self.subnet_subscription@[k2].target@
        &&& forall|k: int| #![trigger self.subnet_subscription@[k]]
            0 <= k < self.subnet_subscription@.len() ==> distinct_streams(
                self.subnet_subscription@[k].streams@,
            ) && (forall|i: int|
                0 <= i < self.subnet_subscription@[k].streams@.len() ==> self.is_active(
                    self.subnet_subscription@[k].streams@[i],
                ))
    }

    /// A fresh runtime: no streams, no subscriptions, sample not yet stable.
    pub fn new() -> (r: Runtime)
        ensures
            r.wf(),
            !r.active_sample,
            forall|sid: u64| !r.is_active(sid) && !r.is_pending(sid),
            forall|t: Seq<u8>, sid: u64| !r.subscribed(t, sid),
    {
        Runtime {
            active_streams: Vec::new(),
            pending_streams: Vec::new(),
            subnet_subscription: Vec::new(),
            active_sample: false,
        }
    }

    /// Flips the active-sample flag; set when the engine declares a stable
    /// sample, after which the runtime serves streams.
    pub fn set_active_sample(&mut self, value: bool)
        ensures
            *final(self) == (Runtime { active_sample: value, ..*old(self) }),
    {
        self.active_sample = value;
    }

    /// Tracks a newly connected watch stream until its handshake completes.
    /// A stream id already tracked is refused.
    pub fn add_pending_stream(&mut self, stream_id: u64) -> (r: bool)
        requires
            old(self).wf(),
        ensures
            final(self).wf(),
            r == (!old(self).is_active(stream_id) && !old(self).is_pending(stream_id)),
            !r ==> *final(self) == *old(self),
            r ==> {
                &&& final(self).is_pending(stream_id)
                &&& final(self).active_streams@ == old(self).active_streams@
                &&& final(self).subnet_subscription@ == old(self).subnet_subscription@
                &&& final(self).active_sample == old(self).active_sample
                &&& forall|sid: u64|
                    final(self).is_pending(sid) == (old(self).is_pending(sid) || sid == stream_id)
            },
    {
        if vec_contains_stream(&self.active_streams, stream_id) || vec_contains_stream(
            &self.pending_streams,
            stream_id,
        ) {
            return false;
        }
        let ghost prev = self.pending_streams@;
        self.pending_streams.push(stream_id);
        proof {
            assert forall|sid: u64| final(self).is_pending(sid) == (contains_stream(prev, sid)
                || sid == stream_id) by {
                if contains_stream(prev, sid) {
                    let i = choose|i: int| 0 <= i < prev.len() && prev[i] == sid;
                    assert(self.pending_streams@[i] == sid);
                }
                if sid == stream_id {
                    assert(self.pending_streams@[prev.len() as int] == sid);
                }
                if contains_stream(self.pending_streams@, sid) {
                    let i = choose|i: int|
                        0 <= i < self.pending_streams@.len() && self.pending_streams@[i] == sid;
                    if i < prev.len() {
                        assert(prev[i] == sid);
                    }
                }
            }
            assert forall|i: int, j: int| 0 <= i < j < self.pending_streams@.len() implies
                self.pending_streams@[i] != self.pending_streams@[j] by {
                if j == self.pending_streams@.len() - 1 {
                    if self.pending_streams@[i] == stream_id {
                        assert(contains_stream(prev, stream_id));
                    }
                }
            }
            assert forall|sid: u64| !(self.is_active(sid) && self.is_pending(sid)) by {
                if self.is_active(sid) && self.is_pending(sid) {
                    assert(old(self).is_active(sid));
                    assert(contains_stream(prev, sid) || sid == stream_id);
                    assert(old(self).is_pending(sid) || sid == stream_id);
                }
            }
        }
        true
    }
}

impl Runtime {
    /// Finds the subscription row of target subnet `t`, if one exists.
    fn find_subscription(&self, t: &SubnetId) -> (r: Option<usize>)
        ensures
            match r {
                Some(k) => 0 <= k < self.subnet_subscription@.len()
                    && self.subnet_subscription@[k as int].target@ == t@,
                None => forall|k: int|
                    0 <= k < self.subnet_subscription@.len()
                        ==> self.subnet_subscription@[k].target@ != t@,
            },
    {
        let mut k: usize = 0;
        while k < self.subnet_subscription.len()
            invariant
                0 <= k <= self.subnet_subscription@.len(),
                forall|k1: int| 0 <= k1 < k ==> self.subnet_subscription@[k1].target@ != t@,
            decreases self.subnet_subscription@.len() - k,
        {
            if self.subnet_subscription[k].target.equals(t) {
                return Some(k);
            }
            k += 1;
        }
        None
    }

    /// With one row per target, membership in that row is exactly the
    /// subscription relation for its target.
    proof fn lemma_row_subscription(&self, k: int)
        requires
            self.wf(),
            0 <= k < self.subnet_subscription@.len(),
        ensures
            forall|sid: u64|
                self.subscribed(self.subnet_subscription@[k].target@, sid) == contains_stream(
                    self.subnet_subscription@[k].streams@,
                    sid,
                ),
    {
        let t = self.subnet_subscription@[k].target@;
        assert forall|sid: u64| self.subscribed(t, sid) == contains_stream(
            self.subnet_subscription@[k].streams@,
            sid,
        ) by {
            if self.subscribed(t, sid) {
                let k2 = choose|k2: int|
                    0 <= k2 < self.subnet_subscription@.len()
                        && self.subnet_subscription@[k2].target@ == t && contains_stream(
                        self.subnet_subscription@[k2].streams@,
                        sid,
                    );
                if k2 != k {
                    if k2 < k {
                        assert(self.subnet_subscription@[k2].target@
                            != self.subnet_subscription@[k].target@);
                    } else {
                        assert(self.subnet_subscription@[k].target@
                            != self.subnet_subscription@[k2].target@);
                    }
                }
            }
        }
    }

    /// Stops tracking a pending stream.
    fn remove_pending(&mut self, stream_id: u64)
        requires
            old(self).wf(),
            old(self).is_pending(stream_id),
        ensures
            final(self).wf(),
            final(self).active_streams@ == old(self).active_streams@,
            final(self).subnet_subscription@ == old(self).subnet_subscription@,
            final(self).active_sample == old(self).active_sample,
            forall|sid: u64|
                final(self).is_pending(sid) == (old(self).is_pending(sid) && sid != stream_id),
    {
        let ghost pre = *old(self);
        let mut k: usize = 0;
        let n = self.pending_streams.len();
        while k < n
            invariant
                0 <= k <= n,
                n == self.pending_streams@.len(),
                *self == pre,
                forall|k1: int| 0 <= k1 < k ==> self.pending_streams@[k1] != stream_id,
            decreases n - k,
        {
            if self.pending_streams[k] == stream_id {
                break ;
            }
            k += 1;
        }
        proof {
            if k == n {
                let i = choose|i: int|
                    0 <= i < pre.pending_streams@.len() && pre.pending_streams@[i] == stream_id;
                assert(false);
            }
        }
        let ghost prev = self.pending_streams@;
        self.pending_streams.swap_remove(k);
        proof {
            assert forall|sid: u64| final(self).is_pending(sid) == (contains_stream(prev, sid)
                && sid != stream_id) by {
                let cur = self.pending_streams@;
                if contains_stream(cur, sid) {
                    let i = choose|i: int| 0 <= i < cur.len() && cur[i] == sid;
                    if i == k {
                        assert(prev[prev.len() - 1] == sid);
                    } else {
                        assert(prev[i] == sid);
                    }
                    assert(contains_stream(prev, sid));
                    if sid == stream_id {
                        if i == k {
                            assert(prev[k as int] == prev[prev.len() - 1] || k == prev.len() - 1);
                            assert(false);
                        } else {
                            assert(prev[i] == prev[k as int]);
                            assert(false);
                        }
                    }
                }
                if contains_stream(prev, sid) && sid != stream_id {
                    let i = choose|i: int| 0 <= i < prev.len() && prev[i] == sid;
                    assert(i != k);
                    if i == prev.len() - 1 {
                        assert(k < prev.len() - 1);
                        assert(cur[k as int] == sid);
                    } else {
                        assert(cur[i] == sid);
                    }
                }
            }
            assert forall|i: int, j: int| 0 <= i < j < self.pending_streams@.len() implies
                self.pending_streams@[i] != self.pending_streams@[j] by {
                let cur = self.pending_streams@;
                assert(cur[i] == (if i == k { prev[prev.len() - 1] } else { prev[i] }));
                assert(cur[j] == (if j == k { prev[prev.len() - 1] } else { prev[j] }));
            }
            assert forall|sid: u64| !(self.is_active(sid) && self.is_pending(sid)) by {
                if self.is_pending(sid) {
                    assert(pre.is_pending(sid));
                }
            }
        }
    }

    /// Subscribes an established stream to one target subnet.
    #[verifier::rlimit(80)]
    fn subscribe(&mut self, target: &SubnetId, stream_id: u64)
        requires
            old(self).wf(),
            old(self).is_active(stream_id),
        ensures
            final(self).wf(),
            final(self).active_streams@ == old(self).active_streams@,
            final(self).pending_streams@ == old(self).pending_streams@,
            final(self).active_sample == old(self).active_sample,
            forall|t2: Seq<u8>, s2: u64|
                final(self).subscribed(t2, s2) == (old(self).subscribed(t2, s2) || (t2 == target@
                    && s2 == stream_id)),
    {
        let ghost pre = *old(self);
        match self.find_subscription(target) {
            Some(k) => {
                proof {
                    pre.lemma_row_subscription(k as int);
                }
                let row = &mut self.subnet_subscription[k];
                let ghost prev_streams = row.streams@;
                if !vec_contains_stream(&row.streams, stream_id) {
                    row.streams.push(stream_id);
                }
                proof {
                    let cur = self.subnet_subscription@[k as int].streams@;
                    assert forall|sid: u64| contains_stream(cur, sid) == (contains_stream(
                        prev_streams,
                        sid,
                    ) || sid == stream_id) by {
                        if contains_stream(prev_streams, sid) {
                            let i = choose|i: int|
                                0 <= i < prev_streams.len() && prev_streams[i] == sid;
                            assert(cur[i] == sid);
                        }
                        if sid == stream_id && cur.len() > prev_streams.len() {
                            assert(cur[prev_streams.len() as int] == sid);
                        }
                        if contains_stream(cur, sid) && cur.len() > prev_streams.len() {
                            let i = choose|i: int| 0 <= i < cur.len() && cur[i] == sid;
                            if i < prev_streams.len() {
                                assert(prev_streams[i] == sid);
                            }
                        }
                    }
                    assert forall|i: int, j: int| 0 <= i < j < cur.len() implies cur[i] != cur[j]
                    by {
                        if j == cur.len() - 1 && cur.len() > prev_streams.len() {
                            if cur[i] == stream_id {
                                assert(contains_stream(prev_streams, stream_id));
                            }
                        }
                    }
                    assert forall|k1: int, k2: int|
                        0 <= k1 < k2 < self.subnet_subscription@.len() implies
                        self.subnet_subscription@[k1].target@
                        != self.subnet_subscription@[k2].target@ by {
                        assert(self.subnet_subscription@[k1].target
                            == pre.subnet_subscription@[k1].target);
                        assert(self.subnet_subscription@[k2].target
                            == pre.subnet_subscription@[k2].target);
                    }
                    assert forall|k2: int| #![trigger self.subnet_subscription@[k2]]
                        0 <= k2 < self.subnet_subscription@.len() implies distinct_streams(
                        self.subnet_subscription@[k2].streams@,
                    ) && (forall|i: int|
                        0 <= i < self.subnet_subscription@[k2].streams@.len() ==> self.is_active(
                            self.subnet_subscription@[k2].streams@[i],
                        )) by {
                        if k2 == k {
                            assert forall|i: int|
                                0 <= i < cur.len() implies self.is_active(cur[i]) by {
                                if i < prev_streams.len() {
                                    assert(cur[i] == prev_streams[i]);
                                    assert(pre.is_active(prev_streams[i])) by {
                                        assert(pre.subnet_subscription@[k as int].streams@[i]
                                            == prev_streams[i]);
                                    }
                                } else {
                                    assert(cur[i] == stream_id);
                                    assert(pre.is_active(stream_id));
                                }
                            }
                        } else {
                            assert(self.subnet_subscription@[k2] == pre.subnet_subscription@[k2]);
                            assert forall|i: int|
                                0 <= i < self.subnet_subscription@[k2].streams@.len() implies
                                self.is_active(self.subnet_subscription@[k2].streams@[i]) by {
                                assert(pre.is_active(
                                    pre.subnet_subscription@[k2].streams@[i],
                                ));
                            }
                        }
                    }
                    assert forall|t2: Seq<u8>, s2: u64| self.subscribed(t2, s2) == (pre.subscribed(
                        t2,
                        s2,
                    ) || (t2 == target@ && s2 == stream_id)) by {
                        if self.subscribed(t2, s2) {
                            let k2 = choose|k2: int|
                                0 <= k2 < self.subnet_subscription@.len()
                                    && self.subnet_subscription@[k2].target@ == t2
                                    && contains_stream(
                                    self.subnet_subscription@[k2].streams@,
                                    s2,
                                );
                            if k2 == k {
                                if !(t2 == target@ && s2 == stream_id) {
                                    assert(contains_stream(prev_streams, s2));
                                    assert(pre.subscribed(t2, s2)) by {
                                        assert(pre.subnet_subscription@[k as int].target@ == t2);
                                    }
                                }
                            } else {
                                assert(pre.subnet_subscription@[k2]
                                    == self.subnet_subscription@[k2]);
                                assert(pre.subscribed(t2, s2));
                            }
                        }
                        if pre.subscribed(t2, s2) {
                            let k2 = choose|k2: int|
                                0 <= k2 < pre.subnet_subscription@.len()
                                    && pre.subnet_subscription@[k2].target@ == t2
                                    && contains_stream(pre.subnet_subscription@[k2].streams@, s2);
                            if k2 == k {
                                assert(contains_stream(cur, s2));
                                assert(self.subnet_subscription@[k as int].target@ == t2);
                            } else {
                                assert(self.subnet_subscription@[k2]
                                    == pre.subnet_subscription@[k2]);
                            }
                            assert(self.subscribed(t2, s2));
                        }
                        if t2 == target@ && s2 == stream_id {
                            assert(contains_stream(cur, stream_id));
                            assert(self.subnet_subscription@[k as int].target@ == t2);
                            assert(self.subscribed(t2, s2));
                        }
                    }
                }
            },
            None => {
                let ghost prev_rows = self.subnet_subscription@;
                let mut streams: Vec<u64> = Vec::new();
                streams.push(stream_id);
                self.subnet_subscription.push(Subscription { target: *target, streams });
                proof {
                    let n = prev_rows.len() as int;
                    assert(self.subnet_subscription@[n].target@ == target@);
                    assert(self.subnet_subscription@[n].streams@.len() == 1);
                    assert(self.subnet_subscription@[n].streams@[0] == stream_id);
                    assert forall|k1: int, k2: int|
                        0 <= k1 < k2 < self.subnet_subscription@.len() implies
                        self.subnet_subscription@[k1].target@
                        != self.subnet_subscription@[k2].target@ by {
                        if k2 == n {
                            assert(prev_rows[k1].target@ != target@);
                        }
                    }
                    assert forall|k2: int| #![trigger self.subnet_subscription@[k2]]
                        0 <= k2 < self.subnet_subscription@.len() implies distinct_streams(
                        self.subnet_subscription@[k2].streams@,
                    ) && (forall|i: int|
                        0 <= i < self.subnet_subscription@[k2].streams@.len() ==> self.is_active(
                            self.subnet_subscription@[k2].streams@[i],
                        )) by {
                        if k2 == n {
                            assert forall|i: int|
                                0 <= i < self.subnet_subscription@[k2].streams@.len() implies
                                self.is_active(self.subnet_subscription@[k2].streams@[i]) by {
                                assert(self.subnet_subscription@[n].streams@[i] == stream_id);
                                assert(pre.is_active(stream_id));
                            }
                        } else {
                            assert(self.subnet_subscription@[k2] == pre.subnet_subscription@[k2]);
                            assert forall|i: int|
                                0 <= i < self.subnet_subscription@[k2].streams@.len() implies
                                self.is_active(self.subnet_subscription@[k2].streams@[i]) by {
                                assert(pre.is_active(
                                    pre.subnet_subscription@[k2].streams@[i],
                                ));
                            }
                        }
                    }
                    assert forall|t2: Seq<u8>, s2: u64| self.subscribed(t2, s2) == (pre.subscribed(
                        t2,
                        s2,
                    ) || (t2 == target@ && s2 == stream_id)) by {
                        if self.subscribed(t2, s2) {
                            let k2 = choose|k2: int|
                                0 <= k2 < self.subnet_subscription@.len()
                                    && self.subnet_subscription@[k2].target@ == t2
                                    && contains_stream(
                                    self.subnet_subscription@[k2].streams@,
                                    s2,
                                );
                            if k2 == n {
                                assert(t2 == target@);
                                let i = choose|i: int|
                                    0 <= i < self.subnet_subscription@[k2].streams@.len()
                                        && self.subnet_subscription@[k2].streams@[i] == s2;
                                assert(i == 0);
                                assert(s2 == stream_id);
                            } else {
                                assert(pre.subnet_subscription@[k2]
                                    == self.subnet_subscription@[k2]);
                                assert(pre.subscribed(t2, s2));
                            }
                        }
                        if pre.subscribed(t2, s2) {
                            let k2 = choose|k2: int|
                                0 <= k2 < pre.subnet_subscription@.len()
                                    && pre.subnet_subscription@[k2].target@ == t2
                                    && contains_stream(pre.subnet_subscription@[k2].streams@, s2);
                            assert(self.subnet_subscription@[k2] == pre.subnet_subscription@[k2]);
                            assert(self.subscribed(t2, s2));
                        }
                        if t2 == target@ && s2 == stream_id {
                            assert(contains_stream(self.subnet_subscription@[n].streams@, s2)) by {
                                assert(self.subnet_subscription@[n].streams@[0] == s2);
                            }
                            assert(self.subscribed(t2, s2));
                        }
                    }
                }
            },
        }
        proof {
            let pre = *old(self);
            assert(self.active_streams@ == pre.active_streams@);
            assert(self.pending_streams@ == pre.pending_streams@);
            assert forall|sid: u64| !(self.is_active(sid) && self.is_pending(sid)) by {
                assert(self.is_active(sid) == pre.is_active(sid));
                assert(self.is_pending(sid) == pre.is_pending(sid));
            }
        }
    }

    /// Completes the open-stream handshake: validates that the checkpoint
    /// names at least one target subnet, establishes the stream, registers it
    /// under each requested target (duplicates collapsed), and replays, in
    /// checkpoint order, exactly the stored certificates that sit strictly
    /// after the checkpoint's positions and are addressed to one of the
    /// requested target subnets. Source streams the checkpoint does not name
    /// are not replayed: a watcher resumes them by naming them at position 0.
    /// Returns the subnet ids to confirm and the replay.
    ///
    /// Until a stable sample is declared, streams are refused.
    #[verifier::rlimit(80)]
    pub fn open_stream(
        &mut self,
        stream_id: u64,
        target_checkpoint: &TargetCheckpoint,
        store: &IndexStore,
    ) -> (r: Result<(Vec<SubnetId>, Vec<Certificate>), RuntimeError>)
        requires
            old(self).wf(),
            store.wf(),
            store.replay_from(target_checkpoint.positions@).len() <= usize::MAX,
        ensures
            final(self).wf(),
            final(self).active_sample == old(self).active_sample,
            r is Err ==> *final(self) == *old(self),
            (r is Ok) == (old(self).active_sample && old(self).is_pending(stream_id)
                && target_checkpoint.target_subnet_ids@.len() > 0),
            match r {
                Ok(opened) => {
                    &&& distinct_subnets(opened.0@)
                    &&& forall|t: Seq<u8>|
                        contains_subnet(opened.0@, t) == contains_subnet(
                            target_checkpoint.target_subnet_ids@,
                            t,
                        )
                    &&& final(self).is_active(stream_id)
                    &&& !final(self).is_pending(stream_id)
                    &&& forall|sid: u64|
                        final(self).is_active(sid) == (old(self).is_active(sid) || sid
                            == stream_id)
                    &&& forall|sid: u64|
                        final(self).is_pending(sid) == (old(self).is_pending(sid) && sid
                            != stream_id)
                    &&& forall|t2: Seq<u8>, s2: u64|
                        final(self).subscribed(t2, s2) == (old(self).subscribed(t2, s2) || (s2
                            == stream_id && contains_subnet(
                            target_checkpoint.target_subnet_ids@,
                            t2,
                        )))
                    &&& cert_views(opened.1@) =~= cert_views(
                        store.replay_from(target_checkpoint.positions@),
                    ).filter(replay_pred(target_checkpoint.target_subnet_ids@))
                },
                Err(e) => match e {
                    RuntimeError::SampleNotStable => !old(self).active_sample,
                    RuntimeError::PendingStreamNotFound(sid) => old(self).active_sample && sid
                        == stream_id && !old(self).is_pending(stream_id),
                    RuntimeError::InvalidTargetCheckpoint => old(self).active_sample && old(
                        self,
                    ).is_pending(stream_id) && target_checkpoint.target_subnet_ids@.len() == 0,
                    _ => false,
                },
            },
    {
        if !self.active_sample {
            return Err(RuntimeError::SampleNotStable);
        }
        if !vec_contains_stream(&self.pending_streams, stream_id) {
            return Err(RuntimeError::PendingStreamNotFound(stream_id));
        }
        if target_checkpoint.target_subnet_ids.len() == 0 {
            return Err(RuntimeError::InvalidTargetCheckpoint);
        }
        let ghost pre = *old(self);
        let targets = dedup_subnets(&target_checkpoint.target_subnet_ids);
        self.remove_pending(stream_id);
        let ghost after_remove = *self;
        let ghost prev_active = self.active_streams@;
        self.active_streams.push(stream_id);
        proof {
            assert forall|sid: u64| self.is_active(sid) == (pre.is_active(sid) || sid
                == stream_id) by {
                if contains_stream(prev_active, sid) {
                    let i = choose|i: int| 0 <= i < prev_active.len() && prev_active[i] == sid;
                    assert(self.active_streams@[i] == sid);
                }
                if sid == stream_id {
                    assert(self.active_streams@[prev_active.len() as int] == sid);
                }
                if contains_stream(self.active_streams@, sid) {
                    let i = choose|i: int|
                        0 <= i < self.active_streams@.len() && self.active_streams@[i] == sid;
                    if i < prev_active.len() {
                        assert(prev_active[i] == sid);
                    }
                }
            }
            assert forall|i: int, j: int| 0 <= i < j < self.active_streams@.len() implies
                self.active_streams@[i] != self.active_streams@[j] by {
                if j == self.active_streams@.len() - 1 {
                    if self.active_streams@[i] == stream_id {
                        assert(pre.is_active(stream_id));
                        assert(pre.is_pending(stream_id));
                    }
                }
            }
            assert forall|sid: u64| !(self.is_active(sid) && self.is_pending(sid)) by {
                if self.is_pending(sid) {
                    assert(self.pending_streams@ == after_remove.pending_streams@);
                    assert(after_remove.is_pending(sid));
                    assert(pre.is_pending(sid) && sid != stream_id);
                    assert(!pre.is_active(sid));
                }
            }
            assert(self.is_active(stream_id)) by {
                assert(self.active_streams@[prev_active.len() as int] == stream_id);
            }
            assert forall|sid: u64| self.is_pending(sid) == (pre.is_pending(sid) && sid
                != stream_id) by {
                assert(self.pending_streams@ == after_remove.pending_streams@);
                assert(self.is_pending(sid) == after_remove.is_pending(sid));
            }
            assert forall|k: int| #![trigger self.subnet_subscription@[k]]
                0 <= k < self.subnet_subscription@.len() implies distinct_streams(
                self.subnet_subscription@[k].streams@,
            ) && (forall|i: int|
                0 <= i < self.subnet_subscription@[k].streams@.len() ==> self.is_active(
                    self.subnet_subscription@[k].streams@[i],
                )) by {
                assert(pre.subnet_subscription@[k] == self.subnet_subscription@[k]);
                assert forall|i: int|
                    0 <= i < self.subnet_subscription@[k].streams@.len() implies self.is_active(
                        self.subnet_subscription@[k].streams@[i],
                    ) by {
                    assert(pre.is_active(pre.subnet_subscription@[k].streams@[i]));
                }
            }
        }
        let ghost established = *self;
        let mut ti: usize = 0;
        while ti < targets.len()
            invariant
                0 <= ti <= targets@.len(),
                self.wf(),
                self.is_active(stream_id),
                self.active_streams@ == established.active_streams@,
                self.pending_streams@ == established.pending_streams@,
                self.active_sample == established.active_sample,
                forall|t2: Seq<u8>, s2: u64|
                    self.subscribed(t2, s2) == (established.subscribed(t2, s2) || (s2 == stream_id
                        && exists|m: int| 0 <= m < ti && targets@[m]@ == t2)),
            decreases targets@.len() - ti,
        {
            let ghost before = *self;
            self.subscribe(&targets[ti], stream_id);
            ti += 1;
            proof {
                assert forall|t2: Seq<u8>, s2: u64| self.subscribed(t2, s2) == (
                established.subscribed(t2, s2) || (s2 == stream_id && exists|m: int|
                    0 <= m < ti && targets@[m]@ == t2)) by {
                    if self.subscribed(t2, s2) {
                        if before.subscribed(t2, s2) {
                            if !established.subscribed(t2, s2) {
                                let m = choose|m: int| 0 <= m < ti - 1 && targets@[m]@ == t2;
                                assert(0 <= m < ti && targets@[m]@ == t2);
                            }
                        } else {
                            assert(t2 == targets@[ti - 1]@ && s2 == stream_id);
                        }
                    }
                    if established.subscribed(t2, s2) {
                        assert(before.subscribed(t2, s2));
                    }
                    if s2 == stream_id && (exists|m: int| 0 <= m < ti && targets@[m]@ == t2) {
                        let m = choose|m: int| 0 <= m < ti && targets@[m]@ == t2;
                        if m < ti - 1 {
                            assert(exists|m2: int| 0 <= m2 < ti - 1 && targets@[m2]@ == t2) by {
                                assert(0 <= m < ti - 1 && targets@[m]@ == t2);
                            }
                            assert(before.subscribed(t2, s2));
                        } else {
                            assert(t2 == targets@[ti - 1]@);
                        }
                        assert(self.subscribed(t2, s2));
                    }
                }
            }
        }
        proof {
            assert forall|t2: Seq<u8>, s2: u64| self.subscribed(t2, s2) == (pre.subscribed(t2, s2)
                || (s2 == stream_id && contains_subnet(
                target_checkpoint.target_subnet_ids@,
                t2,
            ))) by {
                assert(established.subscribed(t2, s2) == pre.subscribed(t2, s2)) by {
                    assert(established.subnet_subscription@ == pre.subnet_subscription@);
                    if established.subscribed(t2, s2) {
                        let k = choose|k: int|
                            0 <= k < established.subnet_subscription@.len()
                                && established.subnet_subscription@[k].target@ == t2
                                && contains_stream(
                                established.subnet_subscription@[k].streams@,
                                s2,
                            );
                        assert(pre.subnet_subscription@[k].target@ == t2 && contains_stream(
                            pre.subnet_subscription@[k].streams@,
                            s2,
                        ));
                    }
                    if pre.subscribed(t2, s2) {
                        let k = choose|k: int|
                            0 <= k < pre.subnet_subscription@.len()
                                && pre.subnet_subscription@[k].target@ == t2 && contains_stream(
                                pre.subnet_subscription@[k].streams@,
                                s2,
                            );
                        assert(established.subnet_subscription@[k].target@ == t2
                            && contains_stream(
                            established.subnet_subscription@[k].streams@,
                            s2,
                        ));
                    }
                }
                assert(contains_subnet(targets@, t2) == contains_subnet(
                    target_checkpoint.target_subnet_ids@,
                    t2,
                ));
                if exists|m: int| 0 <= m < ti && targets@[m]@ == t2 {
                    let m = choose|m: int| 0 <= m < ti && targets@[m]@ == t2;
                    assert(targets@[m]@ == t2);
                    assert(contains_subnet(targets@, t2));
                }
                if contains_subnet(targets@, t2) {
                    let m = choose|m: int| 0 <= m < targets@.len() && targets@[m]@ == t2;
                    assert(0 <= m < ti && targets@[m]@ == t2);
                }
            }
        }
        let checkpoint = SourceCheckpoint { positions: copy_vec(&target_checkpoint.positions) };
        let unfiltered = store.get_certificates_per_subnet(&checkpoint, usize::MAX);
        let ghost full = store.replay_from(target_checkpoint.positions@);
        let ghost pred = replay_pred(target_checkpoint.target_subnet_ids@);
        proof {
            assert(unfiltered@.len() == full.len());
            assert(cert_views(unfiltered@) =~= cert_views(full));
        }
        let mut replay: Vec<Certificate> = Vec::new();
        let mut ri: usize = 0;
        while ri < unfiltered.len()
            invariant
                0 <= ri <= unfiltered@.len(),
                cert_views(replay@) =~= cert_views(unfiltered@.take(ri as int)).filter(pred),
            decreases unfiltered@.len() - ri,
        {
            let keep = addressed_to_requested(
                &unfiltered[ri],
                &target_checkpoint.target_subnet_ids,
            );
            let ghost prev = replay@;
            if keep {
                replay.push(unfiltered[ri].duplicate());
            }
            ri += 1;
            proof {
                reveal(Seq::filter);
                let taken = cert_views(unfiltered@.take(ri as int));
                assert(taken.drop_last() =~= cert_views(unfiltered@.take(ri - 1)));
                assert(taken.last() == unfiltered@[ri - 1]@);
                assert(pred(unfiltered@[ri - 1]@) == keep);
                if keep {
                    assert(cert_views(replay@) =~= cert_views(prev).push(unfiltered@[ri - 1]@));
                }
                assert(cert_views(replay@) =~= taken.filter(pred));
            }
        }
        proof {
            assert(unfiltered@.take(ri as int) =~= unfiltered@);
            assert(cert_views(replay@) =~= cert_views(full).filter(pred)) by {
                assert(cert_views(unfiltered@) == cert_views(full));
            }
        }
        Ok((targets, replay))
    }

    /// Whether some of the subnet ids `ts` has stream `sid` subscribed.
    pub open spec fn any_subscribed(&self, ts: Seq<SubnetId>, sid: u64) -> bool {
        exists|m: int| 0 <= m < ts.len() && self.subscribed(ts[m]@, sid)
    }

    /// How the subscription of one more target changes `any_subscribed`.
    proof fn lemma_any_subscribed_push(&self, ts: Seq<SubnetId>, x: SubnetId, sid: u64)
        ensures
            self.any_subscribed(ts.push(x), sid) == (self.any_subscribed(ts, sid)
                || self.subscribed(x@, sid)),
    {
        if self.any_subscribed(ts, sid) {
            let m = choose|m: int| 0 <= m < ts.len() && self.subscribed(ts[m]@, sid);
            assert(ts.push(x)[m]@ == ts[m]@);
            assert(self.any_subscribed(ts.push(x), sid));
        }
        if self.subscribed(x@, sid) {
            assert(ts.push(x)[ts.len() as int]@ == x@);
            assert(self.any_subscribed(ts.push(x), sid));
        }
        if self.any_subscribed(ts.push(x), sid) {
            let m = choose|m: int| 0 <= m < ts.push(x).len() && self.subscribed(ts.push(x)[m]@, sid);
            if m < ts.len() {
                assert(ts[m]@ == ts.push(x)[m]@);
                assert(self.any_subscribed(ts, sid));
            } else {
                assert(self.subscribed(x@, sid));
            }
        }
    }

    /// The streams a delivered certificate must be pushed to: every
    /// established stream subscribed to one of its target subnets, each
    /// exactly once.
    pub fn fan_out(&self, cert: &Certificate) -> (r: Vec<u64>)
        requires
            self.wf(),
        ensures
            distinct_streams(r@),
            forall|sid: u64| #![trigger contains_stream(r@, sid)]
                contains_stream(r@, sid) == self.any_subscribed(cert.target_subnets@, sid),
    {
        let mut acc: Vec<u64> = Vec::new();
        let mut ti: usize = 0;
    while ti < cert.target_subnets.len()
            invariant
                0 <= ti <= cert.target_subnets@.len(),
                distinct_streams(acc@),
                forall|sid: u64| #![trigger contains_stream(acc@, sid)]
                    contains_stream(acc@, sid) == self.any_subscribed(
                        cert.target_subnets@.take(ti as int),
                        sid,
                    ),
            decreases cert.target_subnets@.len() - ti,
        {
            let ghost outer_prev = acc@;
            let ghost prefix = cert.target_subnets@.take(ti as int);
            let ghost target = cert.target_subnets@[ti as int];
            match self.find_subscription(&cert.target_subnets[ti]) {
                Some(k) => {
                    proof {
                        self.lemma_row_subscription(k as int);
                    }
                    let row = &self.subnet_subscription[k];
                    let mut i: usize = 0;
                    while i < row.streams.len()
                        invariant
                            0 <= i <= row.streams@.len(),
                            row == self.subnet_subscription@[k as int],
                            0 <= k < self.subnet_subscription@.len(),
                            distinct_streams(acc@),
                            forall|s2: u64| #![trigger contains_stream(acc@, s2)]
                                contains_stream(acc@, s2) == (contains_stream(outer_prev, s2)
                                    || contains_stream(row.streams@.take(i as int), s2)),
                        decreases row.streams@.len() - i,
                    {
                        let sid = row.streams[i];
                        let ghost prev = acc@;
                        let present = vec_contains_stream(&acc, sid);
                        if !present {
                            acc.push(sid);
                        }
                        i += 1;
                        proof {
                            assert(row.streams@.take(i as int) =~= row.streams@.take(
                                i - 1,
                            ).push(row.streams@[i - 1]));
                            if !present {
                                assert(acc@ == prev.push(sid));
                            }
                            assert forall|s2: u64| #![trigger contains_stream(acc@, s2)]
                                contains_stream(acc@, s2) == (contains_stream(outer_prev, s2)
                                    || contains_stream(row.streams@.take(i as int), s2)) by {
                                lemma_contains_stream_push(
                                    row.streams@.take(i - 1),
                                    row.streams@[i - 1],
                                    s2,
                                );
                                if !present {
                                    lemma_contains_stream_push(prev, sid, s2);
                                } else {
                                    if s2 == sid {
                                        assert(contains_stream(acc@, sid));
                                    }
                                }
                            }
                            assert forall|i1: int, j1: int| 0 <= i1 < j1 < acc@.len() implies
                                acc@[i1] != acc@[j1] by {
                                if !present && j1 == acc@.len() - 1 {
                                    assert(acc@[i1] == prev[i1]);
                                    if acc@[i1] == sid {
                                        assert(contains_stream(prev, sid));
                                    }
                                }
                            }
                        }
                    }
                    proof {
                        assert(row.streams@.take(i as int) =~= row.streams@);
                        assert(cert.target_subnets@.take(ti + 1) =~= prefix.push(target));
                        self.lemma_any_subscribed_push(prefix, target, 0u64);
                        assert forall|s2: u64| #![trigger contains_stream(acc@, s2)]
                            contains_stream(acc@, s2) == self.any_subscribed(
                                cert.target_subnets@.take(ti + 1),
                                s2,
                            ) by {
                            self.lemma_any_subscribed_push(prefix, target, s2);
                            assert(self.subscribed(target@, s2) == contains_stream(
                                row.streams@,
                                s2,
                            ));
                        }
                    }
                },
                None => {
                    proof {
                        assert(cert.target_subnets@.take(ti + 1) =~= prefix.push(target));
                        assert forall|s2: u64| #![trigger contains_stream(acc@, s2)]
                            contains_stream(acc@, s2) == self.any_subscribed(
                                cert.target_subnets@.take(ti + 1),
                                s2,
                            ) by {
                            self.lemma_any_subscribed_push(prefix, target, s2);
                            assert(!self.subscribed(target@, s2));
                        }
                    }
                },
            }
            ti += 1;
        }
        proof {
            assert(cert.target_subnets@.take(ti as int) =~= cert.target_subnets@);
        }
        acc
    }
}

/// Accepts one submitted certificate: validates the field invariants,
/// collapses duplicate targets, and hands the certificate to the broadcast
/// engine. Submission is acknowledged, not delivered. A first observation
/// starts the broadcast and asks for the gossip and this node's echo;
/// submitting a certificate whose id is already known — in flight or
/// delivered — succeeds silently and changes nothing, so submission is
/// idempotent.
pub fn submit_certificate(
    engine: &mut crate::double_echo::DoubleEcho,
    cert: &Certificate,
    signature: &Vec<u8>,
) -> (r: Result<Vec<crate::double_echo::ProtocolEvents>, crate::types::InvalidInput>)
    requires
        old(engine).wf(),
    ensures
        final(engine).wf(),
        final(engine).params == old(engine).params,
        final(engine).local_validator == old(engine).local_validator,
        (r is Ok) == (!crate::types::is_zero_bytes(cert.id@) && !contains_subnet(
            cert.target_subnets@,
            cert.source_subnet_id@,
        )),
        r is Err ==> *final(engine) == *old(engine) && (r matches Err(e) ==> e == (
        if crate::types::is_zero_bytes(cert.id@) {
            crate::types::InvalidInput::ZeroCertificateId
        } else {
            crate::types::InvalidInput::SourceAmongTargets
        })),
        r matches Ok(events) ==> {
            &&& final(engine).known(cert.id@)
            &&& (old(engine).known(cert.id@) ==> *final(engine) == *old(engine) && (if old(
                engine,
            ).state_of(cert.id@).delivered {
                events@.len() == 1 && (events@[0]
                    matches crate::double_echo::ProtocolEvents::AlreadyDelivered {
                    certificate_id,
                } && certificate_id@ == cert.id@)
            } else {
                events@.len() == 0
            }))
            &&& (!old(engine).known(cert.id@) ==> {
                let st = final(engine).state_of(cert.id@);
                &&& forall|id2: Seq<u8>|
                    final(engine).known(id2) == (old(engine).known(id2) || id2 == cert.id@)
                &&& !st.delivered
                &&& !st.ready_sent
                &&& st.echoes.len() == 0
                &&& st.readies.len() == 0
                &&& crate::types::is_normalization_of(st.certificate, *cert)
                &&& events@.len() == 3
                &&& (events@[0] matches crate::double_echo::ProtocolEvents::Broadcast {
                    certificate_id,
                } && certificate_id@ == cert.id@)
                &&& (events@[1] matches crate::double_echo::ProtocolEvents::Gossip { cert: g }
                    && crate::types::is_normalization_of(g@, *cert))
                &&& (events@[2] matches crate::double_echo::ProtocolEvents::Echo {
                    certificate_id,
                    signature: sig,
                    validator_id,
                } && certificate_id@ == cert.id@ && sig@ == signature@ && validator_id == old(
                    engine,
                ).local_validator)
            })
        },
{
    let validated = match crate::types::validate_certificate(cert) {
        Ok(v) => v,
        Err(e) => {
            return Err(e);
        },
    };
    let ghost pre = *engine;
    let events = engine.on_broadcast(&validated, signature, true);
    proof {
        assert(crate::types::is_normalization_of(validated@, *cert)) by {
            assert forall|t: Seq<u8>| #[trigger] validated@.target_subnets.contains(t)
                == contains_subnet(cert.target_subnets@, t) by {
                if validated@.target_subnets.contains(t) {
                    let ti = choose|ti: int|
                        0 <= ti < validated@.target_subnets.len()
                            && validated@.target_subnets[ti] == t;
                    assert(validated.target_subnets@[ti]@ == t);
                    assert(contains_subnet(validated.target_subnets@, t));
                }
                if contains_subnet(cert.target_subnets@, t) {
                    assert(contains_subnet(validated.target_subnets@, t));
                    let ti = choose|ti: int|
                        0 <= ti < validated.target_subnets@.len()
                            && validated.target_subnets@[ti]@ == t;
                    assert(validated@.target_subnets[ti] == t);
                }
            }
        }
        if !pre.known(cert.id@) {
            let st = engine.state_of(cert.id@);
            assert(st == crate::double_echo::initial_state(validated@));
            assert forall|id2: Seq<u8>| final(engine).known(id2) == (pre.known(id2) || id2
                == cert.id@) by {
                assert(final(engine).states_map().dom() =~= pre.states_map().dom().insert(
                    cert.id@,
                ));
                assert(final(engine).known(id2) == final(engine).states_map().dom().contains(
                    id2,
                ));
                assert(pre.known(id2) == pre.states_map().dom().contains(id2));
            }
        }
    }
    Ok(events)
}

} // verus!
