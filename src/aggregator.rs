//! The aggregator: checks each signed submission against the claimed
//! client's public key and folds the accepted averages into a global one.
//!
//! It is a state machine driven by events; whoever owns it waits for the
//! next event and hands it over until `is_collecting` turns false.
use vstd::prelude::*;
use crate::client::SignedSubmission;
use crate::crypto::{check_signature, ed25519_accepts};
use crate::message::{canonical_bytes, canonical_message};
use crate::price::{calculate_average, mean_of};

verus! {

/// What became of one submission.
#[derive(Clone, Copy, Debug, PartialEq, Eq, Structural)]
pub enum Verdict {
    /// Signature valid, first from this client: its average counts.
    Accepted,
    /// The id names no client of the roster; no signature check was made.
    UnknownClient,
    /// The signature does not check against the client's public key.
    BadSignature,
    /// A valid submission from a client that was already counted.
    Duplicate,
}

/// What the aggregator's wait produced.
#[derive(Debug)]
pub enum AggregatorEvent {
    Submission(SignedSubmission),
    /// Every sender is gone: nothing more can arrive.
    Closed,
    /// The collection deadline passed.
    TimedOut,
}

/// The run's outcome: the accepted averages in arrival order and their mean.
#[derive(Debug)]
pub struct GlobalResult {
    pub per_client_averages: Vec<u64>,
    pub global_average: u64,
}

pub struct Aggregator {
    public_keys: Vec<[u8; 32]>,
    accepted_ids: Vec<usize>,
    averages: Vec<u64>,
    collecting: bool,
}

impl Aggregator {
    /// The key table: entry `i` belongs to client `i + 1`.
    pub closed spec fn public_keys(&self) -> Seq<[u8; 32]> {
        self.public_keys@
    }

    /// The clients whose averages were accepted, in arrival order.
    pub closed spec fn accepted_ids(&self) -> Seq<usize> {
        self.accepted_ids@
    }

    /// The accepted averages, in arrival order.
    pub closed spec fn verified_averages(&self) -> Seq<u64> {
        self.averages@
    }

    pub closed spec fn collecting(&self) -> bool {
        self.collecting
    }

    /// Accepted ids and averages go together, every accepted id is on the
    /// roster, and no client is counted twice.
    pub closed spec fn wf(&self) -> bool {
        &&& self.accepted_ids@.len() == self.averages@.len()
        &&& forall|i: int|
            0 <= i < self.accepted_ids@.len() ==> 1 <= #[trigger] self.accepted_ids@[i]
                <= self.public_keys@.len()
        &&& forall|i: int, j: int|
            0 <= i < j < self.accepted_ids@.len() ==> self.accepted_ids@[i]
                != self.accepted_ids@[j]
    }

    pub open spec fn expected_count(&self) -> nat {
        self.public_keys().len()
    }

    pub open spec fn on_roster(&self, id: usize) -> bool {
        1 <= id <= self.expected_count()
    }

    /// Whether a submission's signature checks against the key of the client
    /// it names, over the canonical message of its id and average.
    pub open spec fn signature_checks(&self, s: SignedSubmission) -> bool {
        ed25519_accepts(
            self.public_keys()[s.client_id - 1]@,
            canonical_bytes(s.client_id as nat, s.average as nat),
            s.signature@,
        )
    }

    pub open spec fn verdict_for(&self, s: SignedSubmission, signature_ok: bool) -> Verdict {
        if !self.on_roster(s.client_id) {
            Verdict::UnknownClient
        } else if !signature_ok {
            Verdict::BadSignature
        } else if self.accepted_ids().contains(s.client_id) {
            Verdict::Duplicate
        } else {
            Verdict::Accepted
        }
    }

    /// `next` is this state after taking `s` with verdict `v`: an accepted
    /// submission appends its id and average and ends the collection once
    /// every client is counted; any other verdict changes nothing.
    pub open spec fn records(&self, next: &Self, s: SignedSubmission, v: Verdict) -> bool {
        &&& next.public_keys() == self.public_keys()
        &&& v == Verdict::Accepted ==> {
            &&& next.accepted_ids() == self.accepted_ids().push(s.client_id)
            &&& next.verified_averages() == self.verified_averages().push(s.average)
            &&& next.collecting() == (self.collecting() && next.verified_averages().len()
                < self.expected_count())
        }
        &&& v != Verdict::Accepted ==> *next == *self
    }

    /// A fresh aggregator for the clients whose public keys are given, in id order.
    pub fn new(public_keys: Vec<[u8; 32]>) -> (r: Aggregator)
        ensures
            r.wf(),
            r.public_keys() == public_keys@,
            r.accepted_ids() == Seq::<usize>::empty(),
            r.verified_averages() == Seq::<u64>::empty(),
            r.collecting(),
    {
        Aggregator {
            public_keys,
            accepted_ids: Vec::new(),
            averages: Vec::new(),
            collecting: true,
        }
    }

    /// The number of clients on the roster.
    pub fn client_count(&self) -> (r: usize)
        ensures
            r == self.expected_count(),
    {
        self.public_keys.len()
    }

    /// The number of averages accepted so far.
    pub fn verified_count(&self) -> (r: usize)
        ensures
            r == self.verified_averages().len(),
    {
        self.averages.len()
    }

    /// Whether more events are wanted.
    pub fn is_collecting(&self) -> (r: bool)
        ensures
            r == self.collecting(),
    {
        self.collecting
    }

    fn has_accepted(&self, id: usize) -> (r: bool)
        ensures
            r == self.accepted_ids().contains(id),
    {
        let mut i: usize = 0;
        while i < self.accepted_ids.len()
            invariant
                i <= self.accepted_ids@.len(),
                forall|j: int| 0 <= j < i ==> self.accepted_ids@[j] != id,
            decreases self.accepted_ids@.len() - i,
        {
            if self.accepted_ids[i] == id {
                return true;
            }
            i = i + 1;
        }
        false
    }

    /// Takes a submission whose signature check came out as `signature_ok`.
    pub fn record(&mut self, s: &SignedSubmission, signature_ok: bool) -> (r: Verdict)
        requires
            old(self).wf(),
        ensures
            final(self).wf(),
            r == old(self).verdict_for(*s, signature_ok),
            old(self).records(final(self), *s, r),
    {
        let id = s.client_id;
        if id < 1 || id > self.public_keys.len() {
            return Verdict::UnknownClient;
        }
        if !signature_ok {
            return Verdict::BadSignature;
        }
        if self.has_accepted(id) {
            return Verdict::Duplicate;
        }
        self.accepted_ids.push(id);
        self.averages.push(s.average);
        if self.averages.len() >= self.public_keys.len() {
            self.collecting = false;
        }
        proof {
            assert forall|i: int, j: int|
                0 <= i < j < self.accepted_ids@.len() implies self.accepted_ids@[i]
                != self.accepted_ids@[j] by {
                if j == self.accepted_ids@.len() - 1 {
                    assert(old(self).accepted_ids@[i] == self.accepted_ids@[i]);
                }
            }
        }
        Verdict::Accepted
    }

    /// Takes a submission: an id off the roster is rejected at once; otherwise
    /// the signature is checked against that client's key over the canonical
    /// message, and the result recorded.
    pub fn receive(&mut self, s: &SignedSubmission) -> (r: Verdict)
        requires
            old(self).wf(),
        ensures
            final(self).wf(),
            r == old(self).verdict_for(
                *s,
                old(self).on_roster(s.client_id) && old(self).signature_checks(*s),
            ),
            old(self).records(final(self), *s, r),
    {
        let id = s.client_id;
        if id < 1 || id > self.public_keys.len() {
            return Verdict::UnknownClient;
        }
        let message = canonical_message(id, s.average);
        let ok = check_signature(&self.public_keys[id - 1], message.as_slice(), &s.signature);
        self.record(s, ok)
    }

    /// Takes the next event of the collection. A submission is received; a
    /// closed channel or a passed deadline ends the collection.
    pub fn handle(&mut self, event: AggregatorEvent) -> (r: Option<Verdict>)
        requires
            old(self).wf(),
        ensures
            final(self).wf(),
            match event {
                AggregatorEvent::Submission(s) => {
                    &&& r == Some(
                        old(self).verdict_for(
                            s,
                            old(self).on_roster(s.client_id) && old(self).signature_checks(s),
                        ),
                    )
                    &&& old(self).records(final(self), s, r->0)
                },
                _ => {
                    &&& r is None
                    &&& !final(self).collecting()
                    &&& final(self).public_keys() == old(self).public_keys()
                    &&& final(self).accepted_ids() == old(self).accepted_ids()
                    &&& final(self).verified_averages() == old(self).verified_averages()
                },
            },
    {
        match event {
            AggregatorEvent::Submission(s) => Some(self.receive(&s)),
            _ => {
                self.collecting = false;
                None
            },
        }
    }

    /// The global result over the accepted averages; none when no average
    /// was accepted.
    pub fn global_result(&self) -> (r: Option<GlobalResult>)
        ensures
            r is None <==> self.verified_averages().len() == 0,
            r is Some ==> r->0.per_client_averages@ == self.verified_averages()
                && r->0.global_average == mean_of(self.verified_averages())->0,
    {
        match calculate_average(self.averages.as_slice()) {
            Some(global_average) => {
                let per_client_averages = self.averages.clone();
                assert(per_client_averages@ =~= self.averages@);
                Some(GlobalResult { per_client_averages, global_average })
            },
            None => None,
        }
    }
}

/// A submission that names a client off the roster is rejected as unknown,
/// whatever a signature check would have said.
pub proof fn lemma_off_roster_rejected(agg: Aggregator, s: SignedSubmission, signature_ok: bool)
    requires
        s.client_id == 0 || s.client_id > agg.expected_count(),
    ensures
        agg.verdict_for(s, signature_ok) == Verdict::UnknownClient,
{
}

/// A submission whose signature checks against its client's registered key,
/// over the canonical message of its own id and average, is counted, unless
/// that client was already counted.
pub proof fn lemma_valid_submission_counts(agg: Aggregator, s: SignedSubmission)
    requires
        agg.on_roster(s.client_id),
        agg.signature_checks(s),
        !agg.accepted_ids().contains(s.client_id),
    ensures
        agg.verdict_for(s, agg.on_roster(s.client_id) && agg.signature_checks(s))
            == Verdict::Accepted,
{
}

/// Every counted client is on the roster and is counted once, with one
/// average each.
pub proof fn lemma_counted_once(agg: Aggregator)
    requires
        agg.wf(),
    ensures
        agg.accepted_ids().len() == agg.verified_averages().len(),
        forall|i: int|
            0 <= i < agg.accepted_ids().len() ==> agg.on_roster(#[trigger] agg.accepted_ids()[i]),
        forall|i: int, j: int|
            0 <= i < j < agg.accepted_ids().len() ==> agg.accepted_ids()[i]
                != agg.accepted_ids()[j],
{
}

} // verus!
