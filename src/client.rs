//! The client side: reading samples from feed messages, collecting them over
//! a time budget, and turning them into one signed submission.
use vstd::prelude::*;
use crate::crypto::{ed25519_accepts, ed25519_signature, sign_bytes};
use crate::identity::ClientIdentity;
use crate::message::{canonical_bytes, canonical_message};
use crate::price::{calculate_average, mean_of, parse_price, price_of_text};

verus! {

/// What a feed message is, read as JSON, at a member holding a string.
pub uninterp spec fn json_string_member(text: Seq<char>, key: Seq<char>) -> Option<Seq<char>>;

/// Relies on `serde_json::from_str` into a `Value`, then `Value::get` and
/// `Value::as_str`: the string at member `key` of the JSON object in `text`,
/// or none when `text` is no JSON, has no such member, or it is no string.
#[verifier::external_body]
fn json_string_field(text: &str, key: &str) -> (r: Option<String>)
    ensures
        r is Some <==> json_string_member(text@, key@) is Some,
        r is Some ==> r->0@ == json_string_member(text@, key@)->0,
{
    match serde_json::from_str::<serde_json::Value>(text) {
        Ok(value) => value.get(key).and_then(serde_json::Value::as_str).map(String::from),
        Err(_) => None,
    }
}

/// Why a feed message gave no sample.
#[derive(Clone, Copy, Debug, PartialEq, Eq, Structural)]
pub enum SampleError {
    /// The message has no string price member.
    MissingPrice,
    /// The price member is no decimal that fits.
    InvalidPrice,
}

/// The sample a price member gives.
pub open spec fn sample_of(field: Option<Seq<char>>) -> Result<u64, SampleError> {
    match field {
        None => Err(SampleError::MissingPrice),
        Some(text) => match price_of_text(text) {
            Some(p) => Ok(p),
            None => Err(SampleError::InvalidPrice),
        },
    }
}

/// Reads a sample from the text of a price member, if there was one.
pub fn sample_from_field(field: Option<&str>) -> (r: Result<u64, SampleError>)
    ensures
        r == sample_of(
            match field {
                Some(t) => Some(t@),
                None => None,
            },
        ),
{
    match field {
        None => Err(SampleError::MissingPrice),
        Some(text) => match parse_price(text) {
            Some(p) => Ok(p),
            None => Err(SampleError::InvalidPrice),
        },
    }
}

/// Extracts the price sample (member `"p"`) from a feed message.
pub fn process_message(text: &str) -> (r: Result<u64, SampleError>)
    ensures
        r == sample_of(json_string_member(text@, "p"@)),
{
    let field = json_string_field(text, "p");
    match field {
        Some(s) => sample_from_field(Some(s.as_str())),
        None => sample_from_field(None),
    }
}

/// What waiting on the feed produced.
#[derive(Debug)]
pub enum FeedEvent {
    /// A text message arrived.
    Message(String),
    /// The wait ended without a message: the deadline passed, the feed
    /// closed, failed, or sent something that is not text.
    Ended,
}

/// A client's collection of samples over its time budget.
pub struct Collector {
    pub samples: Vec<u64>,
    pub collecting: bool,
}

impl Collector {
    pub fn new() -> (r: Collector)
        ensures
            r.samples@ == Seq::<u64>::empty(),
            r.collecting,
    {
        Collector { samples: Vec::new(), collecting: true }
    }

    /// Takes one feed event. A message adds its sample when it has one and is
    /// otherwise skipped; any other event ends the collection.
    pub fn on_event(&mut self, event: FeedEvent)
        requires
            old(self).collecting,
        ensures
            match event {
                FeedEvent::Message(text) => {
                    &&& final(self).collecting
                    &&& final(self).samples@ == match sample_of(
                        json_string_member(text@, "p"@),
                    ) {
                        Ok(p) => old(self).samples@.push(p),
                        Err(_) => old(self).samples@,
                    }
                },
                FeedEvent::Ended => {
                    &&& !final(self).collecting
                    &&& final(self).samples@ == old(self).samples@
                },
            },
    {
        match event {
            FeedEvent::Message(text) => {
                if let Ok(p) = process_message(text.as_str()) {
                    self.samples.push(p);
                }
            },
            FeedEvent::Ended => {
                self.collecting = false;
            },
        }
    }
}

/// A client's result over its window.
#[derive(Clone, Copy, Debug, PartialEq, Eq, Structural)]
pub struct LocalResult {
    pub client_id: usize,
    pub average: u64,
    pub sample_count: usize,
}

/// The unit sent to the aggregator: an average and the client's signature over
/// `canonical_bytes(client_id, average)`.
#[derive(Clone, Copy, Debug, PartialEq, Eq)]
pub struct SignedSubmission {
    pub client_id: usize,
    pub average: u64,
    pub signature: [u8; 64],
}

/// The local result of client `client_id` over `samples`; none without samples.
pub fn local_result(client_id: usize, samples: &[u64]) -> (r: Option<LocalResult>)
    ensures
        r is None <==> samples@.len() == 0,
        r is Some ==> r->0.client_id == client_id && r->0.average == mean_of(samples@)->0
            && r->0.sample_count == samples@.len(),
{
    match calculate_average(samples) {
        Some(average) => Some(LocalResult { client_id, average, sample_count: samples.len() }),
        None => None,
    }
}

/// Signs `average` as the client `identity.id`.
pub fn sign_submission(identity: &ClientIdentity, average: u64) -> (r: SignedSubmission)
    ensures
        r.client_id == identity.id,
        r.average == average,
        r.signature@ == ed25519_signature(
            identity.signing_key@,
            canonical_bytes(identity.id as nat, average as nat),
        ),
        identity.wf() ==> ed25519_accepts(
            identity.verifying_key@,
            canonical_bytes(identity.id as nat, average as nat),
            r.signature@,
        ),
{
    let message = canonical_message(identity.id, average);
    let signature = sign_bytes(&identity.signing_key, message.as_slice());
    SignedSubmission { client_id: identity.id, average, signature }
}

/// Ends a client's run: with samples, its local result and the signed
/// submission of its average; without, nothing to send.
pub fn finish_client(identity: &ClientIdentity, samples: &[u64]) -> (r: Option<(LocalResult, SignedSubmission)>)
    ensures
        match r {
            None => samples@.len() == 0,
            Some((local, sub)) => {
                &&& samples@.len() > 0
                &&& local.client_id == identity.id
                &&& local.average == mean_of(samples@)->0
                &&& local.sample_count == samples@.len()
                &&& sub.client_id == identity.id
                &&& sub.average == local.average
                &&& sub.signature@ == ed25519_signature(
                    identity.signing_key@,
                    canonical_bytes(identity.id as nat, local.average as nat),
                )
            },
        },
{
    let result = local_result(identity.id, samples);
    match result {
        Some(local) => {
            Some((local, sign_submission(identity, local.average)))
        },
        None => None,
    }
}

} // verus!
