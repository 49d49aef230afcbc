use multi_client_signature::aggregator::{Aggregator, AggregatorEvent, Verdict};
use multi_client_signature::client::{
    finish_client, local_result, process_message, sample_from_field, sign_submission, Collector,
    FeedEvent, SampleError, SignedSubmission,
};
use multi_client_signature::deadline::{collection_deadline, remaining_secs, within_budget};
use multi_client_signature::identity::{generate_keypairs, verifying_keys, ClientIdentity};
use multi_client_signature::message::canonical_message;
use multi_client_signature::price::{calculate_average, parse_price, UNITS_PER_WHOLE};

fn whole(n: u64) -> u64 {
    n * UNITS_PER_WHOLE
}

fn roster(n: usize) -> (Vec<ClientIdentity>, Aggregator) {
    let ids = generate_keypairs(n);
    let agg = Aggregator::new(verifying_keys(&ids));
    (ids, agg)
}

#[test]
fn three_honest_clients_reach_global_average() {
    let (ids, mut agg) = roster(3);
    let avgs = [whole(100), whole(102), whole(101)];
    for (i, id) in ids.iter().enumerate() {
        assert!(agg.is_collecting());
        let sub = sign_submission(id, avgs[i]);
        assert_eq!(agg.handle(AggregatorEvent::Submission(sub)), Some(Verdict::Accepted));
    }
    // all three counted: collection ends before any deadline
    assert!(!agg.is_collecting());
    assert_eq!(agg.verified_count(), 3);
    let result = agg.global_result().unwrap();
    assert_eq!(result.global_average, whole(101));
    assert_eq!(result.per_client_averages, avgs.to_vec());
}

#[test]
fn tampered_average_is_rejected_and_excluded() {
    let (ids, mut agg) = roster(3);
    let s1 = sign_submission(&ids[0], whole(100));
    let mut s2 = sign_submission(&ids[1], whole(102));
    s2.average = whole(999);
    let s3 = sign_submission(&ids[2], whole(101));
    assert_eq!(agg.receive(&s1), Verdict::Accepted);
    assert_eq!(agg.receive(&s2), Verdict::BadSignature);
    assert_eq!(agg.receive(&s3), Verdict::Accepted);
    assert!(agg.is_collecting());
    assert_eq!(agg.handle(AggregatorEvent::TimedOut), None);
    assert!(!agg.is_collecting());
    let result = agg.global_result().unwrap();
    assert_eq!(result.per_client_averages, vec![whole(100), whole(101)]);
    assert_eq!(result.global_average, 100 * UNITS_PER_WHOLE + UNITS_PER_WHOLE / 2);
}

#[test]
fn tampered_id_or_signature_is_rejected() {
    let (ids, mut agg) = roster(3);
    let mut moved = sign_submission(&ids[0], whole(100));
    moved.client_id = 2;
    assert_eq!(agg.receive(&moved), Verdict::BadSignature);
    let mut flipped = sign_submission(&ids[0], whole(100));
    flipped.signature[5] ^= 1;
    assert_eq!(agg.receive(&flipped), Verdict::BadSignature);
    let signed_by_other = SignedSubmission {
        client_id: 1,
        average: whole(100),
        signature: sign_submission(&ids[1], whole(100)).signature,
    };
    assert_eq!(agg.receive(&signed_by_other), Verdict::BadSignature);
    assert_eq!(agg.verified_count(), 0);
    assert!(agg.global_result().is_none());
}

#[test]
fn client_without_samples_sends_nothing_and_aggregator_times_out() {
    let (ids, mut agg) = roster(3);
    let mut silent = Collector::new();
    silent.on_event(FeedEvent::Ended);
    assert!(!silent.collecting);
    assert!(finish_client(&ids[2], &silent.samples).is_none());
    for (i, id) in ids.iter().take(2).enumerate() {
        let samples = vec![whole(10 + i as u64), whole(12 + i as u64)];
        let (local, sub) = finish_client(id, &samples).unwrap();
        assert_eq!(local.sample_count, 2);
        assert_eq!(local.average, whole(11 + i as u64));
        assert_eq!(agg.receive(&sub), Verdict::Accepted);
    }
    assert!(agg.is_collecting());
    agg.handle(AggregatorEvent::TimedOut);
    let result = agg.global_result().unwrap();
    assert_eq!(result.per_client_averages, vec![whole(11), whole(12)]);
    assert_eq!(result.global_average, 11 * UNITS_PER_WHOLE + UNITS_PER_WHOLE / 2);
}

#[test]
fn no_valid_submission_gives_no_result() {
    let (ids, mut agg) = roster(2);
    let mut bad = sign_submission(&ids[0], whole(5));
    bad.average = whole(6);
    assert_eq!(agg.receive(&bad), Verdict::BadSignature);
    agg.handle(AggregatorEvent::Closed);
    assert!(!agg.is_collecting());
    assert!(agg.global_result().is_none());
}

#[test]
fn off_roster_ids_are_unknown() {
    let (ids, mut agg) = roster(3);
    let mut zero = sign_submission(&ids[0], whole(1));
    zero.client_id = 0;
    assert_eq!(agg.receive(&zero), Verdict::UnknownClient);
    let mut four = sign_submission(&ids[0], whole(1));
    four.client_id = 4;
    assert_eq!(agg.receive(&four), Verdict::UnknownClient);
    // an out-of-roster id is rejected whatever the check would say
    assert_eq!(agg.record(&four, true), Verdict::UnknownClient);
    assert_eq!(agg.verified_count(), 0);
}

#[test]
fn replayed_submission_is_counted_once() {
    let (ids, mut agg) = roster(2);
    let sub = sign_submission(&ids[0], whole(7));
    assert_eq!(agg.receive(&sub), Verdict::Accepted);
    assert_eq!(agg.receive(&sub), Verdict::Duplicate);
    assert_eq!(agg.verified_count(), 1);
    assert!(agg.is_collecting());
}

#[test]
fn record_follows_given_signature_result() {
    let (_, mut agg) = roster(2);
    let sub = SignedSubmission { client_id: 2, average: 3, signature: [0u8; 64] };
    assert_eq!(agg.record(&sub, false), Verdict::BadSignature);
    assert_eq!(agg.record(&sub, true), Verdict::Accepted);
    assert_eq!(agg.record(&sub, true), Verdict::Duplicate);
    assert_eq!(agg.global_result().unwrap().global_average, 3);
}

#[test]
fn averaging_is_exact_and_repeatable() {
    assert_eq!(calculate_average(&[]), None);
    assert_eq!(calculate_average(&[7]), Some(7));
    assert_eq!(calculate_average(&[1, 2]), Some(1));
    assert_eq!(calculate_average(&[u64::MAX, u64::MAX]), Some(u64::MAX));
    let a = [whole(100), whole(102), whole(101)];
    assert_eq!(calculate_average(&a), Some(whole(101)));
    assert_eq!(calculate_average(&a), calculate_average(&a));
}

#[test]
fn prices_parse_as_fixed_point() {
    assert_eq!(parse_price("42123.45000000"), Some(4_212_345_000_000));
    assert_eq!(parse_price("7"), Some(whole(7)));
    assert_eq!(parse_price("0.5"), Some(UNITS_PER_WHOLE / 2));
    assert_eq!(parse_price("1."), Some(whole(1)));
    assert_eq!(parse_price("0.00000001"), Some(1));
    assert_eq!(parse_price("0.000000001"), None);
    assert_eq!(parse_price(""), None);
    assert_eq!(parse_price(".5"), None);
    assert_eq!(parse_price("1.2.3"), None);
    assert_eq!(parse_price("-1"), None);
    assert_eq!(parse_price("12a"), None);
    assert_eq!(parse_price("184467440737.09551615"), Some(u64::MAX));
    assert_eq!(parse_price("184467440737.09551616"), None);
    assert_eq!(parse_price("99999999999999999999999"), None);
}

#[test]
fn feed_messages_give_samples() {
    assert_eq!(process_message(r#"{"e":"trade","p":"42123.45000000","q":"0.1"}"#), Ok(4_212_345_000_000));
    assert_eq!(process_message(r#"{"e":"trade"}"#), Err(SampleError::MissingPrice));
    assert_eq!(process_message(r#"{"p":42123.45}"#), Err(SampleError::MissingPrice));
    assert_eq!(process_message("not json"), Err(SampleError::MissingPrice));
    assert_eq!(process_message(r#"{"p":"abc"}"#), Err(SampleError::InvalidPrice));
    assert_eq!(sample_from_field(Some("2.5")), Ok(250_000_000));
    assert_eq!(sample_from_field(None), Err(SampleError::MissingPrice));
}

#[test]
fn collector_skips_bad_messages_and_stops_on_end() {
    let mut c = Collector::new();
    c.on_event(FeedEvent::Message(r#"{"p":"100.0"}"#.to_string()));
    c.on_event(FeedEvent::Message("garbage".to_string()));
    c.on_event(FeedEvent::Message(r#"{"p":"102"}"#.to_string()));
    assert!(c.collecting);
    assert_eq!(c.samples, vec![whole(100), whole(102)]);
    c.on_event(FeedEvent::Ended);
    assert!(!c.collecting);
    let local = local_result(4, &c.samples).unwrap();
    assert_eq!(local.client_id, 4);
    assert_eq!(local.average, whole(101));
    assert_eq!(local.sample_count, 2);
    assert!(local_result(4, &[]).is_none());
}

#[test]
fn canonical_message_matches_float_text() {
    assert_eq!(canonical_message(1, whole(100)), b"1:100".to_vec());
    assert_eq!(canonical_message(2, 10_050_000_000), b"2:100.5".to_vec());
    assert_eq!(canonical_message(12, 4_212_345_000_000), b"12:42123.45".to_vec());
    assert_eq!(canonical_message(3, 1), b"3:0.00000001".to_vec());
    assert_eq!(canonical_message(0, 0), b"0:0".to_vec());
}

#[test]
fn identities_are_numbered_with_derived_keys() {
    let ids = generate_keypairs(4);
    assert_eq!(ids.len(), 4);
    for (i, id) in ids.iter().enumerate() {
        assert_eq!(id.id, i + 1);
        assert_ne!(id.verifying_key, id.signing_key);
        assert_eq!(ClientIdentity::from_secret(id.id, id.signing_key).verifying_key, id.verifying_key);
    }
    assert_ne!(ids[0].signing_key, ids[1].signing_key);
    let keys = verifying_keys(&ids);
    assert_eq!(keys[3], ids[3].verifying_key);
    assert!(generate_keypairs(0).is_empty());
}

#[test]
fn signatures_are_deterministic_and_bound_to_message() {
    let id = ClientIdentity::from_secret(1, [7u8; 32]);
    let a = sign_submission(&id, whole(100));
    let b = sign_submission(&id, whole(100));
    let c = sign_submission(&id, whole(101));
    assert_eq!(a.signature, b.signature);
    assert_ne!(a.signature, c.signature);
    assert_ne!(a.signature, [0u8; 64]);
}

#[test]
fn deadlines_are_absolute_and_never_negative() {
    assert_eq!(collection_deadline(1), 6);
    assert_eq!(collection_deadline(u64::MAX), u64::MAX);
    assert_eq!(remaining_secs(6, 2), 4);
    assert_eq!(remaining_secs(6, 9), 0);
    assert!(within_budget(6, 5));
    assert!(!within_budget(6, 6));
}

#[test]
fn empty_roster_accepts_nothing() {
    let mut agg = Aggregator::new(Vec::new());
    assert_eq!(agg.client_count(), 0);
    let sub = SignedSubmission { client_id: 1, average: 1, signature: [0u8; 64] };
    assert_eq!(agg.receive(&sub), Verdict::UnknownClient);
    assert!(agg.global_result().is_none());
}
