use capture_rpc::capture::{
    sample_bits, CaptureAction, CaptureEvent, CapturePhase, CaptureSession,
};
use capture_rpc::sizing::block_count;

#[test]
fn block_count_floor_division() {
    assert_eq!(block_count("100", "30"), Some(3));
    assert_eq!(block_count("90", "30"), Some(3));
    assert_eq!(block_count("89", "30"), Some(2));
    assert_eq!(block_count("0", "30"), Some(0));
    assert_eq!(block_count("100.5", "30"), Some(3));
    assert_eq!(block_count("12.5", "2.5"), Some(5));
    assert_eq!(block_count("+100", "30"), Some(3));
}

#[test]
fn block_count_rejects_bad_sizing() {
    assert_eq!(block_count("100", "0"), None);
    assert_eq!(block_count("100", "0.0"), None);
    assert_eq!(block_count("abc", "30"), None);
    assert_eq!(block_count("100", ""), None);
    assert_eq!(block_count("-5", "30"), None);
    assert_eq!(block_count("100", "-30"), None);
    assert_eq!(block_count("1e3", "30"), None);
}

#[test]
fn capture_sequence_fetches_inclusive_range() {
    // size 100, block size 30 => count 3, blocks 0..=3 fetched: 4 calls
    let mut s = CaptureSession::new();
    assert_eq!(s.step(CaptureEvent::Begin), CaptureAction::CallTrigger);
    assert_eq!(
        s.step(CaptureEvent::TriggerDone(true)),
        CaptureAction::CallSize
    );
    assert_eq!(
        s.step(CaptureEvent::SizeReply(Some("100".to_string()))),
        CaptureAction::CallBlockSize
    );
    assert_eq!(
        s.step(CaptureEvent::BlockSizeReply(Some("30".to_string()))),
        CaptureAction::CallBlock(0)
    );
    assert_eq!(s.block_count, 3);
    let mut calls = vec![0];
    loop {
        match s.step(CaptureEvent::BlockReply(Some(vec![1, 2]))) {
            CaptureAction::CallBlock(i) => calls.push(i),
            CaptureAction::Deliver => break,
            other => panic!("unexpected action {:?}", other),
        }
    }
    assert_eq!(calls, vec![0, 1, 2, 3]);
    assert_eq!(s.phase, CapturePhase::Done);
    assert_eq!(s.accumulated, vec![1, 2, 1, 2, 1, 2, 1, 2]);
}

#[test]
fn capture_tolerates_trigger_failure() {
    let mut s = CaptureSession::new();
    assert_eq!(s.step(CaptureEvent::Begin), CaptureAction::CallTrigger);
    // a failed trigger still proceeds to sizing
    assert_eq!(
        s.step(CaptureEvent::TriggerDone(false)),
        CaptureAction::CallSize
    );
    assert_eq!(s.phase, CapturePhase::WaitSize);
}

#[test]
fn capture_size_failure_yields_empty_result() {
    let mut s = CaptureSession::new();
    s.step(CaptureEvent::Begin);
    s.step(CaptureEvent::TriggerDone(true));
    // transport failure during the size query: zero blocks, empty result
    assert_eq!(
        s.step(CaptureEvent::SizeReply(None)),
        CaptureAction::Deliver
    );
    assert_eq!(s.phase, CapturePhase::Done);
    assert_eq!(s.block_count, 0);
    assert!(s.accumulated.is_empty());
}

#[test]
fn capture_blocksize_failure_yields_empty_result() {
    let mut s = CaptureSession::new();
    s.step(CaptureEvent::Begin);
    s.step(CaptureEvent::TriggerDone(true));
    s.step(CaptureEvent::SizeReply(Some("100".to_string())));
    assert_eq!(
        s.step(CaptureEvent::BlockSizeReply(None)),
        CaptureAction::Deliver
    );
    assert_eq!(s.phase, CapturePhase::Done);
    assert_eq!(s.block_count, 0);
    assert!(s.accumulated.is_empty());
}

#[test]
fn capture_unparseable_sizing_yields_empty_result() {
    let mut s = CaptureSession::new();
    s.step(CaptureEvent::Begin);
    s.step(CaptureEvent::TriggerDone(true));
    s.step(CaptureEvent::SizeReply(Some("garbage".to_string())));
    assert_eq!(
        s.step(CaptureEvent::BlockSizeReply(Some("30".to_string()))),
        CaptureAction::Deliver
    );
    assert_eq!(s.phase, CapturePhase::Done);
    assert!(s.accumulated.is_empty());
}

#[test]
fn capture_fetch_failure_discards_bytes() {
    let mut s = CaptureSession::new();
    s.step(CaptureEvent::Begin);
    s.step(CaptureEvent::TriggerDone(true));
    s.step(CaptureEvent::SizeReply(Some("100".to_string())));
    s.step(CaptureEvent::BlockSizeReply(Some("30".to_string())));
    s.step(CaptureEvent::BlockReply(Some(vec![9, 9, 9])));
    assert_eq!(
        s.step(CaptureEvent::BlockReply(None)),
        CaptureAction::Discard
    );
    assert_eq!(s.phase, CapturePhase::Failed);
    assert!(s.accumulated.is_empty());
}

#[test]
fn capture_ignores_out_of_phase_events() {
    let mut s = CaptureSession::new();
    assert_eq!(
        s.step(CaptureEvent::BlockReply(Some(vec![1]))),
        CaptureAction::Ignore
    );
    assert_eq!(s.phase, CapturePhase::Idle);
    assert_eq!(s.step(CaptureEvent::Begin), CaptureAction::CallTrigger);
    assert_eq!(s.step(CaptureEvent::Begin), CaptureAction::Ignore);
}

#[test]
fn reassembly_decodes_floats_and_drops_remainder() {
    let bytes = [0u8, 0, 128, 63, 0, 0, 0, 64, 1, 2];
    let words = sample_bits(&bytes);
    assert_eq!(words.len(), 2);
    let floats: Vec<f32> = words.iter().map(|w| f32::from_bits(*w)).collect();
    assert_eq!(floats, vec![1.0f32, 2.0f32]);
    assert!(sample_bits(&[1, 2, 3]).is_empty());
    assert!(sample_bits(&[]).is_empty());
}

#[test]
fn reassembly_matches_le_byte_order() {
    let v = 3.25f32;
    let mut bytes = v.to_le_bytes().to_vec();
    bytes.extend_from_slice(&7.5f32.to_le_bytes());
    let words = sample_bits(&bytes);
    assert_eq!(f32::from_bits(words[0]), 3.25);
    assert_eq!(f32::from_bits(words[1]), 7.5);
}
