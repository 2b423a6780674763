use external_buffer::engine::consumer_on_doorbell;
use external_buffer::engine::consumer_on_shift;
use external_buffer::engine::consumer_poll;
use external_buffer::engine::drain_after_push;
use external_buffer::engine::drain_on_source;
use external_buffer::engine::ConsumerAction;
use external_buffer::engine::ConsumerMode;
use external_buffer::engine::ConsumerStep;
use external_buffer::engine::DoorbellOutcome;
use external_buffer::engine::DrainAction;
use external_buffer::engine::ShiftOutcome;
use external_buffer::engine::SourceOutcome;
use external_buffer::Error;
use external_buffer::ExternalBuffer;
use external_buffer::ExternalBufferSled;
use tempfile::TempDir;

/// Drive the consumer state machine against a buffer and a modeled
/// doorbell that has `rings` pending signals and whose sender is gone.
fn run_consumer(buffer: &mut ExternalBufferSled, mut rings: u32, stop: bool) -> Vec<i32> {
    let mut mode = ConsumerMode::Waiting { drained: false };
    let mut yielded: Vec<i32> = Vec::new();
    loop {
        match consumer_poll(&mode, stop) {
            ConsumerStep::End => break,
            ConsumerStep::PollShift => {
                let outcome = match buffer.shift() {
                    Ok(Some(x)) => ShiftOutcome::Item(x),
                    Ok(None) => ShiftOutcome::Empty,
                    Err(e) => ShiftOutcome::Failed(e),
                };
                let (m, act) = consumer_on_shift(outcome);
                mode = m;
                match act {
                    ConsumerAction::Yield(x) => yielded.push(x),
                    ConsumerAction::Continue => {},
                    ConsumerAction::End => break,
                    ConsumerAction::StartShift => unreachable!(),
                }
            },
            ConsumerStep::PollDoorbell => {
                let outcome = if rings > 0 {
                    rings -= 1;
                    DoorbellOutcome::Rung
                } else {
                    DoorbellOutcome::SenderGone
                };
                let (m, act) = consumer_on_doorbell::<i32>(outcome);
                mode = m;
                match act {
                    ConsumerAction::StartShift => {},
                    ConsumerAction::End => break,
                    _ => unreachable!(),
                }
            },
        }
    }
    yielded
}

#[test]
fn test_drain_then_stop_sequence() {
    let temp_dir = TempDir::new().unwrap();
    let db_path = temp_dir.path().join("engine_db");

    // The drain flow pushes the source items 1..=10, ringing per push,
    // then finishes: it sets the stop flag and rings one final time.
    let mut buffer = ExternalBufferSled::new(db_path.to_str().unwrap()).unwrap();
    let mut rings: u32 = 0;
    for i in 1..=10i32 {
        assert_eq!(drain_on_source(&SourceOutcome::Item(i)), DrainAction::PushItem);
        let r = buffer.push(i);
        assert!(drain_after_push(&r));
        rings += 1;
    }
    assert_eq!(drain_on_source(&SourceOutcome::Exhausted::<i32>), DrainAction::Finish);
    rings += 1;
    let stop = true;

    // The consumer yields exactly 1..=10 in order, then ends.
    let yielded = run_consumer(&mut buffer, rings, stop);
    assert_eq!(yielded, (1..=10).collect::<Vec<i32>>());
    drop(buffer);

    // Reopening the same directory against an empty source yields an
    // immediate terminal end with no residual items.
    let mut buffer = ExternalBufferSled::new(db_path.to_str().unwrap()).unwrap();
    assert_eq!(drain_on_source(&SourceOutcome::Exhausted::<i32>), DrainAction::Finish);
    let yielded = run_consumer(&mut buffer, 1, true);
    assert_eq!(yielded, Vec::<i32>::new());
}

#[test]
fn test_consumer_faster_than_producer() {
    let temp_dir = TempDir::new().unwrap();
    let db_path = temp_dir.path().join("interleaved_engine_db");
    let mut buffer = ExternalBufferSled::new(db_path.to_str().unwrap()).unwrap();

    let mut mode = ConsumerMode::Waiting { drained: false };
    let mut rings: u32 = 0;
    let mut stop = false;
    let mut yielded: Vec<i32> = Vec::new();

    // Run the consumer until it ends or would block on an empty doorbell.
    let mut run_until_blocked = |buffer: &mut ExternalBufferSled,
                                 mode: &mut ConsumerMode,
                                 rings: &mut u32,
                                 stop: bool,
                                 yielded: &mut Vec<i32>|
     -> bool {
        loop {
            match consumer_poll(mode, stop) {
                ConsumerStep::End => return true,
                ConsumerStep::PollShift => {
                    let outcome = match buffer.shift() {
                        Ok(Some(x)) => ShiftOutcome::Item(x),
                        Ok(None) => ShiftOutcome::Empty,
                        Err(e) => ShiftOutcome::Failed(e),
                    };
                    let (m, act) = consumer_on_shift(outcome);
                    *mode = m;
                    match act {
                        ConsumerAction::Yield(x) => yielded.push(x),
                        ConsumerAction::Continue => {},
                        ConsumerAction::End => return true,
                        ConsumerAction::StartShift => unreachable!(),
                    }
                },
                ConsumerStep::PollDoorbell => {
                    if *rings == 0 {
                        // the consumer suspends on the doorbell
                        return false;
                    }
                    *rings -= 1;
                    let (m, act) = consumer_on_doorbell::<i32>(DoorbellOutcome::Rung);
                    *mode = m;
                    assert!(matches!(act, ConsumerAction::StartShift));
                },
            }
        }
    };

    // The consumer drains each item as soon as its ring arrives.
    for i in 1..=10i32 {
        buffer.push(i).unwrap();
        rings += 1;
        let ended = run_until_blocked(&mut buffer, &mut mode, &mut rings, stop, &mut yielded);
        assert!(!ended);
        assert_eq!(yielded.last(), Some(&i));
    }

    // The producer finishes: stop flag, one final ring.
    stop = true;
    rings += 1;
    let ended = run_until_blocked(&mut buffer, &mut mode, &mut rings, stop, &mut yielded);
    assert!(ended);
    assert_eq!(yielded, (1..=10).collect::<Vec<i32>>());
}

#[test]
fn test_consumer_ends_only_when_stopped_and_drained() {
    assert_eq!(
        consumer_poll(&ConsumerMode::Waiting { drained: false }, true),
        ConsumerStep::PollDoorbell
    );
    assert_eq!(
        consumer_poll(&ConsumerMode::Waiting { drained: true }, false),
        ConsumerStep::PollDoorbell
    );
    assert_eq!(consumer_poll(&ConsumerMode::Waiting { drained: true }, true), ConsumerStep::End);
    assert_eq!(consumer_poll(&ConsumerMode::Shifting, true), ConsumerStep::PollShift);
    assert_eq!(consumer_poll(&ConsumerMode::Done, false), ConsumerStep::End);
}

#[test]
fn test_consumer_ends_cleanly_on_shift_failure() {
    let (mode, act) = consumer_on_shift::<i32>(ShiftOutcome::Failed(Error::MutexError));
    assert_eq!(mode, ConsumerMode::Done);
    assert!(matches!(act, ConsumerAction::End));
}

#[test]
fn test_drain_stops_early_on_push_failure() {
    assert!(!drain_after_push(&Err(Error::MutexError)));
    assert!(drain_after_push(&Ok(())));
}

#[test]
fn test_consumer_ends_when_sender_gone() {
    let (mode, act) = consumer_on_doorbell::<i32>(DoorbellOutcome::SenderGone);
    assert_eq!(mode, ConsumerMode::Done);
    assert!(matches!(act, ConsumerAction::End));
    let (mode, act) = consumer_on_doorbell::<i32>(DoorbellOutcome::Rung);
    assert_eq!(mode, ConsumerMode::Shifting);
    assert!(matches!(act, ConsumerAction::StartShift));
}
