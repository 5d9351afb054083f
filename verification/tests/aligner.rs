use copper_sched::aligner::extract_tov_time_left;
use copper_sched::aligner::extract_tov_time_right;
use copper_sched::aligner::AlignerConfig;
use copper_sched::aligner::AlignerTask;
use copper_sched::aligner::AlignmentBuffers;
use copper_sched::aligner::CuStampedData;
use copper_sched::aligner::CuTimeRange;
use copper_sched::aligner::TimeboundCircularBuffer;
use copper_sched::aligner::Tov;
use copper_sched::aligner::MAX_MSG_SNAPSHOT_BYTES;
use copper_sched::varint::SnapshotError;

const SEC: u64 = 1_000_000_000;
const MILLI: u64 = 1_000_000;

fn msg(payload: Option<&[u8]>, tov: Tov) -> CuStampedData {
    CuStampedData { payload: payload.map(|bytes| bytes.to_vec()), tov, metadata: vec![] }
}

fn number(payload: u32, secs: u64) -> CuStampedData {
    msg(Some(&payload.to_le_bytes()), Tov::Time(secs * SEC))
}

fn number_of(msg: &CuStampedData) -> u32 {
    let bytes: [u8; 4] = msg.payload.as_ref().unwrap().as_slice().try_into().unwrap();
    u32::from_le_bytes(bytes)
}

type Wire = (Option<Vec<u8>>, u8, u64, u64, Vec<u8>);

fn encode(msg: &CuStampedData) -> Result<Vec<u8>, SnapshotError> {
    let (tag, start, end) = match msg.tov {
        Tov::Untimed => (0, 0, 0),
        Tov::Time(time) => (1, time, 0),
        Tov::Range(range) => (2, range.start, range.end),
    };
    let wire: Wire = (msg.payload.clone(), tag, start, end, msg.metadata.clone());
    Ok(bincode::encode_to_vec(wire, bincode::config::standard()).unwrap())
}

fn decode(bytes: &Vec<u8>) -> Result<(CuStampedData, usize), SnapshotError> {
    let ((payload, tag, start, end, metadata), n): (Wire, usize) =
        bincode::decode_from_slice(bytes, bincode::config::standard())
            .map_err(|_| SnapshotError::Other("unreadable message".to_string()))?;
    let tov = match tag {
        0 => Tov::Untimed,
        1 => Tov::Time(start),
        _ => Tov::Range(CuTimeRange { start, end }),
    };
    Ok((CuStampedData { payload, tov, metadata }, n))
}

/// A corrupted snapshot must be rejected, not turned into a multi-gigabyte
/// allocation.
#[test]
fn thaw_rejects_a_bogus_message_length() {
    let config = bincode::config::standard();

    // A length past the per-message cap is rejected before anything is read.
    let bytes = bincode::encode_to_vec((1u64, 5_000_000_000u64), config).unwrap();
    let Err(err) = TimeboundCircularBuffer::new(4).thaw(&bytes, 0, &decode) else {
        panic!("a snapshot claiming 5 GB must be rejected");
    };
    assert!(
        matches!(err, SnapshotError::LimitExceeded),
        "expected the per-message cap to reject it, got {err:?}"
    );

    // A length under the cap that the stream cannot satisfy fails on
    // end-of-input, having allocated only what actually arrived.
    let bytes = bincode::encode_to_vec((1u64, 64_000_000u64), config).unwrap();
    let Err(err) = TimeboundCircularBuffer::new(4).thaw(&bytes, 0, &decode) else {
        panic!("a snapshot promising 64 MB of absent bytes must be rejected");
    };
    assert!(
        matches!(err, SnapshotError::UnexpectedEnd),
        "expected an end-of-input error, got {err:?}"
    );
}

/// The chunked read must still round-trip an honest snapshot byte for byte.
#[test]
fn freeze_thaw_round_trips() {
    let mut buffer = TimeboundCircularBuffer::new(4);
    for (i, payload) in [11u32, 22, 33].into_iter().enumerate() {
        buffer.push(number(payload, i as u64 + 1));
    }

    let bytes = buffer.freeze(&encode).unwrap();
    let mut restored = TimeboundCircularBuffer::new(4);
    assert_eq!(restored.thaw(&bytes, 0, &decode), Ok(bytes.len()));

    assert_eq!(restored.len(), buffer.len());
    for i in 0..buffer.len() {
        let (a, b) = (restored.get(i).unwrap(), buffer.get(i).unwrap());
        assert_eq!(a.payload, b.payload);
        assert_eq!(a.tov, b.tov);
    }
}

/// Lengths of every width are written as `bincode` writes them.
#[test]
fn snapshots_have_the_layout_of_byte_vectors() {
    for size in [0usize, 240, 251, 300, 70_000] {
        let mut buffer = TimeboundCircularBuffer::new(2);
        buffer.push(msg(Some(&vec![7u8; size]), Tov::Range(CuTimeRange { start: 3, end: u64::MAX })));
        let one = encode(buffer.get(0).unwrap()).unwrap();
        let expected = bincode::encode_to_vec((1u64, one), bincode::config::standard()).unwrap();
        let bytes = buffer.freeze(&encode).unwrap();
        assert_eq!(bytes, expected);

        let mut shifted = vec![9u8, 9, 9];
        shifted.extend(&bytes);
        let mut restored = TimeboundCircularBuffer::new(2);
        assert_eq!(restored.thaw(&shifted, 3, &decode), Ok(shifted.len()));
        assert_eq!(restored.get(0), buffer.get(0));
    }
}

#[test]
fn thaw_tells_what_is_wrong() {
    let mut buffer = TimeboundCircularBuffer::new(2);
    buffer.push(number(1, 1));
    assert_eq!(buffer.thaw(&vec![], 0, &decode), Err(SnapshotError::UnexpectedEnd));
    assert_eq!(buffer.thaw(&vec![251, 1], 0, &decode), Err(SnapshotError::UnexpectedEnd));
    assert_eq!(buffer.thaw(&vec![255], 0, &decode), Err(SnapshotError::InvalidInteger));
    assert_eq!(
        buffer.thaw(&vec![3], 0, &decode),
        Err(SnapshotError::ArrayLengthMismatch { required: 2, found: 3 })
    );
    // None of these touched the buffer.
    assert_eq!(buffer.len(), 1);

    let mut trailing = encode(&number(1, 1)).unwrap();
    trailing.push(0);
    let bytes = bincode::encode_to_vec((1u64, trailing), bincode::config::standard()).unwrap();
    assert_eq!(
        buffer.thaw(&bytes, 0, &decode),
        Err(SnapshotError::Other("alignment buffer message snapshot had trailing bytes".to_string()))
    );
    // What could be read before the fault stays.
    assert_eq!(buffer.len(), 0);
}

#[test]
fn freeze_refuses_messages_that_could_not_be_read_back() {
    let mut buffer = TimeboundCircularBuffer::new(1);
    buffer.push(number(1, 1));
    let huge = |_: &CuStampedData| Ok(vec![0u8; MAX_MSG_SNAPSHOT_BYTES + 1]);
    assert_eq!(
        buffer.freeze(&huge),
        Err(SnapshotError::Other("alignment buffer message is too large to snapshot".to_string()))
    );
}

#[test]
fn simple_init_test() {
    let buffers = AlignmentBuffers::new(SEC, 2 * SEC, &vec![10, 12]);
    assert_eq!(buffers.capacity(0), 10);
    assert_eq!(buffers.capacity(1), 12);
}

#[test]
fn purge_test() {
    let mut buffers = AlignmentBuffers::new(SEC, 2 * SEC, &vec![10, 12]);

    buffers.push(0, number(1, 1));
    buffers.push(1, number(1, 1));
    // within the horizon
    buffers.purge(2 * SEC);
    assert_eq!(buffers.len(0), 1);
    assert_eq!(buffers.len(1), 1);
    // outside the horizon
    buffers.purge(5 * SEC);
    assert_eq!(buffers.len(0), 0);
    assert_eq!(buffers.len(1), 0);
}

#[test]
fn empty_buffers_test() {
    // 2-second alignment window, 5-second stale data horizon
    let buffers = AlignmentBuffers::new(2 * SEC, 5 * SEC, &vec![10, 12]);
    assert!(buffers.get_latest_aligned_data().is_none());
}

#[test]
fn horizon_and_window_alignment_test() {
    // 2-second alignment window, 5-second stale data horizon
    let mut buffers = AlignmentBuffers::new(2 * SEC, 5 * SEC, &vec![10, 12]);

    buffers.push(0, number(1, 1));
    buffers.push(1, number(1, 1));
    buffers.push(1, number(3, 3));
    buffers.push(0, number(4, 4));
    buffers.push(1, number(4, 4));

    // Advance time to 7 seconds; horizon is 7 - 5 = everything 2+ should stay
    buffers.purge(7 * SEC);
    assert!(buffers.has_window());
    if let Some(collected) = buffers.get_latest_aligned_data() {
        assert_eq!(collected[0].len(), 1);
        assert_eq!(collected[1].len(), 2);

        assert_eq!(number_of(collected[0][0]), 4);
        assert_eq!(number_of(collected[1][0]), 3);
        assert_eq!(number_of(collected[1][1]), 4);
    } else {
        panic!("Expected aligned data, but got None");
    }

    // Ensure older messages outside the horizon [>2 seconds] are purged
    assert_eq!(buffers.len(0), 1);
    assert_eq!(buffers.len(1), 2);
}

#[test]
fn full_buffers_forget_the_oldest_message() {
    let mut buffer = TimeboundCircularBuffer::new(2);
    for i in 1..=3 {
        buffer.push(number(i, i as u64));
    }
    assert_eq!((buffer.len(), buffer.capacity()), (2, 2));
    assert_eq!(number_of(buffer.get(0).unwrap()), 2);
    assert_eq!(number_of(buffer.get(1).unwrap()), 3);
    assert_eq!(buffer.get(2), None);
    let mut nothing = TimeboundCircularBuffer::new(0);
    nothing.push(number(1, 1));
    assert_eq!(nothing.len(), 0);
}

#[test]
fn windows_keep_ranges_that_lie_inside() {
    let range = |start: u64, end: u64| Tov::Range(CuTimeRange { start, end });
    let mut buffer = TimeboundCircularBuffer::new(5);
    buffer.push(msg(None, range(1, 6)));
    buffer.push(msg(None, Tov::Time(5)));
    buffer.push(msg(None, range(5, 9)));
    buffer.push(msg(None, range(8, 12)));
    assert_eq!(buffer.most_recent_time().unwrap(), Some(12));
    let inside: Vec<Tov> = buffer.iter_window(5, 9).iter().map(|m| m.tov).collect();
    assert_eq!(inside, [Tov::Time(5), range(5, 9)]);
    // A message is kept while its end reaches the horizon.
    buffer.purge(7);
    assert_eq!(buffer.len(), 2);
    assert_eq!(buffer.get(0).unwrap().tov, range(5, 9));
    buffer.push(msg(None, Tov::Untimed));
    assert_eq!(
        buffer.most_recent_time().unwrap_err().to_string(),
        "Trying to align temporal data with no time information"
    );
    assert_eq!(extract_tov_time_left(&range(3, 4)), Some(3));
    assert_eq!(extract_tov_time_right(&range(3, 4)), Some(4));
    assert_eq!(extract_tov_time_right(&Tov::Untimed), None);
}

#[test]
fn all_streams_share_one_snapshot() {
    let mut buffers = AlignmentBuffers::new(SEC, SEC, &vec![2, 3]);
    buffers.push(0, number(1, 1));
    buffers.push(1, number(2, 2));
    buffers.push(1, number(3, 3));
    let bytes = buffers.freeze(&encode).unwrap();
    let mut restored = AlignmentBuffers::new(SEC, SEC, &vec![2, 3]);
    assert_eq!(restored.thaw(&bytes, 0, &decode), Ok(bytes.len()));
    assert_eq!((restored.len(0), restored.len(1)), (1, 2));
    assert_eq!(restored.freeze(&encode).unwrap(), bytes);
    let mut narrow = AlignmentBuffers::new(SEC, SEC, &vec![2, 1]);
    assert_eq!(
        narrow.thaw(&bytes, 0, &decode),
        Err(SnapshotError::ArrayLengthMismatch { required: 1, found: 2 })
    );
}

fn config(window_ms: u32, horizon_ms: u32) -> AlignerConfig {
    AlignerConfig {
        target_alignment_window_ms: Some(window_ms),
        stale_data_horizon_ms: Some(horizon_ms),
    }
}

#[test]
fn test_aligner_smoketest() {
    let mut aligner = AlignerTask::new(Some(&config(1000, 2000)), &vec![10, 5], &vec![5, 10]).unwrap();
    let result = aligner.process(vec![msg(None, Tov::Untimed), msg(None, Tov::Untimed)]);
    assert!(result.is_none());
}

/// A task that had nothing to emit still ticks, so a message can carry a tov
/// with no payload.
#[test]
fn test_aligner_tolerates_payload_less_ticks() {
    let mut aligner = AlignerTask::new(Some(&config(100, 1000)), &vec![10, 5], &vec![5, 10]).unwrap();

    let tov = Tov::Time(100 * MILLI);
    let payload =
        aligner.process(vec![msg(None, tov), msg(Some(&7i32.to_le_bytes()), tov)]).unwrap();

    // The payload-less tick contributes nothing and takes no buffer slot, so
    // that stream comes back empty.
    assert_eq!(payload[0].len(), 0);
    assert_eq!(payload[1], [7i32.to_le_bytes().to_vec()]);

    // Once real data arrives on that stream, both align as usual.
    let tov = Tov::Time(150 * MILLI);
    let payload = aligner
        .process(vec![msg(Some(&1.5f32.to_le_bytes()), tov), msg(Some(&9i32.to_le_bytes()), tov)])
        .unwrap();

    assert_eq!(payload[0], [1.5f32.to_le_bytes().to_vec()]);
    assert_eq!(payload[1], [7i32.to_le_bytes().to_vec(), 9i32.to_le_bytes().to_vec()]);
}

#[test]
fn test_aligner_string_payload() {
    let mut aligner = AlignerTask::new(Some(&config(10, 1000)), &vec![4, 4], &vec![4, 4]).unwrap();
    let tov = Tov::Time(100 * MILLI);
    let payload = aligner.process(vec![msg(Some(b"left"), tov), msg(Some(b"right"), tov)]).unwrap();

    assert_eq!(payload[0].len(), 1);
    assert_eq!(payload[1].len(), 1);
    assert_eq!(payload[0][0], b"left");
    assert_eq!(payload[1][0], b"right");
}

#[test]
fn aligners_want_a_complete_configuration() {
    let told = |config: Option<&AlignerConfig>| match AlignerTask::new(config, &vec![1], &vec![1]) {
        Ok(_) => "".to_string(),
        Err(e) => e.to_string(),
    };
    assert_eq!(told(None), "Config Missing");
    let mut incomplete = config(1, 1);
    incomplete.stale_data_horizon_ms = None;
    assert_eq!(told(Some(&incomplete)), "Missing stale_data_horizon");
    incomplete.target_alignment_window_ms = None;
    assert_eq!(told(Some(&incomplete)), "Missing target_alignment_window");
}

#[test]
fn aligners_purge_before_they_align() {
    let mut aligner = AlignerTask::new(Some(&config(1, 2)), &vec![4], &vec![4]).unwrap();
    aligner.absorb(vec![msg(Some(b"old"), Tov::Time(10 * MILLI))]);
    assert!(aligner.has_window());
    aligner.preprocess(20 * MILLI);
    assert!(aligner.align().is_none());
    aligner.absorb(vec![msg(Some(b"early"), Tov::Time(1))]);
    assert!(!aligner.has_window());
}

#[test]
fn aligners_carry_on_from_a_snapshot() {
    let mut aligner = AlignerTask::new(Some(&config(10, 1000)), &vec![4, 4], &vec![4, 4]).unwrap();
    let tov = Tov::Time(100 * MILLI);
    aligner.absorb(vec![msg(Some(b"left"), tov), msg(None, tov)]);
    let bytes = aligner.freeze(&encode).unwrap();
    let mut restored = AlignerTask::new(Some(&config(10, 1000)), &vec![4, 4], &vec![4, 4]).unwrap();
    assert_eq!(restored.thaw(&bytes, 0, &decode), Ok(bytes.len()));
    let inputs = || vec![msg(None, tov), msg(Some(b"right"), tov)];
    assert_eq!(restored.process(inputs()), aligner.process(inputs()));
    assert_eq!(restored.thaw(&vec![9], 0, &decode).unwrap_err(), SnapshotError::ArrayLengthMismatch { required: 4, found: 9 });
}

#[test]
fn outputs_take_no_more_than_their_size() {
    let mut aligner = AlignerTask::new(Some(&config(10, 1000)), &vec![4, 4], &vec![2, 0]).unwrap();
    let mut given = None;
    for (i, text) in [b"a", b"b", b"c"].iter().enumerate() {
        let tov = Tov::Time((100 + i as u64) * MILLI);
        given = aligner.process(vec![msg(Some(*text), tov), msg(Some(*text), tov)]);
    }
    assert_eq!(given, Some(vec![vec![b"a".to_vec(), b"b".to_vec()], vec![]]));
}

#[test]
fn messages_keep_their_metadata() {
    let mut buffer = TimeboundCircularBuffer::new(4);
    let tagged = CuStampedData { payload: None, tov: Tov::Time(SEC), metadata: vec![1, 2, 3] };
    buffer.push(tagged);
    assert_eq!(buffer.iter_window(0, SEC)[0].metadata, [1, 2, 3]);
    let bytes = buffer.freeze(&encode).unwrap();
    let mut restored = TimeboundCircularBuffer::new(4);
    restored.thaw(&bytes, 0, &decode).unwrap();
    assert_eq!(restored.get(0), buffer.get(0));
}
