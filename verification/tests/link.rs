use rtt_rpc::device_rx::{RttRx, RxEvent};
use rtt_rpc::device_tx::RttTxInner;
use rtt_rpc::handlers::{get_led, get_unique_id, radar_handler, set_led, u64_from_be_bytes, unique_id, Context, LoggingTask};
use rtt_rpc::host_link::{round_was_idle, HostLink};
use rtt_rpc::header::{HeaderKey, HeaderSeq, WireHeader};
use rtt_rpc::icd::{HelloWorld, LedState, RadarPoint, RadarPointSeq};
use postcard_rpc::header::{VarHeader, VarKey, VarSeq};
use postcard_rpc::{Key, Key1, Key2, Key4};

fn wire_header(hdr: &VarHeader) -> WireHeader {
    let key = match hdr.key {
        VarKey::Key1(k) => HeaderKey::Key1(k.to_bytes()),
        VarKey::Key2(k) => HeaderKey::Key2(k.to_bytes()),
        VarKey::Key4(k) => HeaderKey::Key4(k.to_bytes()),
        VarKey::Key8(k) => HeaderKey::Key8(k.to_bytes()),
    };
    let seq_no = match hdr.seq_no {
        VarSeq::Seq1(s) => HeaderSeq::Seq1(s),
        VarSeq::Seq2(s) => HeaderSeq::Seq2(s),
        VarSeq::Seq4(s) => HeaderSeq::Seq4(s),
    };
    WireHeader { key, seq_no }
}

fn frame_of(msg: &[u8]) -> Vec<u8> {
    let mut out = cobs::encode_vec(msg);
    out.push(0);
    out
}

fn point(x: f64, y: f64, z: f64) -> RadarPoint {
    RadarPoint {
        x: x.to_bits(),
        y: y.to_bits(),
        z: z.to_bits(),
        snr_db: 4.0f64.to_bits(),
        noise_db: 5.0f64.to_bits(),
        v_doppler_mps: 6.0f64.to_bits(),
    }
}

#[test]
fn unique_id_is_bytes_one_to_eight() {
    assert_eq!(get_unique_id(Some([1, 2, 3, 4, 5, 6, 7, 8])), Some(0x0102_0304_0506_0708));
    assert_eq!(get_unique_id(Some([0xde, 0xad, 0xbe, 0xef, 0, 0, 0, 1])), Some(0xdead_beef_0000_0001));
    assert_eq!(get_unique_id(None), None);
    assert_eq!(u64_from_be_bytes([0, 0, 0, 0, 0, 0, 1, 0]), 256);
    assert_eq!(u64_from_be_bytes([0xff; 8]), u64::MAX);
}

#[test]
fn handlers_answer_from_context() {
    let mut ctx = Context { unique_id: 42, led_high: false };
    assert_eq!(unique_id(&ctx), 42);
    assert_eq!(get_led(&ctx), LedState::Off);
    set_led(&mut ctx, LedState::On);
    assert!(ctx.led_high);
    assert_eq!(get_led(&ctx), LedState::On);
    set_led(&mut ctx, LedState::Off);
    assert!(!ctx.led_high);
    assert_eq!(get_led(&ctx), LedState::Off);
    assert_eq!(unique_id(&ctx), 42);
}

#[test]
fn radar_takes_first_two_points() {
    let mut points = RadarPointSeq::new();
    points.push(point(1.0, 2.0, 3.0)).unwrap();
    points.push(point(-1.5, 0.25, 8.0)).unwrap();
    points.push(point(9.0, 9.0, 9.0)).unwrap();
    let r = radar_handler(&points);
    assert_eq!(r.v_r.map(f64::from_bits), [1.0, 2.0, 3.0]);
    assert_eq!(r.sigma.map(f64::from_bits), [-1.5, 0.25, 8.0]);
    assert_eq!(r.time_us, 0);
}

#[test]
fn radar_with_too_few_points_is_zero() {
    let mut points = RadarPointSeq::new();
    let r = radar_handler(&points);
    assert_eq!(r.v_r.map(f64::from_bits), [0.0, 0.0, 0.0]);
    assert_eq!(r.sigma, [0, 0, 0]);
    points.push(point(1.0, 2.0, 3.0)).unwrap();
    let r = radar_handler(&points);
    assert_eq!(r.v_r.map(f64::from_bits), [0.0, 0.0, 0.0]);
    assert_eq!(r.sigma.map(f64::from_bits), [0.0, 0.0, 0.0]);
}

#[test]
fn logging_task_counts_greetings() {
    let mut task = LoggingTask::new();
    assert_eq!(task.tick(100), (0, HelloWorld { uptime: 100 }));
    assert_eq!(task.tick(250), (1, HelloWorld { uptime: 250 }));
    assert_eq!(task.ctr, 2);
}

#[test]
fn host_decodes_a_frame() {
    let mut link = HostLink::new();
    let frames = link.on_uplink_bytes(&[3, 10, 11, 2, 12, 0]);
    assert_eq!(frames, vec![vec![10, 11, 0, 12]]);
}

#[test]
fn host_frames_do_not_depend_on_read_boundaries() {
    let mut stream = frame_of(&[1, 2, 3]);
    stream.extend(frame_of(&[0, 0, 7]));
    stream.extend(frame_of(&[9]));
    stream.extend_from_slice(&[5, 6]);
    let mut whole = HostLink::new();
    let all = whole.on_uplink_bytes(&stream);
    assert_eq!(all, vec![vec![1, 2, 3], vec![0, 0, 7], vec![9]]);
    for cut in 0..=stream.len() {
        let mut split = HostLink::new();
        let mut got = split.on_uplink_bytes(&stream[..cut]);
        got.extend(split.on_uplink_bytes(&stream[cut..]));
        assert_eq!(got, all);
    }
    // the trailing bytes stay staged and complete the next frame
    let got = whole.on_uplink_bytes(&[0]);
    assert_eq!(got, cobs::decode_vec(&[5, 6, 0]).ok().into_iter().collect::<Vec<_>>());
}

#[test]
fn host_drops_frames_that_do_not_decode() {
    let mut link = HostLink::new();
    // a lone terminator and a code byte that runs past the terminator
    let frames = link.on_uplink_bytes(&[0, 5, 1, 0, 2, 7, 0]);
    assert_eq!(frames, vec![vec![7]]);
}

#[test]
fn host_outgoing_frame_and_short_writes() {
    let mut link = HostLink::new();
    assert!(link.wants_outgoing());
    link.queue_outgoing(&[10, 11, 0, 12]);
    assert!(!link.wants_outgoing());
    let tx = link.take_pending().unwrap();
    assert_eq!(tx, vec![3, 10, 11, 2, 12, 0]);
    assert!(link.after_write(tx, 2));
    let tx = link.take_pending().unwrap();
    assert_eq!(tx, vec![11, 2, 12, 0]);
    assert!(!link.after_write(tx, 0));
    let tx = link.take_pending().unwrap();
    assert_eq!(tx, vec![11, 2, 12, 0]);
    assert!(link.after_write(tx, 4));
    assert!(link.take_pending().is_none());
    assert!(link.wants_outgoing());
}

#[test]
fn host_idle_round() {
    assert!(round_was_idle(0, false));
    assert!(!round_was_idle(3, false));
    assert!(!round_was_idle(0, true));
}

#[test]
fn device_receives_host_frame() {
    let mut link = HostLink::new();
    link.queue_outgoing(&[7, 0, 8]);
    let frame = link.take_pending().unwrap();
    let mut rx = RttRx::new(vec![0u8; 32]);
    assert_eq!(rx.window_len(), 32);
    match rx.on_read(&frame) {
        RxEvent::Frame(f) => assert_eq!(f, vec![7, 0, 8]),
        _ => panic!("no frame"),
    }
    assert_eq!(rx.window_len(), 32);
}

#[test]
fn device_receive_in_pieces() {
    let mut rx = RttRx::new(vec![0u8; 16]);
    assert!(matches!(rx.on_read(&[]), RxEvent::Idle));
    assert!(matches!(rx.on_read(&[3, 10]), RxEvent::Partial));
    assert_eq!(rx.window_len(), 14);
    assert!(matches!(rx.on_read(&[11, 2, 12]), RxEvent::Partial));
    match rx.on_read(&[0, 2, 9]) {
        RxEvent::Frame(f) => assert_eq!(f, vec![10, 11, 0, 12]),
        _ => panic!("no frame"),
    }
    // the bytes after the terminator stay pending
    assert_eq!(rx.window_len(), 14);
    match rx.on_read(&[0]) {
        RxEvent::Frame(f) => assert_eq!(f, vec![9]),
        _ => panic!("no frame"),
    }
    assert_eq!(rx.window_len(), 16);
}

#[test]
fn device_drops_bad_frame() {
    let mut rx = RttRx::new(vec![0u8; 16]);
    assert!(matches!(rx.on_read(&[5, 1, 0]), RxEvent::BadFrame));
    assert_eq!(rx.window_len(), 16);
    match rx.on_read(&[2, 4, 0]) {
        RxEvent::Frame(f) => assert_eq!(f, vec![4]),
        _ => panic!("no frame"),
    }
}

#[test]
fn device_raw_frame_reaches_host() {
    let mut tx = RttTxInner { buf1: vec![0u8; 64], buf2: vec![0u8; 64] };
    let used = tx.send_raw(&[10, 11, 0, 12]);
    assert_eq!(used, 5);
    assert_eq!(tx.encoded(used), &[3, 10, 11, 2, 12]);
    let mut wire = tx.encoded(used).to_vec();
    wire.push(0);
    let mut link = HostLink::new();
    assert_eq!(link.on_uplink_bytes(&wire), vec![vec![10, 11, 0, 12]]);
}

#[test]
fn device_raw_frame_too_large() {
    let mut tx = RttTxInner { buf1: vec![0u8; 8], buf2: vec![0u8; 8] };
    assert_eq!(tx.try_send_raw(&[1, 2, 3, 4, 5, 6, 7, 8]), None);
    assert_eq!(tx.buf2.len(), 8);
    assert_eq!(tx.try_send_raw(&[1, 2, 3, 4, 5, 6]), Some(7));
    assert_eq!(tx.encoded(7), &[7, 1, 2, 3, 4, 5, 6]);
}

#[test]
fn long_runs_without_zero() {
    let msg: Vec<u8> = (0..600u32).map(|i| (i % 255 + 1) as u8).collect();
    let mut tx = RttTxInner { buf1: vec![0u8; 8], buf2: vec![0u8; 700] };
    let used = tx.try_send_raw(&msg).unwrap();
    assert!(tx.encoded(used).iter().all(|b| *b != 0));
    let mut wire = tx.encoded(used).to_vec();
    wire.push(0);
    let mut link = HostLink::new();
    assert_eq!(link.on_uplink_bytes(&wire), vec![msg.clone()]);
    link.queue_outgoing(&msg);
    let frame = link.take_pending().unwrap();
    let mut rx = RttRx::new(vec![0u8; 1024]);
    match rx.on_read(&frame) {
        RxEvent::Frame(f) => assert_eq!(f, msg),
        _ => panic!("no frame"),
    }
}

#[test]
fn device_message_with_header() {
    let key = Key::for_path::<u64>("poststation/unique_id/get");
    let hdr = VarHeader { key: VarKey::Key8(key), seq_no: VarSeq::Seq4(7) };
    let wire = wire_header(&hdr);
    assert_eq!(wire.encoded_len(), 13);
    let mut tx = RttTxInner { buf1: vec![0u8; 64], buf2: vec![0u8; 128] };
    let n = tx.stage_message(&wire, &[1, 2, 3]);
    assert_eq!(n, 16);
    assert_eq!(&tx.buf1[13..16], &[1, 2, 3]);
    let used = tx.try_encode_staged(n).unwrap();
    let mut bytes = tx.encoded(used).to_vec();
    bytes.push(0);
    let mut link = HostLink::new();
    let frames = link.on_uplink_bytes(&bytes);
    assert_eq!(frames.len(), 1);
    let (got, body) = VarHeader::take_from_slice(&frames[0]).unwrap();
    assert_eq!(got, hdr);
    assert_eq!(body, &[1, 2, 3]);
    // the same in one call
    let mut tx2 = RttTxInner { buf1: vec![0u8; 64], buf2: vec![0u8; 128] };
    assert_eq!(tx2.send(&wire, &[1, 2, 3]), Some(used));
    assert_eq!(tx2.encoded(used), tx.encoded(used));
}

#[test]
fn header_bytes_match_postcard_rpc() {
    let key = Key::for_path::<u64>("template/led/set");
    let keys = [
        VarKey::Key1(Key1::from_key8(key)),
        VarKey::Key2(Key2::from_key8(key)),
        VarKey::Key4(Key4::from_key8(key)),
        VarKey::Key8(key),
    ];
    let seqs = [VarSeq::Seq1(0xa5), VarSeq::Seq2(0x1234), VarSeq::Seq4(0xdead_beef)];
    for k in keys.iter() {
        for s in seqs.iter() {
            let hdr = VarHeader { key: *k, seq_no: *s };
            let mut expected = [0u8; 20];
            let (written, _) = hdr.write_to_slice(&mut expected).unwrap();
            let expected = written.to_vec();
            let wire = wire_header(&hdr);
            assert_eq!(wire.encoded_len(), expected.len());
            let mut buf = vec![0x77u8; 20];
            assert_eq!(wire.write_to_slice(&mut buf), Some(expected.len()));
            assert_eq!(&buf[..expected.len()], &expected[..]);
            assert!(buf[expected.len()..].iter().all(|b| *b == 0x77));
            let mut short = vec![0x77u8; expected.len() - 1];
            assert_eq!(wire.write_to_slice(&mut short), None);
            assert!(short.iter().all(|b| *b == 0x77));
        }
    }
}

#[test]
fn device_message_whose_encoding_does_not_fit() {
    let key = Key::for_path::<u64>("template/led/set");
    let hdr = wire_header(&VarHeader { key: VarKey::Key8(key), seq_no: VarSeq::Seq1(1) });
    assert_eq!(hdr.encoded_len(), 10);
    let mut small = RttTxInner { buf1: vec![0u8; 64], buf2: vec![0u8; 13] };
    assert_eq!(small.send(&hdr, &[1, 2, 3]), None);
    // an encoding that fills the buffer exactly is sent
    let mut exact = RttTxInner { buf1: vec![0u8; 64], buf2: vec![0u8; 14] };
    assert_eq!(exact.send(&hdr, &[1, 2, 3]), Some(14));
}

#[test]
fn encoding_that_fits_exactly_is_sent() {
    let mut tx = RttTxInner { buf1: vec![0u8; 4], buf2: vec![0u8; 4] };
    assert_eq!(tx.try_send_raw(&[1, 2, 3]), Some(4));
    assert_eq!(tx.encoded(4), &[4, 1, 2, 3]);
    // a trailing run of 254 non-zero bytes takes one byte more than cobs reckons
    let run = vec![9u8; 254];
    assert_eq!(cobs::max_encoding_length(run.len()), 255);
    let mut tight = RttTxInner { buf1: vec![], buf2: vec![0u8; 255] };
    assert_eq!(tight.try_send_raw(&run), None);
    let mut roomy = RttTxInner { buf1: vec![], buf2: vec![0u8; 256] };
    let used = roomy.try_send_raw(&run).unwrap();
    assert_eq!(used, 256);
    let mut bytes = roomy.encoded(used).to_vec();
    bytes.push(0);
    assert_eq!(HostLink::new().on_uplink_bytes(&bytes), vec![run]);
}

#[test]
fn device_keeps_bytes_after_a_short_frame() {
    let mut rx = RttRx::new(vec![0u8; 16]);
    // more bytes follow the terminator than the frame took up
    match rx.on_read(&[0x01, 0x00, 0x03, 0x41, 0x42]) {
        RxEvent::Frame(f) => assert!(f.is_empty()),
        _ => panic!("no frame"),
    }
    assert_eq!(rx.pending_len(), 3);
    match rx.on_read(&[0]) {
        RxEvent::Frame(f) => assert_eq!(f, vec![0x41, 0x42]),
        _ => panic!("no frame"),
    }
    assert_eq!(rx.pending_len(), 0);
}

#[test]
fn device_drops_overlong_frame() {
    let mut rx = RttRx::new(vec![0u8; 4]);
    assert!(!rx.drain_if_full());
    assert!(matches!(rx.on_read(&[1, 1, 1, 1]), RxEvent::Partial));
    assert_eq!(rx.window_len(), 0);
    assert!(rx.drain_if_full());
    assert_eq!(rx.window_len(), 4);
    assert!(matches!(rx.on_read(&[5, 5, 5]), RxEvent::Discarded));
    assert_eq!(rx.pending_len(), 0);
    assert!(matches!(rx.on_read(&[5, 0, 2, 7]), RxEvent::BadFrame));
    assert_eq!(rx.pending_len(), 2);
    match rx.on_read(&[0]) {
        RxEvent::Frame(f) => assert_eq!(f, vec![7]),
        _ => panic!("no frame"),
    }
}

#[test]
fn device_receives_frame_in_any_reads() {
    let msg = [4u8, 0, 0, 9, 255, 1];
    let mut link = HostLink::new();
    link.queue_outgoing(&msg);
    let frame = link.take_pending().unwrap();
    for cut in 1..frame.len() {
        let mut rx = RttRx::new(vec![0u8; 32]);
        assert!(matches!(rx.on_read(&frame[..cut]), RxEvent::Partial));
        match rx.on_read(&frame[cut..]) {
            RxEvent::Frame(f) => assert_eq!(f, msg.to_vec()),
            _ => panic!("no frame"),
        }
        assert_eq!(rx.pending_len(), 0);
    }
}

fn frame_bytes(event: RxEvent) -> Option<Vec<u8>> {
    match event {
        RxEvent::Frame(f) => Some(f),
        _ => None,
    }
}

#[test]
fn device_two_frames_in_one_read() {
    let mut rx = RttRx::new(vec![0u8; 16]);
    assert_eq!(frame_bytes(rx.on_read(&[2, 0x41, 0, 2, 0x42, 0])), Some(vec![0x41]));
    assert_eq!(rx.pending_len(), 3);
    // the second frame is complete among the pending bytes: a read that brings nothing
    // hands it out
    assert_eq!(frame_bytes(rx.on_read(&[])), Some(vec![0x42]));
    assert_eq!(rx.pending_len(), 0);
    assert!(matches!(rx.on_read(&[]), RxEvent::Idle));
}

#[test]
fn device_frame_waiting_while_next_one_arrives() {
    let mut rx = RttRx::new(vec![0u8; 16]);
    assert_eq!(frame_bytes(rx.on_read(&[2, 0x41, 0, 2, 0x42, 0])), Some(vec![0x41]));
    // a read that brings a whole further frame first completes the waiting one
    assert_eq!(frame_bytes(rx.on_read(&[2, 0x43, 0])), Some(vec![0x42]));
    assert_eq!(rx.pending_len(), 3);
    assert_eq!(frame_bytes(rx.on_read(&[3, 0x44])), Some(vec![0x43]));
    assert_eq!(rx.pending_len(), 2);
    assert!(matches!(rx.on_read(&[0x45]), RxEvent::Partial));
    assert_eq!(frame_bytes(rx.on_read(&[0])), Some(vec![0x44, 0x45]));
    assert_eq!(rx.pending_len(), 0);
}

#[test]
fn device_stream_of_frames_in_any_two_reads() {
    let msgs: Vec<Vec<u8>> = vec![vec![1, 2, 3], vec![0, 0, 7], vec![9], vec![0xff, 0, 0x10]];
    let mut stream = Vec::new();
    for m in msgs.iter() {
        let mut link = HostLink::new();
        link.queue_outgoing(m);
        stream.extend(link.take_pending().unwrap());
    }
    for cut in 0..=stream.len() {
        let mut rx = RttRx::new(vec![0u8; 64]);
        let mut got = Vec::new();
        for part in [&stream[..cut], &stream[cut..]] {
            match rx.on_read(part) {
                RxEvent::Frame(f) => got.push(f),
                RxEvent::Partial | RxEvent::Idle => {}
                _ => panic!("unexpected event"),
            }
        }
        for _ in 0..msgs.len() {
            if let RxEvent::Frame(f) = rx.on_read(&[]) {
                got.push(f);
            }
        }
        assert_eq!(got, msgs);
        assert_eq!(rx.pending_len(), 0);
    }
}

#[test]
fn device_stream_byte_by_byte() {
    let msgs: Vec<Vec<u8>> = vec![vec![5], vec![0], vec![6, 0, 6]];
    let mut stream = Vec::new();
    for m in msgs.iter() {
        stream.extend(frame_of(m));
    }
    let mut rx = RttRx::new(vec![0u8; 8]);
    let mut got = Vec::new();
    for b in stream.iter() {
        if let RxEvent::Frame(f) = rx.on_read(&[*b]) {
            got.push(f);
        }
    }
    assert_eq!(got, msgs);
    assert_eq!(rx.pending_len(), 0);
}

#[test]
fn logging_task_publishes_the_last_count_and_wraps() {
    let mut task = LoggingTask { ctr: u32::MAX - 1 };
    assert_eq!(task.tick(7), (u32::MAX - 1, HelloWorld { uptime: 7 }));
    assert_eq!(task.tick(9), (u32::MAX, HelloWorld { uptime: 9 }));
    assert_eq!(task.ctr, 0);
    assert_eq!(task.tick(11), (0, HelloWorld { uptime: 11 }));
}

#[test]
fn logging_task_run_numbers_greetings_in_order() {
    let mut task = LoggingTask::new();
    let uptimes = [3u64, 3, 6, 9, 12];
    let run: Vec<(u32, HelloWorld)> = uptimes.iter().map(|u| task.tick(*u)).collect();
    for (n, (seq_no, hello)) in run.iter().enumerate() {
        assert_eq!(*seq_no, n as u32);
        assert_eq!(hello.uptime, uptimes[n]);
    }
    assert_eq!(task.ctr, 5);
}

#[test]
fn encoding_at_exactly_the_count_is_sent() {
    assert_eq!(cobs::max_encoding_length(1), 2);
    let mut tx = RttTxInner { buf1: vec![], buf2: vec![0u8; 2] };
    assert_eq!(tx.try_send_raw(&[1]), Some(2));
    assert_eq!(tx.encoded(2), &[2, 1]);
    let mut zero = RttTxInner { buf1: vec![], buf2: vec![0u8; 2] };
    assert_eq!(zero.try_send_raw(&[0]), Some(2));
    assert_eq!(zero.encoded(2), &[1, 1]);
}
