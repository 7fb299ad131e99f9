use lsp_transport::bridge::{BridgeAction, ReadBridge, ReadOutcome, ResultPoll, SendPoll};

/// A stand-in for the worker: it takes one size request at a time and serves it from
/// `input` when `work` is called.
struct Worker {
    input: Vec<u8>,
    pos: usize,
    request: Option<usize>,
    result: Option<Vec<u8>>,
    max_read: usize,
}

impl Worker {
    fn new(input: Vec<u8>, max_read: usize) -> Worker {
        Worker { input, pos: 0, request: None, result: None, max_read }
    }

    fn send(&mut self, size: usize) -> SendPoll {
        if self.request.is_some() {
            SendPoll::Full
        } else {
            self.request = Some(size);
            SendPoll::Accepted
        }
    }

    fn poll(&mut self) -> ResultPoll<String> {
        match self.result.take() {
            Some(bytes) => ResultPoll::Ready(Ok(bytes)),
            None => ResultPoll::NotReady,
        }
    }

    fn work(&mut self) {
        if self.result.is_none() {
            if let Some(size) = self.request.take() {
                let n = size.min(self.max_read).min(self.input.len() - self.pos);
                self.result = Some(self.input[self.pos..self.pos + n].to_vec());
                self.pos += n;
            }
        }
    }
}

fn read(bridge: &mut ReadBridge, worker: &mut Worker, capacity: usize) -> ReadOutcome<String> {
    let mut action = bridge.start(capacity);
    loop {
        action = match action {
            BridgeAction::Finish(outcome) => return outcome,
            BridgeAction::PollResult => bridge.polled(worker.poll()),
            BridgeAction::RequestSize(n) => bridge.sent(worker.send(n)),
        };
    }
}

/// Reads to the end, with the caller's buffer limited to `limits` in turn and then to
/// 32 bytes, letting the worker run after every "would block".
fn read_to_end(input: Vec<u8>, limits: &[usize], max_read: usize) -> Vec<u8> {
    let mut bridge = ReadBridge::new();
    let mut worker = Worker::new(input, max_read);
    let mut out = Vec::new();
    let mut call = 0;
    loop {
        let capacity = if call < limits.len() { limits[call] } else { 32 };
        call += 1;
        match read(&mut bridge, &mut worker, capacity) {
            ReadOutcome::Bytes(bytes) => {
                assert!(bytes.len() <= capacity);
                if bytes.is_empty() {
                    return out;
                }
                out.extend_from_slice(&bytes);
            }
            ReadOutcome::WouldBlock => worker.work(),
            _ => panic!("unexpected failure"),
        }
        assert!(call < 10_000);
    }
}

#[test]
fn partial_2_1() {
    let input = vec![0, 0];
    assert_eq!(read_to_end(input.clone(), &[2, 1], usize::MAX), input);
}

#[test]
fn fragmented_reads_keep_every_byte() {
    let input: Vec<u8> = (0..=255).collect();
    for limits in [&[1usize, 1, 1][..], &[3, 7, 1, 2], &[64], &[5, 5, 5, 5, 5, 5]] {
        for max_read in [1usize, 2, 13, 1000] {
            assert_eq!(read_to_end(input.clone(), limits, max_read), input);
        }
    }
}

#[test]
fn debt_is_paid_before_a_new_request() {
    let mut bridge = ReadBridge::new();
    let mut worker = Worker::new(b"hello".to_vec(), usize::MAX);
    assert!(matches!(read(&mut bridge, &mut worker, 5), ReadOutcome::WouldBlock));
    worker.work();
    match read(&mut bridge, &mut worker, 2) {
        ReadOutcome::Bytes(b) => assert_eq!(b, b"he".to_vec()),
        _ => panic!("expected bytes"),
    }
    // the debt comes back with no worker interaction
    assert!(matches!(bridge.start::<String>(2), BridgeAction::Finish(ReadOutcome::Bytes(ref b)) if b == b"ll"));
    assert!(bridge.is_idle());
    assert!(matches!(bridge.start::<String>(10), BridgeAction::Finish(ReadOutcome::Bytes(ref b)) if b == b"o"));
    assert!(matches!(bridge.start::<String>(10), BridgeAction::PollResult));
}

#[test]
fn second_request_waits() {
    let mut bridge = ReadBridge::new();
    assert!(matches!(bridge.start::<String>(4), BridgeAction::PollResult));
    assert!(matches!(bridge.polled::<String>(ResultPoll::NotReady), BridgeAction::RequestSize(4)));
    assert!(matches!(bridge.sent::<String>(SendPoll::Full), BridgeAction::Finish(ReadOutcome::WouldBlock)));
}

#[test]
fn worker_error_is_passed_on() {
    let mut bridge = ReadBridge::new();
    let _ = bridge.start::<String>(4);
    match bridge.polled(ResultPoll::Ready(Err("disk".to_string()))) {
        BridgeAction::Finish(ReadOutcome::Failed(e)) => assert_eq!(e, "disk"),
        _ => panic!("expected the error"),
    }
}

#[test]
fn closed_results_mean_worker_stopped() {
    let mut bridge = ReadBridge::new();
    let _ = bridge.start::<String>(4);
    assert!(matches!(bridge.polled::<String>(ResultPoll::Closed), BridgeAction::Finish(ReadOutcome::Stopped)));
    let _ = bridge.start::<String>(4);
    let _ = bridge.polled::<String>(ResultPoll::NotReady);
    let _ = bridge.sent::<String>(SendPoll::Gone);
    assert!(matches!(bridge.polled::<String>(ResultPoll::Closed), BridgeAction::Finish(ReadOutcome::Stopped)));
}

#[test]
fn empty_worker_result_means_end_of_input() {
    let mut bridge = ReadBridge::new();
    let _ = bridge.start::<String>(4);
    assert!(matches!(bridge.polled::<String>(ResultPoll::Ready(Ok(Vec::new()))), BridgeAction::Finish(ReadOutcome::Bytes(ref b)) if b.is_empty()));
}

#[test]
fn broken_channel_and_stopped_worker() {
    let mut bridge = ReadBridge::new();
    let _ = bridge.start::<String>(4);
    assert!(matches!(bridge.polled::<String>(ResultPoll::Broken), BridgeAction::Finish(ReadOutcome::BrokenPipe)));
    let _ = bridge.start::<String>(4);
    let _ = bridge.polled::<String>(ResultPoll::NotReady);
    assert!(matches!(bridge.sent::<String>(SendPoll::Gone), BridgeAction::PollResult));
    assert!(matches!(bridge.polled::<String>(ResultPoll::Broken), BridgeAction::Finish(ReadOutcome::Stopped)));
    let _ = bridge.start::<String>(4);
    let _ = bridge.polled::<String>(ResultPoll::NotReady);
    let _ = bridge.sent::<String>(SendPoll::Accepted);
    assert!(matches!(bridge.polled::<String>(ResultPoll::Broken), BridgeAction::Finish(ReadOutcome::BrokenPipe)));
}
