//! Per-connection frame accumulation.
//!
//! One `FrameReader` owns the byte stream of one PLC socket. The
//! surrounding task performs the timed reads and hands every outcome —
//! bytes, peer close, error, timeout — to the reader, which decides
//! what to do: keep accumulating, publish a complete frame, shed an
//! oversized accumulator, or end the connection. Every decision is a
//! pure function of the reader's state, the event and the clock, so
//! the framing behaviour is provable independently of the socket.

use vstd::prelude::*;

verus! {

/// Hard cap on the accumulator: above this the partial frame is shed.
pub const MAX_ACCUMULATOR_SIZE: usize = 65536;

/// A connection with no complete frame for this long is ended.
pub const INACTIVITY_TIMEOUT_NS: u64 = 15_000_000_000;

/// A partial frame older than this is discarded as stale.
pub const FRAGMENT_CLEAR_NS: u64 = 5_000_000_000;

/// Read timeouts tolerated in a row before the connection is ended.
pub const MAX_CONSECUTIVE_TIMEOUTS: u32 = 3;

/// Why a connection ended.
#[derive(Debug)]
pub enum ConnectionResult {
    /// Peer closed; carries the total bytes received.
    Normal(u64),
    /// Gave up waiting, with the reason.
    Timeout(String),
    /// A read failed, with the message.
    Error(String),
    /// The server was asked to stop.
    ServerStopped,
}

/// What one read of the socket produced.
#[derive(Debug)]
pub enum ReadEvent {
    /// `n > 0` bytes arrived.
    Data(Vec<u8>),
    /// The peer closed the stream (a zero-length read).
    Closed,
    /// The read failed, with the message.
    Failed(String),
    /// The read timed out.
    TimedOut,
}

/// What the reader decided after an event.
#[derive(Debug)]
pub enum ReadStep {
    /// Keep reading.
    Continue,
    /// A complete frame: parse and publish these bytes.
    Publish(Vec<u8>),
    /// The accumulator would have grown past the cap: bytes discarded.
    Dropped,
    /// End the connection.
    Exit(ConnectionResult),
}

/// Ghost image of a `ConnectionResult`.
pub enum ResultModel {
    Normal(nat),
    Timeout(Seq<char>),
    Error(Seq<char>),
    ServerStopped,
}

/// Ghost image of a `ReadStep`.
pub enum StepModel {
    Continue,
    Publish(Seq<u8>),
    Dropped,
    Exit(ResultModel),
}

/// Ghost image of a `ReadEvent`.
pub enum EventModel {
    Data(Seq<u8>),
    Closed,
    Failed(Seq<char>),
    TimedOut,
}

impl View for ConnectionResult {
    type V = ResultModel;

    open spec fn view(&self) -> ResultModel {
        match self {
            ConnectionResult::Normal(n) => ResultModel::Normal(*n as nat),
            ConnectionResult::Timeout(s) => ResultModel::Timeout(s@),
            ConnectionResult::Error(s) => ResultModel::Error(s@),
            ConnectionResult::ServerStopped => ResultModel::ServerStopped,
        }
    }
}

impl View for ReadStep {
    type V = StepModel;

    open spec fn view(&self) -> StepModel {
        match self {
            ReadStep::Continue => StepModel::Continue,
            ReadStep::Publish(b) => StepModel::Publish(b@),
            ReadStep::Dropped => StepModel::Dropped,
            ReadStep::Exit(r) => StepModel::Exit(r@),
        }
    }
}

impl View for ReadEvent {
    type V = EventModel;

    open spec fn view(&self) -> EventModel {
        match self {
            ReadEvent::Data(b) => EventModel::Data(b@),
            ReadEvent::Closed => EventModel::Closed,
            ReadEvent::Failed(s) => EventModel::Failed(s@),
            ReadEvent::TimedOut => EventModel::TimedOut,
        }
    }
}

/// Ghost image of a `FrameReader`.
#[verifier::ext_equal]
pub struct ReaderModel {
    pub expected: Option<nat>,
    pub acc: Seq<u8>,
    pub total: nat,
    pub packets: nat,
    pub timeouts: nat,
    pub last_valid: nat,
    pub last_fragment: nat,
}

/// Time elapsed since `then`, zero if the clock went backwards.
pub open spec fn elapsed(now: nat, then: nat) -> nat {
    if now >= then {
        (now - then) as nat
    } else {
        0
    }
}

/// Addition capped at the range of a 64-bit counter.
pub open spec fn sat_add_u64(a: nat, b: nat) -> nat {
    if a + b > u64::MAX {
        u64::MAX as nat
    } else {
        a + b
    }
}

/// The timeout reason after too long without a complete frame.
pub open spec fn inactivity_reason(secs: nat) -> Seq<char> {
    "no data for "@ + crate::numfmt::dec_str(secs) + "s"@
}

/// The timeout reason after too many read timeouts in a row.
pub open spec fn timeouts_reason() -> Seq<char> {
    "3 consecutive read timeouts"@
}

/// The checks made before each read: a stop request ends the
/// connection, prolonged inactivity times it out, and a stale partial
/// frame is discarded.
pub open spec fn pre_read_step(m: ReaderModel, stop: bool, now: nat) -> (ReaderModel, Option<
    ResultModel,
>) {
    if stop {
        (m, Some(ResultModel::ServerStopped))
    } else if elapsed(now, m.last_valid) > INACTIVITY_TIMEOUT_NS {
        (
            m,
            Some(
                ResultModel::Timeout(
                    inactivity_reason(elapsed(now, m.last_valid) / 1_000_000_000),
                ),
            ),
        )
    } else if m.acc.len() > 0 && elapsed(now, m.last_fragment) > FRAGMENT_CLEAR_NS {
        (ReaderModel { acc: Seq::<u8>::empty(), last_fragment: now, ..m }, None)
    } else {
        (m, None)
    }
}

/// The decision after one read: bytes accumulate until a frame is
/// complete (or immediately form one when no size is expected); a peer
/// close, a failure, or a third consecutive timeout ends the
/// connection; an accumulator about to burst its cap is shed instead.
pub open spec fn read_step(m: ReaderModel, ev: EventModel, now: nat) -> (ReaderModel, StepModel) {
    match ev {
        EventModel::Closed => (m, StepModel::Exit(ResultModel::Normal(m.total))),
        EventModel::Failed(msg) => (m, StepModel::Exit(ResultModel::Error(msg))),
        EventModel::TimedOut => {
            let t = if m.timeouts >= MAX_CONSECUTIVE_TIMEOUTS {
                m.timeouts
            } else {
                m.timeouts + 1
            };
            if t >= MAX_CONSECUTIVE_TIMEOUTS {
                (
                    ReaderModel { timeouts: t, ..m },
                    StepModel::Exit(ResultModel::Timeout(timeouts_reason())),
                )
            } else {
                (ReaderModel { timeouts: t, ..m }, StepModel::Continue)
            }
        },
        EventModel::Data(chunk) => {
            let m1 = ReaderModel {
                timeouts: 0,
                total: sat_add_u64(m.total, chunk.len()),
                last_fragment: now,
                ..m
            };
            if m.acc.len() + chunk.len() > MAX_ACCUMULATOR_SIZE {
                (ReaderModel { acc: Seq::<u8>::empty(), ..m1 }, StepModel::Dropped)
            } else {
                let grown = m.acc + chunk;
                match m.expected {
                    Some(e) => {
                        if grown.len() >= e {
                            (
                                ReaderModel {
                                    acc: Seq::<u8>::empty(),
                                    last_valid: now,
                                    packets: sat_add_u64(m.packets, 1),
                                    ..m1
                                },
                                StepModel::Publish(grown),
                            )
                        } else {
                            (ReaderModel { acc: grown, ..m1 }, StepModel::Continue)
                        }
                    },
                    None => (
                        ReaderModel {
                            acc: Seq::<u8>::empty(),
                            last_valid: now,
                            packets: sat_add_u64(m.packets, 1),
                            ..m1
                        },
                        StepModel::Publish(grown),
                    ),
                }
            }
        },
    }
}

/// Accumulates fragments of one PLC connection into complete frames.
#[derive(Debug)]
pub struct FrameReader {
    /// The registered schema's total size; `None` parses every read.
    pub expected_size: Option<usize>,
    /// Bytes of the frame under assembly.
    pub accumulator: Vec<u8>,
    /// Total bytes received over the connection, saturating.
    pub total_bytes: u64,
    /// Complete frames published.
    pub packet_count: u64,
    /// Read timeouts seen in a row.
    pub consecutive_timeouts: u32,
    /// When the last complete frame was published (or the connection
    /// began), in nanoseconds.
    pub last_valid_ns: u64,
    /// When the last fragment arrived, in nanoseconds.
    pub last_fragment_ns: u64,
}

impl View for FrameReader {
    type V = ReaderModel;

    open spec fn view(&self) -> ReaderModel {
        ReaderModel {
            expected: match self.expected_size {
                Some(e) => Some(e as nat),
                None => None,
            },
            acc: self.accumulator@,
            total: self.total_bytes as nat,
            packets: self.packet_count as nat,
            timeouts: self.consecutive_timeouts as nat,
            last_valid: self.last_valid_ns as nat,
            last_fragment: self.last_fragment_ns as nat,
        }
    }
}

impl FrameReader {
    /// The accumulator never exceeds its cap, and saturated counters
    /// stay in range.
    pub open spec fn wf(&self) -> bool {
        self.accumulator@.len() <= MAX_ACCUMULATOR_SIZE
    }

    /// A fresh reader for a connection accepted at `now_ns`.
    pub fn new(expected_size: Option<usize>, now_ns: u64) -> (r: FrameReader)
        ensures
            r.wf(),
            r@ == (ReaderModel {
                expected: match expected_size {
                    Some(e) => Some(e as nat),
                    None => None,
                },
                acc: Seq::<u8>::empty(),
                total: 0,
                packets: 0,
                timeouts: 0,
                last_valid: now_ns as nat,
                last_fragment: now_ns as nat,
            }),
    {
        let r = FrameReader {
            expected_size,
            accumulator: Vec::new(),
            total_bytes: 0,
            packet_count: 0,
            consecutive_timeouts: 0,
            last_valid_ns: now_ns,
            last_fragment_ns: now_ns,
        };
        proof {
            assert(r@ =~= (ReaderModel {
                expected: match expected_size {
                    Some(e) => Some(e as nat),
                    None => None,
                },
                acc: Seq::<u8>::empty(),
                total: 0,
                packets: 0,
                timeouts: 0,
                last_valid: now_ns as nat,
                last_fragment: now_ns as nat,
            }));
        }
        r
    }

    /// The checks before each read. `Some(result)` ends the
    /// connection; `None` continues, possibly after discarding a stale
    /// partial frame.
    pub fn pre_read(&mut self, stop_requested: bool, now_ns: u64) -> (r: Option<ConnectionResult>)
        requires
            old(self).wf(),
        ensures
            final(self).wf(),
            final(self)@ == pre_read_step(old(self)@, stop_requested, now_ns as nat).0,
            match r {
                Some(res) => Some(res@) == pre_read_step(
                    old(self)@,
                    stop_requested,
                    now_ns as nat,
                ).1,
                None => pre_read_step(old(self)@, stop_requested, now_ns as nat).1 is None,
            },
    {
        if stop_requested {
            return Some(ConnectionResult::ServerStopped);
        }
        let since_valid: u64 = if now_ns >= self.last_valid_ns {
            now_ns - self.last_valid_ns
        } else {
            0
        };
        if since_valid > INACTIVITY_TIMEOUT_NS {
            let secs = since_valid / 1_000_000_000;
            let mut msg = String::from_str("no data for ");
            let num = crate::numfmt::u64_to_string(secs);
            msg.append(num.as_str());
            msg.append("s");
            proof {
                reveal_strlit("no data for ");
                reveal_strlit("s");
                assert(msg@ =~= inactivity_reason(secs as nat));
            }
            return Some(ConnectionResult::Timeout(msg));
        }
        let since_fragment: u64 = if now_ns >= self.last_fragment_ns {
            now_ns - self.last_fragment_ns
        } else {
            0
        };
        if self.accumulator.len() > 0 && since_fragment > FRAGMENT_CLEAR_NS {
            self.accumulator.clear();
            self.last_fragment_ns = now_ns;
            proof {
                assert(self@ =~= pre_read_step(old(self)@, stop_requested, now_ns as nat).0);
            }
            return None;
        }
        None
    }

    /// Advances the reader by one read outcome.
    pub fn on_read(&mut self, event: ReadEvent, now_ns: u64) -> (step: ReadStep)
        requires
            old(self).wf(),
        ensures
            final(self).wf(),
            final(self)@ == read_step(old(self)@, event@, now_ns as nat).0,
            step@ == read_step(old(self)@, event@, now_ns as nat).1,
    {
        match event {
            ReadEvent::Closed => ReadStep::Exit(ConnectionResult::Normal(self.total_bytes)),
            ReadEvent::Failed(msg) => ReadStep::Exit(ConnectionResult::Error(msg)),
            ReadEvent::TimedOut => {
                self.consecutive_timeouts = if self.consecutive_timeouts
                    >= MAX_CONSECUTIVE_TIMEOUTS {
                    self.consecutive_timeouts
                } else {
                    self.consecutive_timeouts + 1
                };
                if self.consecutive_timeouts >= MAX_CONSECUTIVE_TIMEOUTS {
                    let msg = String::from_str("3 consecutive read timeouts");
                    proof {
                        reveal_strlit("3 consecutive read timeouts");
                    }
                    ReadStep::Exit(ConnectionResult::Timeout(msg))
                } else {
                    ReadStep::Continue
                }
            },
            ReadEvent::Data(chunk) => {
                self.consecutive_timeouts = 0;
                self.total_bytes = if self.total_bytes as u128 + chunk.len() as u128
                    > u64::MAX as u128 {
                    u64::MAX
                } else {
                    self.total_bytes + chunk.len() as u64
                };
                self.last_fragment_ns = now_ns;
                if chunk.len() > MAX_ACCUMULATOR_SIZE || self.accumulator.len()
                    > MAX_ACCUMULATOR_SIZE - chunk.len() {
                    // shedding protects memory against desynchronised framing
                    self.accumulator.clear();
                    proof {
                        assert(self@ =~= read_step(old(self)@, event@, now_ns as nat).0);
                    }
                    return ReadStep::Dropped;
                }
                let mut grown: Vec<u8> = Vec::new();
                core::mem::swap(&mut grown, &mut self.accumulator);
                let mut chunk_vec = chunk;
                grown.append(&mut chunk_vec);
                let publish: bool = match self.expected_size {
                    Some(e) => grown.len() >= e,
                    None => true,
                };
                if publish {
                    self.last_valid_ns = now_ns;
                    self.packet_count = if self.packet_count == u64::MAX {
                        u64::MAX
                    } else {
                        self.packet_count + 1
                    };
                    proof {
                        assert(self@ =~= read_step(old(self)@, event@, now_ns as nat).0);
                    }
                    ReadStep::Publish(grown)
                } else {
                    self.accumulator = grown;
                    proof {
                        assert(self@ =~= read_step(old(self)@, event@, now_ns as nat).0);
                    }
                    ReadStep::Continue
                }
            },
        }
    }
}

/// The reader's state after a run of data reads, ignoring the steps.
pub open spec fn run_data(m: ReaderModel, chunks: Seq<Seq<u8>>, now: nat) -> ReaderModel
    decreases chunks.len(),
{
    if chunks.len() == 0 {
        m
    } else {
        run_data(read_step(m, EventModel::Data(chunks.first()), now).0, chunks.drop_first(), now)
    }
}

/// While no frame completes, data reads only concatenate: the
/// accumulator holds exactly the bytes received so far.
proof fn lemma_run_data_accumulates(m: ReaderModel, chunks: Seq<Seq<u8>>, now: nat)
    requires
        m.expected is Some,
        m.acc.len() + chunks.flatten().len() < m.expected.unwrap(),
        m.acc.len() + chunks.flatten().len() <= MAX_ACCUMULATOR_SIZE,
    ensures
        run_data(m, chunks, now).acc =~= m.acc + chunks.flatten(),
        run_data(m, chunks, now).expected == m.expected,
    decreases chunks.len(),
{
    if chunks.len() == 0 {
        assert(chunks.flatten() =~= Seq::<u8>::empty());
        assert(m.acc + chunks.flatten() =~= m.acc);
    } else {
        let c = chunks.first();
        let rest = chunks.drop_first();
        assert(chunks.flatten() == c + rest.flatten());
        let e = m.expected.unwrap();
        assert(c.len() + rest.flatten().len() == chunks.flatten().len());
        let (m1, step) = read_step(m, EventModel::Data(c), now);
        assert(m.acc.len() + c.len() <= MAX_ACCUMULATOR_SIZE);
        assert((m.acc + c).len() < e);
        assert(m1.acc == m.acc + c);
        assert(m1.expected == m.expected);
        lemma_run_data_accumulates(m1, rest, now);
        assert((m.acc + c) + rest.flatten() =~= m.acc + (c + rest.flatten()));
    }
}

/// However the transport fragments one frame, the reader publishes a
/// single parse input equal to the bytes delivered in one read: every
/// proper prefix of the chunks leaves it accumulating, and the chunk
/// that completes the frame publishes the whole concatenation, with
/// the accumulator empty afterwards.
pub proof fn lemma_fragmented_frame(m: ReaderModel, chunks: Seq<Seq<u8>>, now: nat)
    requires
        m.expected is Some,
        m.expected.unwrap() > 0,
        m.acc.len() == 0,
        chunks.len() >= 1,
        forall|i: int|
            0 <= i < chunks.len() ==> (#[trigger] chunks.take(i).flatten()).len()
                < m.expected.unwrap(),
        chunks.flatten().len() >= m.expected.unwrap(),
        chunks.flatten().len() <= MAX_ACCUMULATOR_SIZE,
    ensures
        ({
            let before = run_data(m, chunks.take(chunks.len() - 1), now);
            let (after, step) = read_step(before, EventModel::Data(chunks.last()), now);
            step == StepModel::Publish(chunks.flatten()) && after.acc.len() == 0
        }),
{
    let n = chunks.len() as int;
    let head = chunks.take(n - 1);
    vstd::seq_lib::lemma_flatten_concat(head, seq![chunks.last()]);
    assert(head + seq![chunks.last()] =~= chunks);
    seq![chunks.last()].lemma_flatten_one_element();
    assert(chunks.flatten() == head.flatten() + chunks.last());
    assert(head.flatten().len() < m.expected.unwrap());
    lemma_run_data_accumulates(m, head, now);
    let before = run_data(m, head, now);
    assert(before.acc =~= head.flatten());
    assert(before.acc.len() + chunks.last().len() == chunks.flatten().len());
    let (after, step) = read_step(before, EventModel::Data(chunks.last()), now);
    assert(before.acc + chunks.last() =~= chunks.flatten());
}

/// A frame of exactly the schema size arriving in one read is
/// published at once, and the accumulator is empty afterwards.
pub proof fn lemma_exact_frame(m: ReaderModel, chunk: Seq<u8>, now: nat)
    requires
        m.acc.len() == 0,
        m.expected == Some(chunk.len()),
        0 < chunk.len() <= MAX_ACCUMULATOR_SIZE,
    ensures
        read_step(m, EventModel::Data(chunk), now).1 == StepModel::Publish(chunk),
        read_step(m, EventModel::Data(chunk), now).0.acc.len() == 0,
{
    assert(m.acc + chunk =~= chunk);
}

/// A chunk that would burst the accumulator cap is shed, the
/// connection stays up, and the next read starts from an empty
/// accumulator.
pub proof fn lemma_overflow_shed(m: ReaderModel, chunk: Seq<u8>, now: nat)
    requires
        m.acc.len() + chunk.len() > MAX_ACCUMULATOR_SIZE,
    ensures
        read_step(m, EventModel::Data(chunk), now).1 == StepModel::Dropped,
        read_step(m, EventModel::Data(chunk), now).0.acc.len() == 0,
{
}

/// A zero-length read — the peer closing — ends the connection with
/// `Normal` and the running byte total.
pub proof fn lemma_zero_read(m: ReaderModel, now: nat)
    ensures
        read_step(m, EventModel::Closed, now).1 == StepModel::Exit(
            ResultModel::Normal(m.total),
        ),
{
}

/// Transport independence, end to end: however one frame's bytes are
/// split into reads, the bytes the reader publishes are the whole
/// frame, so the parser — a function of the bytes alone — produces
/// the same ordered variables as for a single full read.
pub proof fn lemma_parse_transport_independent(
    m: ReaderModel,
    chunks: Seq<Seq<u8>>,
    now: nat,
    blocks: Seq<crate::parser::DataBlockView>,
)
    requires
        m.expected is Some,
        m.expected.unwrap() > 0,
        m.acc.len() == 0,
        chunks.len() >= 1,
        forall|i: int|
            0 <= i < chunks.len() ==> (#[trigger] chunks.take(i).flatten()).len()
                < m.expected.unwrap(),
        chunks.flatten().len() >= m.expected.unwrap(),
        chunks.flatten().len() <= MAX_ACCUMULATOR_SIZE,
    ensures
        ({
            let before = run_data(m, chunks.take(chunks.len() - 1), now);
            let (_, step) = read_step(before, EventModel::Data(chunks.last()), now);
            step matches StepModel::Publish(frame) && crate::parser::parse_with_config_spec(
                frame,
                blocks,
            ) == crate::parser::parse_with_config_spec(chunks.flatten(), blocks)
        }),
{
    lemma_fragmented_frame(m, chunks, now);
}

} // verus!
