//! Decisions of the concurrent downloader: how a file is split into chunks,
//! what each chunk request asks for, where each piece of a chunk's body is
//! written, and when a chunk is handed back for another try.

use vstd::prelude::*;
use crate::byte_range::{
    chunk_ranges, format_range, lemma_chunk_ranges_closed_form,
    lemma_chunk_ranges_cover, lemma_chunk_ranges_unfold, range_header,
};
use crate::decimal::{parse_u64, parse_u64_spec};

verus! {

/// What can go wrong while downloading.
#[derive(Debug, Clone, Copy, PartialEq, Eq, Structural)]
pub enum AsyncErrors {
    InvalidChunkSize,
    UnreadableBytes,
    ReqFetchError,
    RangesUnsupported,
    ParseInt,
    UnexpectedServerResponse,
}

/// The byte ranges `(first, last)` of `start..=end`, handed out one at a time,
/// each `chunk_size` bytes long but the last.
#[derive(Debug)]
pub struct PartialRangeIter {
    start: u64,
    end: u64,
    chunk_size: u32,
}

impl View for PartialRangeIter {
    type V = Seq<(u64, u64)>;

    /// The ranges that are still to come, in order.
    closed spec fn view(&self) -> Seq<(u64, u64)> {
        chunk_ranges(self.start as int, self.end as int, self.chunk_size as int)
    }
}

/// Whether the next step of an iteration whose remaining ranges are `rest`
/// stays within 64-bit arithmetic: the next range does not end at the last
/// 64-bit offset, and the remaining ranges are not the whole 64-bit space.
pub open spec fn next_range_fits(rest: Seq<(u64, u64)>) -> bool {
    rest.len() > 0 ==> rest[0].1 < u64::MAX && !(rest[0].0 == 0 && rest.last().1 == u64::MAX)
}

impl PartialRangeIter {
    #[verifier::type_invariant]
    spec fn inv(self) -> bool {
        self.chunk_size > 0
    }

    /// The ranges of `start..=end` in chunks of `chunk_size` bytes; a chunk
    /// size of zero is refused.
    pub fn new(start: u64, end: u64, chunk_size: u32) -> (r: Result<Self, AsyncErrors>)
        ensures
            chunk_size == 0 <==> r is Err,
            r matches Err(e) ==> e == AsyncErrors::InvalidChunkSize,
            r matches Ok(it) ==> it@ == chunk_ranges(start as int, end as int, chunk_size as int),
    {
        if chunk_size == 0 {
            return Err(AsyncErrors::InvalidChunkSize);
        }
        Ok(PartialRangeIter { start, end, chunk_size })
    }

    /// Hands out the next range, or `None` once `end` has been reached.
    pub fn next(&mut self) -> (r: Option<(u64, u64)>)
        requires
            next_range_fits(old(self)@),
        ensures
            old(self)@.len() == 0 ==> r is None && final(self)@ == old(self)@,
            old(self)@.len() > 0 ==> r == Some(old(self)@[0]) && final(self)@ == old(
                self,
            )@.drop_first(),
    {
        proof {
            use_type_invariant(&*self);
        }
        if self.start > self.end {
            None
        } else {
            proof {
                lemma_chunk_ranges_cover(self.start as int, self.end as int, self.chunk_size as int);
                lemma_chunk_ranges_unfold(self.start as int, self.end as int, self.chunk_size as int);
            }
            let prev_start = self.start;
            let left = self.end - self.start + 1;
            let step = if (self.chunk_size as u64) < left {
                self.chunk_size as u64
            } else {
                left
            };
            self.start = self.start + step;
            Some((prev_start, self.start - 1))
        }
    }
}

/// One chunk of a download: the inclusive byte range it covers and its
/// position in the sequence of chunks.
#[derive(Copy, Clone, Debug)]
pub struct ChunkConfig {
    pub bytes_range: [u64; 2],
    pub i: usize,
}

impl ChunkConfig {
    /// The number of bytes in the chunk.
    pub fn chunk_size(&self) -> (n: u64)
        requires
            self.bytes_range@[0] <= self.bytes_range@[1],
            self.bytes_range@[1] - self.bytes_range@[0] < u64::MAX,
        ensures
            n == self.bytes_range@[1] - self.bytes_range@[0] + 1,
    {
        self.bytes_range[1] - self.bytes_range[0] + 1
    }

    /// The `Range` header value that asks for this chunk.
    pub fn header_value(&self) -> (s: String)
        ensures
            s@ == range_header(self.bytes_range@[0], self.bytes_range@[1]),
    {
        format_range(self.bytes_range[0], self.bytes_range[1])
    }
}

/// The length that a `Content-Length` value states; text that is not a
/// decimal number fitting in 64 bits is refused.
pub fn parse_content_length(value: &str) -> (r: Result<u64, AsyncErrors>)
    ensures
        parse_u64_spec(value@) matches Some(n) ==> r == Ok::<u64, AsyncErrors>(n),
        parse_u64_spec(value@) is None ==> r == Err::<u64, AsyncErrors>(AsyncErrors::ParseInt),
{
    match parse_u64(value) {
        Some(n) => Ok(n),
        None => Err(AsyncErrors::ParseInt),
    }
}

/// Whether `c` is chunk `i` of the ranges `r`.
pub open spec fn is_planned_chunk(c: ChunkConfig, r: Seq<(u64, u64)>, i: int) -> bool {
    &&& c.i == i
    &&& c.bytes_range@[0] == r[i].0
    &&& c.bytes_range@[1] == r[i].1
}

/// The ranges a file of `length` bytes is fetched in, for a chunk size as the
/// downloader takes it: truncated to 32 bits.
pub open spec fn planned_ranges(length: u64, chunk_size: usize) -> Seq<(u64, u64)> {
    chunk_ranges(0, length - 1, (chunk_size as u32) as int)
}

/// The chunks of a file of `length` bytes, numbered from zero, in chunks of
/// `chunk_size` bytes taken as a 32-bit number.
pub fn plan_chunks(length: u64, chunk_size: usize) -> (plan: Vec<ChunkConfig>)
    requires
        length > 0,
        chunk_size as u32 > 0,
    ensures
        plan@.len() == planned_ranges(length, chunk_size).len(),
        forall|i: int|
            0 <= i < plan@.len() ==> #[trigger] is_planned_chunk(
                plan@[i],
                planned_ranges(length, chunk_size),
                i,
            ),
{
    let ghost all = planned_ranges(length, chunk_size);
    let mut iter = match PartialRangeIter::new(0, length - 1, chunk_size as u32) {
        Ok(it) => it,
        Err(_) => {
            return Vec::new();
        },
    };
    let mut plan: Vec<ChunkConfig> = Vec::new();
    proof {
        lemma_chunk_ranges_closed_form(0, length - 1, (chunk_size as u32) as int);
        assert(all.skip(0) =~= all);
    }
    loop
        invariant
            iter@ == all.skip(plan@.len() as int),
            plan@.len() <= all.len(),
            all == planned_ranges(length, chunk_size),
            length > 0,
            chunk_size as u32 > 0,
            forall|i: int| 0 <= i < all.len() ==> #[trigger] all[i].1 <= length - 1,
            forall|i: int|
                0 <= i < plan@.len() ==> #[trigger] is_planned_chunk(plan@[i], all, i),
        ensures
            plan@.len() == all.len(),
            forall|i: int|
                0 <= i < plan@.len() ==> #[trigger] is_planned_chunk(plan@[i], all, i),
        decreases all.len() - plan@.len(),
    {
        let ghost k = plan@.len() as int;
        proof {
            if iter@.len() > 0 {
                assert(iter@[0] == all[k]);
                assert(iter@.last() == all[all.len() - 1]);
            }
        }
        match iter.next() {
            None => {
                assert(all.len() == k);
                break;
            },
            Some(range) => {
                let i = plan.len();
                let chunk = ChunkConfig { bytes_range: [range.0, range.1], i };
                plan.push(chunk);
                assert(is_planned_chunk(plan@[k], all, k));
                assert(all.skip(k).drop_first() =~= all.skip(k + 1));
            },
        }
    }
    plan
}

/// A planned chunk is written where its range starts: chunk `i` of a file
/// split with a chunk size below 2^32 starts at byte `i * chunk_size`, the
/// offset that a chunk download of that size writes it at.
pub proof fn lemma_planned_chunk_offset(length: u64, chunk_size: usize, i: int)
    requires
        length > 0,
        0 < chunk_size <= u32::MAX,
        0 <= i < planned_ranges(length, chunk_size).len(),
    ensures
        planned_ranges(length, chunk_size)[i].0 == i * chunk_size,
{
    assert((chunk_size as u32) as int == chunk_size as int);
    lemma_chunk_ranges_closed_form(0, length - 1, chunk_size as int);
}

/// The planned chunks of a file cover it exactly: chunk 0 starts at byte 0,
/// the last chunk ends at byte `length - 1`, each chunk starts right after
/// the one before, and all chunks but the last are `chunk_size` bytes long
/// (taken as a 32-bit number) while the last is no longer.
pub proof fn lemma_plan_covers_file(length: u64, chunk_size: usize)
    requires
        length > 0,
        chunk_size as u32 > 0,
    ensures
        ({
            let r = planned_ranges(length, chunk_size);
            let size = (chunk_size as u32) as int;
            &&& r.len() > 0
            &&& r[0].0 == 0
            &&& r.last().1 == length - 1
            &&& forall|i: int|
                0 <= i < r.len() ==> #[trigger] r[i].0 <= r[i].1 && r[i].1 - r[i].0 + 1 <= size
            &&& forall|i: int|
                0 <= i < r.len() - 1 ==> #[trigger] r[i].1 - r[i].0 + 1 == size && r[i + 1].0
                    == r[i].1 + 1
        }),
{
    lemma_chunk_ranges_cover(0, length - 1, (chunk_size as u32) as int);
}

/// Whether a status code tells that a ranged request is served: `200 OK` or
/// `206 Partial Content`.
pub open spec fn resumable_status(status: u16) -> bool {
    status == 200 || status == 206
}

/// Whether a server can serve byte ranges, judged from the reply to a probe
/// request for `bytes=0-1`: `None` when the request could not be sent, else
/// the reply's status code.
pub fn check_partial_downloadable(probe: Option<u16>) -> (r: Result<bool, AsyncErrors>)
    ensures
        probe is None ==> r == Err::<bool, AsyncErrors>(AsyncErrors::ReqFetchError),
        probe matches Some(status) ==> r == Ok::<bool, AsyncErrors>(resumable_status(status)),
        probe matches Some(status) ==> (r == Ok::<bool, AsyncErrors>(true) <==> (status == 200
            || status == 206)),
        probe matches Some(status) ==> (r == Ok::<bool, AsyncErrors>(false) <==> (status != 200
            && status != 206)),
{
    match probe {
        None => Err(AsyncErrors::ReqFetchError),
        Some(status) => Ok(status == 200 || status == 206),
    }
}

/// Only `200 OK` and `206 Partial Content` count as range support: every
/// other status code, 5xx and 4xx among them, does not.
pub proof fn lemma_resumable_status_exactly(status: u16)
    ensures
        resumable_status(status) <==> (status == 200 || status == 206),
        status >= 300 ==> !resumable_status(status),
        status < 200 ==> !resumable_status(status),
{
}

/// How a chunk download that is not done answers each event: a failed
/// request hands back the download's own chunk for another try and ends the
/// download, first try or retried task alike; the end of the body finishes
/// the download without handing anything back; a piece of the body is
/// written at the chunk's offset plus what was counted before, and the
/// download goes on with the same chunk and offset.
pub proof fn lemma_chunk_step_answers(s: ChunkDownload, e: ChunkEvent)
    requires
        !s.done,
    ensures
        e == ChunkEvent::RequestFailed ==> chunk_step(s, e).1 == ChunkAction::Retry(s.config)
            && chunk_step(s, e).0.done && chunk_step(s, e).0.config == s.config,
        e == ChunkEvent::BodyEnd ==> chunk_step(s, e).1 == ChunkAction::Finished
            && chunk_step(s, e).0.done,
        chunk_step(s, e).1 is Retry ==> e == ChunkEvent::RequestFailed,
        chunk_step(s, e).1 is Finished ==> e == ChunkEvent::BodyEnd,
        e is BodyChunk ==> chunk_step(s, e).1 == ChunkAction::WriteAt((s.start + s.written) as u64)
            && !chunk_step(s, e).0.done && chunk_step(s, e).0.config == s.config
            && chunk_step(s, e).0.start == s.start,
        chunk_step(s, e).1 is WriteAt ==> e is BodyChunk,
{
}

/// How a download task is carried out.
#[derive(Debug, Clone, Copy, PartialEq, Eq, Structural)]
pub enum TaskRoute {
    /// In chunks, over several connections.
    Chunked,
    /// In one piece.
    Serial,
    /// Not at all: the server could not be reached.
    Skip,
}

/// The way a task is carried out, from what the range probe found.
pub fn route_task(probe: Result<bool, AsyncErrors>) -> (route: TaskRoute)
    ensures
        probe == Ok::<bool, AsyncErrors>(true) ==> route == TaskRoute::Chunked,
        probe == Ok::<bool, AsyncErrors>(false) ==> route == TaskRoute::Serial,
        probe is Err ==> route == TaskRoute::Skip,
{
    match probe {
        Ok(true) => TaskRoute::Chunked,
        Ok(false) => TaskRoute::Serial,
        Err(_) => TaskRoute::Skip,
    }
}

/// What happens while one chunk is fetched.
#[derive(Debug, Clone, Copy, PartialEq, Eq, Structural)]
pub enum ChunkEvent {
    /// The ranged request could not be sent or answered.
    RequestFailed,
    /// A piece of the reply's body arrived, this many bytes long.
    BodyChunk(u64),
    /// The reply's body is complete.
    BodyEnd,
}

/// What the caller does next for a chunk.
#[derive(Debug, Clone, Copy)]
pub enum ChunkAction {
    /// Hand the chunk back as a task of its own, to be tried again.
    Retry(ChunkConfig),
    /// Write the piece that just arrived at this offset of the output file.
    WriteAt(u64),
    /// Nothing more: the chunk is done.
    Finished,
}

/// The state of one chunk download.
#[derive(Debug, Clone, Copy)]
pub struct ChunkDownload {
    /// The chunk being fetched.
    pub config: ChunkConfig,
    /// The offset of the output file where the chunk begins.
    pub start: u64,
    /// How many bytes of the body are counted as written so far.
    pub written: u64,
    /// Whether each piece is written after the one before; a chunk taken
    /// from a retried task writes every piece at `start`.
    pub advances: bool,
    /// Whether the download is over.
    pub done: bool,
}

/// The chunk a download fetches: the one it is given, else the one its task
/// holds.
pub open spec fn chosen_chunk(chunk_config: Option<ChunkConfig>, task_chunk: Option<ChunkConfig>) -> ChunkConfig {
    match chunk_config {
        Some(c) => c,
        None => task_chunk->0,
    }
}

/// Whether `e` can be taken in state `s` within 64-bit offsets.
pub open spec fn chunk_event_fits(s: ChunkDownload, e: ChunkEvent) -> bool {
    match e {
        ChunkEvent::BodyChunk(len) => !s.done ==> s.start + s.written <= u64::MAX && (s.advances
            ==> s.written + len <= u64::MAX),
        _ => true,
    }
}

/// One step of a chunk download: the next state and what to do.
pub open spec fn chunk_step(s: ChunkDownload, e: ChunkEvent) -> (ChunkDownload, ChunkAction) {
    if s.done {
        (s, ChunkAction::Finished)
    } else {
        match e {
            ChunkEvent::RequestFailed => (ChunkDownload { done: true, ..s }, ChunkAction::Retry(s.config)),
            ChunkEvent::BodyChunk(len) => (
                ChunkDownload {
                    written: if s.advances {
                        (s.written + len) as u64
                    } else {
                        s.written
                    },
                    ..s
                },
                ChunkAction::WriteAt((s.start + s.written) as u64),
            ),
            ChunkEvent::BodyEnd => (ChunkDownload { done: true, ..s }, ChunkAction::Finished),
        }
    }
}

/// The states and actions that a sequence of events leads to.
pub open spec fn chunk_run(s: ChunkDownload, events: Seq<ChunkEvent>) -> (ChunkDownload, Seq<ChunkAction>)
    decreases events.len(),
{
    if events.len() == 0 {
        (s, Seq::empty())
    } else {
        let (next, act) = chunk_step(s, events[0]);
        let (last, acts) = chunk_run(next, events.drop_first());
        (last, seq![act] + acts)
    }
}

impl ChunkDownload {
    /// A download of `chunk_config`, or, when there is none, of the chunk of
    /// the task (`task_chunk`); the chunk begins at byte `i * chunk_size` of
    /// the output file.
    pub fn new(chunk_config: Option<ChunkConfig>, task_chunk: Option<ChunkConfig>, chunk_size: usize) -> (d: ChunkDownload)
        requires
            chunk_config is Some || task_chunk is Some,
            chosen_chunk(chunk_config, task_chunk).i * chunk_size <= usize::MAX,
        ensures
            d.config == chosen_chunk(chunk_config, task_chunk),
            d.start == d.config.i * chunk_size,
            d.written == 0,
            d.advances == chunk_config is Some,
            !d.done,
    {
        let (config, advances) = match chunk_config {
            Some(c) => (c, true),
            None => match task_chunk {
                Some(c) => (c, false),
                None => {
                    return ChunkDownload {
                        config: ChunkConfig { bytes_range: [0, 0], i: 0 },
                        start: 0,
                        written: 0,
                        advances: true,
                        done: false,
                    };
                },
            },
        };
        let start = (config.i * chunk_size) as u64;
        ChunkDownload { config, start, written: 0, advances, done: false }
    }

    /// The `Range` header value of the request for this chunk.
    pub fn range_header(&self) -> (s: String)
        ensures
            s@ == range_header(self.config.bytes_range@[0], self.config.bytes_range@[1]),
    {
        self.config.header_value()
    }

    /// Whether `event` can be taken now within 64-bit offsets.
    pub fn accepts(&self, event: ChunkEvent) -> (b: bool)
        ensures
            b == chunk_event_fits(*self, event),
    {
        match event {
            ChunkEvent::BodyChunk(len) => {
                if self.done {
                    true
                } else {
                    let room = u64::MAX - self.written;
                    self.start <= room && (!self.advances || len <= room)
                }
            },
            _ => true,
        }
    }

    /// Takes `event` and tells what to do.
    pub fn step(&mut self, event: ChunkEvent) -> (action: ChunkAction)
        requires
            chunk_event_fits(*old(self), event),
        ensures
            (*final(self), action) == chunk_step(*old(self), event),
    {
        if self.done {
            return ChunkAction::Finished;
        }
        match event {
            ChunkEvent::RequestFailed => {
                self.done = true;
                ChunkAction::Retry(self.config)
            },
            ChunkEvent::BodyChunk(len) => {
                let at = self.start + self.written;
                if self.advances {
                    self.written = self.written + len;
                }
                ChunkAction::WriteAt(at)
            },
            ChunkEvent::BodyEnd => {
                self.done = true;
                ChunkAction::Finished
            },
        }
    }
}

/// The number of bytes in the first `k` pieces.
pub open spec fn pieces_total(lens: Seq<u64>, k: int) -> int
    decreases k,
{
    if k <= 0 {
        0
    } else {
        pieces_total(lens, k - 1) + lens[k - 1]
    }
}

/// The events of a body arriving in pieces of the given lengths.
pub open spec fn body_pieces(lens: Seq<u64>) -> Seq<ChunkEvent> {
    lens.map_values(|len: u64| ChunkEvent::BodyChunk(len))
}

/// A chunk's body is written back to back: piece `k` lands right after the
/// pieces before it, starting at the chunk's offset, and afterwards the
/// download counts every byte as written.
pub proof fn lemma_pieces_written_back_to_back(s: ChunkDownload, lens: Seq<u64>)
    requires
        !s.done,
        s.advances,
        s.start + s.written + pieces_total(lens, lens.len() as int) <= u64::MAX,
    ensures
        ({
            let (last, acts) = chunk_run(s, body_pieces(lens));
            &&& acts.len() == lens.len()
            &&& forall|k: int|
                0 <= k < lens.len() ==> #[trigger] acts[k] == ChunkAction::WriteAt(
                    (s.start + s.written + pieces_total(lens, k)) as u64,
                )
            &&& last.written == s.written + pieces_total(lens, lens.len() as int)
            &&& !last.done
            &&& last.config == s.config
            &&& last.start == s.start
        }),
    decreases lens.len(),
{
    lemma_pieces_total_nonneg(lens, lens.len() as int);
    if lens.len() > 0 {
        let ev = body_pieces(lens);
        let rest = lens.drop_first();
        let (next, act) = chunk_step(s, ev[0]);
        assert(ev.drop_first() =~= body_pieces(rest));
        lemma_pieces_total_drop_first(lens, lens.len() as int);
        lemma_pieces_total_nonneg(rest, rest.len() as int);
        assert(next.written == s.written + lens[0]);
        lemma_pieces_written_back_to_back(next, rest);
        let (last, acts) = chunk_run(s, ev);
        let (last2, acts2) = chunk_run(next, body_pieces(rest));
        assert(acts == seq![act] + acts2);
        assert forall|k: int| 0 <= k < lens.len() implies #[trigger] acts[k] == ChunkAction::WriteAt(
            (s.start + s.written + pieces_total(lens, k)) as u64,
        ) by {
            if k > 0 {
                assert(acts[k] == acts2[k - 1]);
                lemma_pieces_total_drop_first(lens, k);
            }
        }
    }
}

/// A planned chunk's body lands exactly on the chunk's range: when a chunk
/// download starts as `ChunkDownload::new` starts it for planned chunk `i`
/// (chunk size below 2^32) and the body arrives in pieces that add up to the
/// chunk's length, piece `k` is written at the range's first byte plus the
/// lengths before it, and the writes end right after the range's last byte.
pub proof fn lemma_chunk_body_lands_on_range(
    length: u64,
    chunk_size: usize,
    d: ChunkDownload,
    lens: Seq<u64>,
)
    requires
        length > 0,
        0 < chunk_size <= u32::MAX,
        0 <= d.config.i < planned_ranges(length, chunk_size).len(),
        is_planned_chunk(d.config, planned_ranges(length, chunk_size), d.config.i as int),
        d.start == d.config.i * chunk_size,
        d.written == 0,
        d.advances,
        !d.done,
        pieces_total(lens, lens.len() as int) == d.config.bytes_range@[1] - d.config.bytes_range@[0]
            + 1,
    ensures
        ({
            let (last, acts) = chunk_run(d, body_pieces(lens));
            &&& acts.len() == lens.len()
            &&& forall|k: int|
                0 <= k < lens.len() ==> #[trigger] acts[k] == ChunkAction::WriteAt(
                    (d.config.bytes_range@[0] + pieces_total(lens, k)) as u64,
                )
            &&& last.start + last.written == d.config.bytes_range@[1] + 1
        }),
{
    let r = planned_ranges(length, chunk_size);
    let i = d.config.i as int;
    assert(r[i].0 == i * chunk_size && r[i].1 <= length - 1) by {
        lemma_planned_chunk_offset(length, chunk_size, i);
        lemma_chunk_ranges_closed_form(0, length - 1, (chunk_size as u32) as int);
    }
    lemma_pieces_written_back_to_back(d, lens);
}

proof fn lemma_pieces_total_nonneg(lens: Seq<u64>, k: int)
    ensures
        pieces_total(lens, k) >= 0,
    decreases k,
{
    if k > 0 {
        lemma_pieces_total_nonneg(lens, k - 1);
    }
}

proof fn lemma_pieces_total_drop_first(lens: Seq<u64>, k: int)
    requires
        1 <= k <= lens.len(),
    ensures
        pieces_total(lens, k) == lens[0] + pieces_total(lens.drop_first(), k - 1),
    decreases k,
{
    if k > 1 {
        lemma_pieces_total_drop_first(lens, k - 1);
        assert(lens.drop_first()[k - 2] == lens[k - 1]);
        assert(pieces_total(lens.drop_first(), k - 1) == pieces_total(lens.drop_first(), k - 2)
            + lens.drop_first()[k - 2]);
    } else {
        assert(pieces_total(lens, 0) == 0);
        assert(pieces_total(lens.drop_first(), 0) == 0);
    }
}

/// A chunk taken from a retried task writes every piece of its body at the
/// chunk's offset.
pub proof fn lemma_retried_pieces_overlap(s: ChunkDownload, lens: Seq<u64>)
    requires
        !s.done,
        !s.advances,
        s.start + s.written <= u64::MAX,
    ensures
        ({
            let (last, acts) = chunk_run(s, body_pieces(lens));
            &&& acts.len() == lens.len()
            &&& forall|k: int|
                0 <= k < lens.len() ==> #[trigger] acts[k] == ChunkAction::WriteAt(
                    (s.start + s.written) as u64,
                )
            &&& last == s
        }),
    decreases lens.len(),
{
    if lens.len() > 0 {
        let ev = body_pieces(lens);
        let rest = lens.drop_first();
        assert(ev.drop_first() =~= body_pieces(rest));
        lemma_retried_pieces_overlap(s, rest);
        let (last, acts) = chunk_run(s, ev);
        let (last2, acts2) = chunk_run(s, body_pieces(rest));
        assert forall|k: int| 0 <= k < lens.len() implies #[trigger] acts[k] == ChunkAction::WriteAt(
            (s.start + s.written) as u64,
        ) by {
            if k > 0 {
                assert(acts[k] == acts2[k - 1]);
            }
        }
    }
}

/// Once a chunk download is done, every further event leaves it as it is and
/// asks for nothing more.
pub proof fn lemma_done_is_final(s: ChunkDownload, events: Seq<ChunkEvent>)
    requires
        s.done,
    ensures
        ({
            let (last, acts) = chunk_run(s, events);
            &&& last == s
            &&& forall|k: int| 0 <= k < acts.len() ==> #[trigger] acts[k] == ChunkAction::Finished
            &&& acts.len() == events.len()
        }),
    decreases events.len(),
{
    if events.len() > 0 {
        lemma_done_is_final(s, events.drop_first());
        let (last, acts) = chunk_run(s, events);
        let (last2, acts2) = chunk_run(s, events.drop_first());
        assert forall|k: int| 0 <= k < acts.len() implies #[trigger] acts[k] == ChunkAction::Finished by {
            if k > 0 {
                assert(acts[k] == acts2[k - 1]);
            }
        }
    }
}

} // verus!
