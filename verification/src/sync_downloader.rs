//! Decisions of the one-connection downloader: which ranges it asks for, in
//! what order, and how replies and failures end a download.

use vstd::prelude::*;
use crate::byte_range::{
    chunk_ranges, format_range, lemma_chunk_ranges_closed_form, lemma_chunk_ranges_cover,
    lemma_chunk_ranges_unfold, range_header,
};
use crate::decimal::{parse_u64, parse_u64_spec};

verus! {

/// What can go wrong while downloading.
#[allow(non_camel_case_types)]
#[derive(Debug, Clone, Copy, PartialEq, Eq, Structural)]
pub enum SyncErrors {
    INVALID_CHUNK_SIZE,
    UNREADABLE_BYTES,
    REQ_FETCH_ERROR,
    RANGES_UNSUPPORTED,
    PARSE_INT,
    UNEXPECTED_SERVER_RESPONSE,
}

/// The byte ranges of `start..=end`, handed out one at a time as `Range`
/// header values, each `buffer_size` bytes long but the last.
#[derive(Debug)]
pub struct PartialRangeIter {
    start: u64,
    end: u64,
    buffer_size: u32,
}

impl View for PartialRangeIter {
    type V = Seq<(u64, u64)>;

    /// The ranges that are still to come, in order.
    closed spec fn view(&self) -> Seq<(u64, u64)> {
        chunk_ranges(self.start as int, self.end as int, self.buffer_size as int)
    }
}

/// Whether the next step of an iteration whose remaining ranges are `rest`
/// stays within 64-bit arithmetic: the next range does not end at the last
/// 64-bit offset, and the remaining ranges are not the whole 64-bit space.
pub open spec fn next_range_fits(rest: Seq<(u64, u64)>) -> bool {
    rest.len() > 0 ==> rest[0].1 < u64::MAX && !(rest[0].0 == 0 && rest.last().1 == u64::MAX)
}

impl PartialRangeIter {
    #[verifier::type_invariant]
    spec fn inv(self) -> bool {
        self.buffer_size > 0
    }

    /// The ranges of `start..=end` in pieces of `buffer_size` bytes; a size of
    /// zero is refused.
    pub fn new(start: u64, end: u64, buffer_size: u32) -> (r: Result<Self, SyncErrors>)
        ensures
            buffer_size == 0 <==> r is Err,
            r matches Err(e) ==> e == SyncErrors::INVALID_CHUNK_SIZE,
            r matches Ok(it) ==> it@ == chunk_ranges(start as int, end as int, buffer_size as int),
    {
        if buffer_size == 0 {
            return Err(SyncErrors::INVALID_CHUNK_SIZE);
        }
        Ok(PartialRangeIter { start, end, buffer_size })
    }

    /// The `Range` header value of the next range, or `None` once `end` has
    /// been reached.
    pub fn next(&mut self) -> (r: Option<String>)
        requires
            next_range_fits(old(self)@),
        ensures
            old(self)@.len() == 0 ==> r is None && final(self)@ == old(self)@,
            old(self)@.len() > 0 ==> (r matches Some(h) && h@ == range_header(
                old(self)@[0].0,
                old(self)@[0].1,
            )) && final(self)@ == old(self)@.drop_first(),
    {
        proof {
            use_type_invariant(&*self);
        }
        if self.start > self.end {
            None
        } else {
            proof {
                lemma_chunk_ranges_cover(self.start as int, self.end as int, self.buffer_size as int);
                lemma_chunk_ranges_unfold(self.start as int, self.end as int, self.buffer_size as int);
            }
            let prev_start = self.start;
            let left = self.end - self.start + 1;
            let step = if (self.buffer_size as u64) < left {
                self.buffer_size as u64
            } else {
                left
            };
            self.start = self.start + step;
            Some(format_range(prev_start, self.start - 1))
        }
    }
}

/// The length that a `Content-Length` value states; text that is not a
/// decimal number fitting in 64 bits is refused.
pub fn parse_content_length(value: &str) -> (r: Result<u64, SyncErrors>)
    ensures
        parse_u64_spec(value@) matches Some(n) ==> r == Ok::<u64, SyncErrors>(n),
        parse_u64_spec(value@) is None ==> r == Err::<u64, SyncErrors>(SyncErrors::PARSE_INT),
{
    match parse_u64(value) {
        Some(n) => Ok(n),
        None => Err(SyncErrors::PARSE_INT),
    }
}

/// How fetching a whole file in one request went.
#[derive(Debug, Clone, Copy, PartialEq, Eq, Structural)]
pub enum FetchOutcome {
    /// The request could not be sent or answered.
    Unreachable,
    /// The reply came but its body could not be read.
    Unreadable,
    /// The body was read.
    Received,
}

/// The result of a one-request download, from how the fetch went.
pub fn download_url_result(outcome: FetchOutcome) -> (r: Result<(), SyncErrors>)
    ensures
        outcome == FetchOutcome::Unreachable ==> r == Err::<(), SyncErrors>(SyncErrors::REQ_FETCH_ERROR),
        outcome == FetchOutcome::Unreadable ==> r == Err::<(), SyncErrors>(SyncErrors::UNREADABLE_BYTES),
        outcome == FetchOutcome::Received ==> r == Ok::<(), SyncErrors>(()),
{
    match outcome {
        FetchOutcome::Unreachable => Err(SyncErrors::REQ_FETCH_ERROR),
        FetchOutcome::Unreadable => Err(SyncErrors::UNREADABLE_BYTES),
        FetchOutcome::Received => Ok(()),
    }
}

/// Whether a status code answers a ranged request: `200 OK` or
/// `206 Partial Content`.
pub open spec fn served_status(status: u16) -> bool {
    status == 200 || status == 206
}

/// What happens during a chunked download.
#[derive(Debug, Clone, Copy, PartialEq, Eq, Structural)]
pub enum SyncEvent {
    /// The caller is ready for the next request: at the start, and after each
    /// body has been written.
    Proceed,
    /// The pending request was answered with this status code.
    Replied(u16),
    /// The pending request could not be sent or answered.
    FetchFailed,
}

/// What the caller does next in a chunked download.
#[derive(Debug)]
pub enum SyncAction {
    /// Request the range with this `Range` header value.
    Fetch(String),
    /// Append the body of the reply to the output file.
    WriteBody,
    /// Stop, with this result.
    Finish(Result<(), SyncErrors>),
}

/// A `SyncAction` with the header value as text.
pub enum SyncDecision {
    Fetch(Seq<char>),
    WriteBody,
    Finish(Result<(), SyncErrors>),
}

impl View for SyncAction {
    type V = SyncDecision;

    open spec fn view(&self) -> SyncDecision {
        match self {
            SyncAction::Fetch(h) => SyncDecision::Fetch(h@),
            SyncAction::WriteBody => SyncDecision::WriteBody,
            SyncAction::Finish(r) => SyncDecision::Finish(*r),
        }
    }
}

/// The state of a chunked download: the ranges still to fetch and, once it
/// is over, its result.
pub struct SyncState {
    pub remaining: Seq<(u64, u64)>,
    pub outcome: Option<Result<(), SyncErrors>>,
}

/// One step of a chunked download: the next state and what to do.
pub open spec fn sync_step(s: SyncState, e: SyncEvent) -> (SyncState, SyncDecision) {
    match s.outcome {
        Some(r) => (s, SyncDecision::Finish(r)),
        None => match e {
            SyncEvent::Proceed => if s.remaining.len() == 0 {
                (
                    SyncState { outcome: Some(Ok(())), ..s },
                    SyncDecision::Finish(Ok(())),
                )
            } else {
                (
                    SyncState { remaining: s.remaining.drop_first(), ..s },
                    SyncDecision::Fetch(range_header(s.remaining[0].0, s.remaining[0].1)),
                )
            },
            SyncEvent::Replied(status) => if served_status(status) {
                (s, SyncDecision::WriteBody)
            } else {
                (
                    SyncState { outcome: Some(Err(SyncErrors::UNEXPECTED_SERVER_RESPONSE)), ..s },
                    SyncDecision::Finish(Err(SyncErrors::UNEXPECTED_SERVER_RESPONSE)),
                )
            },
            SyncEvent::FetchFailed => (
                SyncState { outcome: Some(Err(SyncErrors::REQ_FETCH_ERROR)), ..s },
                SyncDecision::Finish(Err(SyncErrors::REQ_FETCH_ERROR)),
            ),
        },
    }
}

/// The state and decisions that a sequence of events leads to.
pub open spec fn sync_run(s: SyncState, events: Seq<SyncEvent>) -> (SyncState, Seq<SyncDecision>)
    decreases events.len(),
{
    if events.len() == 0 {
        (s, Seq::empty())
    } else {
        let (next, d) = sync_step(s, events[0]);
        let (last, ds) = sync_run(next, events.drop_first());
        (last, seq![d] + ds)
    }
}

/// A chunked download of a file, fetched range after range.
pub struct ChunkedDownload {
    ranges: PartialRangeIter,
    outcome: Option<Result<(), SyncErrors>>,
}

impl View for ChunkedDownload {
    type V = SyncState;

    closed spec fn view(&self) -> SyncState {
        SyncState { remaining: self.ranges@, outcome: self.outcome }
    }
}

impl ChunkedDownload {
    #[verifier::type_invariant]
    spec fn inv(self) -> bool {
        forall|i: int| 0 <= i < self.ranges@.len() ==> #[trigger] self.ranges@[i].1 < u64::MAX
    }

    /// A download of a file of `length` bytes, in requests of `chunk_size`
    /// bytes.
    pub fn new(length: u64, chunk_size: u32) -> (d: ChunkedDownload)
        requires
            length > 0,
            chunk_size > 0,
        ensures
            d@.remaining == chunk_ranges(0, length - 1, chunk_size as int),
            d@.outcome is None,
    {
        proof {
            lemma_chunk_ranges_closed_form(0, length - 1, chunk_size as int);
        }
        match PartialRangeIter::new(0, length - 1, chunk_size) {
            Ok(ranges) => ChunkedDownload { ranges, outcome: None },
            Err(_) => {
                let ranges = PartialRangeIter { start: 1, end: 0, buffer_size: 1 };
                ChunkedDownload { ranges, outcome: None }
            },
        }
    }

    /// Takes `event` and tells what to do.
    pub fn step(&mut self, event: SyncEvent) -> (action: SyncAction)
        ensures
            (final(self)@, action@) == sync_step(old(self)@, event),
    {
        proof {
            use_type_invariant(&*self);
        }
        match self.outcome {
            Some(r) => {
                return SyncAction::Finish(r);
            },
            None => {},
        }
        match event {
            SyncEvent::Proceed => {
                let ghost before = self.ranges@;
                proof {
                    use_type_invariant(&self.ranges);
                }
                let mut ranges = PartialRangeIter {
                    start: self.ranges.start,
                    end: self.ranges.end,
                    buffer_size: self.ranges.buffer_size,
                };
                let next = ranges.next();
                self.ranges = ranges;
                match next {
                    Some(h) => {
                        assert forall|i: int| 0 <= i < self.ranges@.len() implies #[trigger] self.ranges@[i].1
                            < u64::MAX by {
                            assert(self.ranges@[i] == before[i + 1]);
                        }
                        SyncAction::Fetch(h)
                    },
                    None => {
                        self.outcome = Some(Ok(()));
                        SyncAction::Finish(Ok(()))
                    },
                }
            },
            SyncEvent::Replied(status) => {
                if status == 200 || status == 206 {
                    SyncAction::WriteBody
                } else {
                    self.outcome = Some(Err(SyncErrors::UNEXPECTED_SERVER_RESPONSE));
                    SyncAction::Finish(Err(SyncErrors::UNEXPECTED_SERVER_RESPONSE))
                }
            },
            SyncEvent::FetchFailed => {
                self.outcome = Some(Err(SyncErrors::REQ_FETCH_ERROR));
                SyncAction::Finish(Err(SyncErrors::REQ_FETCH_ERROR))
            },
        }
    }
}

/// How a download that is not over answers a reply: a status of `200` or
/// `206` has the body written and changes nothing else; any other status
/// ends the download with `UNEXPECTED_SERVER_RESPONSE` and leaves it
/// finished with that error. A failed fetch ends it with `REQ_FETCH_ERROR`.
/// Nothing but a `200` or `206` reply to a download still going on leads to
/// writing a body.
pub proof fn lemma_sync_reply_answers(s: SyncState, e: SyncEvent)
    ensures
        s.outcome is None && e == SyncEvent::Replied(200) ==> sync_step(s, e) == (s, SyncDecision::WriteBody),
        s.outcome is None && e == SyncEvent::Replied(206) ==> sync_step(s, e) == (s, SyncDecision::WriteBody),
        forall|status: u16|
            s.outcome is None && e == SyncEvent::Replied(status) && status != 200 && status != 206
                ==> sync_step(s, e).1 == SyncDecision::Finish(
                Err(SyncErrors::UNEXPECTED_SERVER_RESPONSE),
            ) && sync_step(s, e).0.outcome == Some(
                Err::<(), SyncErrors>(SyncErrors::UNEXPECTED_SERVER_RESPONSE),
            ),
        s.outcome is None && e == SyncEvent::FetchFailed ==> sync_step(s, e).1 == SyncDecision::Finish(
            Err(SyncErrors::REQ_FETCH_ERROR),
        ) && sync_step(s, e).0.outcome == Some(Err::<(), SyncErrors>(SyncErrors::REQ_FETCH_ERROR)),
        sync_step(s, e).1 is WriteBody ==> s.outcome is None && (e == SyncEvent::Replied(200) || e
            == SyncEvent::Replied(206)),
{
}

/// Once the ranges are used up, the next request finishes the download with
/// success; before that, each request asks for the first remaining range,
/// whose header text reads back as its two byte offsets.
pub proof fn lemma_sync_proceed_answers(s: SyncState)
    requires
        s.outcome is None,
    ensures
        s.remaining.len() == 0 ==> sync_step(s, SyncEvent::Proceed).1 == SyncDecision::Finish(
            Ok(()),
        ) && sync_step(s, SyncEvent::Proceed).0.outcome == Some(Ok::<(), SyncErrors>(())),
        s.remaining.len() > 0 ==> sync_step(s, SyncEvent::Proceed).1 == SyncDecision::Fetch(
            range_header(s.remaining[0].0, s.remaining[0].1),
        ) && sync_step(s, SyncEvent::Proceed).0.remaining == s.remaining.drop_first()
            && sync_step(s, SyncEvent::Proceed).0.outcome is None,
{
}

/// The events of a download in which every request is answered, with the
/// given status codes, and every body is written.
pub open spec fn served_events(statuses: Seq<u16>) -> Seq<SyncEvent>
    decreases statuses.len(),
{
    if statuses.len() == 0 {
        seq![SyncEvent::Proceed]
    } else {
        seq![SyncEvent::Proceed, SyncEvent::Replied(statuses[0])] + served_events(
            statuses.drop_first(),
        )
    }
}

/// The decisions of a download that fetches `ranges` and has each one
/// answered: fetch and write each range in turn, then finish successfully.
pub open spec fn served_decisions(ranges: Seq<(u64, u64)>) -> Seq<SyncDecision>
    decreases ranges.len(),
{
    if ranges.len() == 0 {
        seq![SyncDecision::Finish(Ok(()))]
    } else {
        seq![SyncDecision::Fetch(range_header(ranges[0].0, ranges[0].1)), SyncDecision::WriteBody]
            + served_decisions(ranges.drop_first())
    }
}

/// When every range is answered with `200` or `206`, a download requests
/// each remaining range once, in order, writes each reply, and then
/// finishes successfully with nothing left to fetch.
pub proof fn lemma_served_download(s: SyncState, statuses: Seq<u16>)
    requires
        s.outcome is None,
        statuses.len() == s.remaining.len(),
        forall|i: int| 0 <= i < statuses.len() ==> served_status(#[trigger] statuses[i]),
    ensures
        sync_run(s, served_events(statuses)).1 == served_decisions(s.remaining),
        sync_run(s, served_events(statuses)).0.outcome == Some(Ok::<(), SyncErrors>(())),
        sync_run(s, served_events(statuses)).0.remaining.len() == 0,
    decreases statuses.len(),
{
    let ev = served_events(statuses);
    if statuses.len() == 0 {
        assert(ev =~= seq![SyncEvent::Proceed]);
        let (a, d) = sync_step(s, SyncEvent::Proceed);
        assert(ev.drop_first() =~= Seq::<SyncEvent>::empty());
        assert(sync_run(a, ev.drop_first()) == (a, Seq::<SyncDecision>::empty()));
        assert(sync_run(s, ev).1 =~= seq![d]);
        assert(served_decisions(s.remaining) =~= seq![SyncDecision::Finish(Ok(()))]);
    } else {
        let rest = statuses.drop_first();
        let s1 = SyncState { remaining: s.remaining.drop_first(), ..s };
        assert forall|i: int| 0 <= i < rest.len() implies served_status(#[trigger] rest[i]) by {
            assert(rest[i] == statuses[i + 1]);
        }
        lemma_served_download(s1, rest);
        let ev1 = ev.drop_first();
        assert(ev[0] == SyncEvent::Proceed);
        assert(ev1 =~= seq![SyncEvent::Replied(statuses[0])] + served_events(rest));
        assert(ev1[0] == SyncEvent::Replied(statuses[0]));
        assert(ev1.drop_first() =~= served_events(rest));
        let (a, da) = sync_step(s, ev[0]);
        assert(a == s1);
        let (b, db) = sync_step(a, ev1[0]);
        assert(b == s1);
        let (last, ds2) = sync_run(s1, served_events(rest));
        assert(sync_run(a, ev1) == (last, seq![db] + ds2));
        assert(sync_run(s, ev) == (last, seq![da] + (seq![db] + ds2)));
        assert(served_decisions(s.remaining) =~= seq![da, db] + served_decisions(s1.remaining));
        assert(sync_run(s, ev).1 =~= served_decisions(s.remaining));
    }
}

/// Once a download has finished, every further event leaves it as it is and
/// repeats its result.
pub proof fn lemma_finished_is_final(s: SyncState, events: Seq<SyncEvent>)
    requires
        s.outcome is Some,
    ensures
        ({
            let (last, ds) = sync_run(s, events);
            &&& last == s
            &&& ds.len() == events.len()
            &&& forall|k: int| 0 <= k < ds.len() ==> #[trigger] ds[k] == SyncDecision::Finish(s.outcome->0)
        }),
    decreases events.len(),
{
    if events.len() > 0 {
        lemma_finished_is_final(s, events.drop_first());
        let (last, ds) = sync_run(s, events);
        let (last2, ds2) = sync_run(s, events.drop_first());
        assert forall|k: int| 0 <= k < ds.len() implies #[trigger] ds[k] == SyncDecision::Finish(s.outcome->0) by {
            if k > 0 {
                assert(ds[k] == ds2[k - 1]);
            }
        }
    }
}

} // verus!
