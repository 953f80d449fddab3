use parasync_downloader::async_downloader::{
    check_partial_downloadable, parse_content_length, plan_chunks, route_task, AsyncErrors,
    ChunkAction, ChunkConfig, ChunkDownload, ChunkEvent, PartialRangeIter, TaskRoute,
};

fn drain(mut it: PartialRangeIter) -> Vec<(u64, u64)> {
    let mut out = Vec::new();
    while let Some(r) = it.next() {
        out.push(r);
    }
    out
}

#[test]
fn range_iter_splits_into_chunks() {
    let it = PartialRangeIter::new(0, 9, 4).unwrap();
    assert_eq!(drain(it), vec![(0, 3), (4, 7), (8, 9)]);
}

#[test]
fn range_iter_exact_multiple() {
    let it = PartialRangeIter::new(0, 7, 4).unwrap();
    assert_eq!(drain(it), vec![(0, 3), (4, 7)]);
}

#[test]
fn range_iter_single_byte_and_large_chunk() {
    assert_eq!(drain(PartialRangeIter::new(5, 5, 100).unwrap()), vec![(5, 5)]);
    assert_eq!(drain(PartialRangeIter::new(3, 10, 100).unwrap()), vec![(3, 10)]);
}

#[test]
fn range_iter_empty_when_start_after_end() {
    let mut it = PartialRangeIter::new(10, 9, 4).unwrap();
    assert_eq!(it.next(), None);
    assert_eq!(it.next(), None);
}

#[test]
fn range_iter_rejects_zero_chunk_size() {
    assert_eq!(PartialRangeIter::new(0, 9, 0).err(), Some(AsyncErrors::InvalidChunkSize));
}

#[test]
fn range_iter_near_top_of_u64() {
    let end = u64::MAX - 1;
    let it = PartialRangeIter::new(end - 4, end, 3).unwrap();
    assert_eq!(drain(it), vec![(end - 4, end - 2), (end - 1, end)]);
}

#[test]
fn chunk_config_size_and_header() {
    let c = ChunkConfig { bytes_range: [0, 1023], i: 0 };
    assert_eq!(c.chunk_size(), 1024);
    assert_eq!(c.header_value(), "bytes=0-1023");
    let c = ChunkConfig { bytes_range: [20_000_000, 39_999_999], i: 1 };
    assert_eq!(c.chunk_size(), 20_000_000);
    assert_eq!(c.header_value(), "bytes=20000000-39999999");
    let c = ChunkConfig { bytes_range: [7, 7], i: 3 };
    assert_eq!(c.chunk_size(), 1);
    assert_eq!(c.header_value(), "bytes=7-7");
    let c = ChunkConfig { bytes_range: [1, u64::MAX], i: 0 };
    assert_eq!(c.chunk_size(), u64::MAX);
    assert_eq!(c.header_value(), "bytes=1-18446744073709551615");
}

#[test]
fn content_length_is_parsed_like_str_parse() {
    assert_eq!(parse_content_length("1234"), Ok(1234));
    assert_eq!(parse_content_length("0"), Ok(0));
    assert_eq!(parse_content_length("+5"), Ok(5));
    assert_eq!(parse_content_length("007"), Ok(7));
    assert_eq!(parse_content_length("18446744073709551615"), Ok(u64::MAX));
    for bad in ["", "+", "-1", "12a", " 12", "12 ", "18446744073709551616", "99999999999999999999", "++1", "١٢"] {
        assert_eq!(parse_content_length(bad), Err(AsyncErrors::ParseInt), "{bad:?}");
        assert!(bad.parse::<u64>().is_err());
    }
}

#[test]
fn plan_covers_file_in_order() {
    let plan = plan_chunks(10, 4);
    let got: Vec<(usize, [u64; 2])> = plan.iter().map(|c| (c.i, c.bytes_range)).collect();
    assert_eq!(got, vec![(0, [0, 3]), (1, [4, 7]), (2, [8, 9])]);
    let plan = plan_chunks(1, 20_000_000);
    assert_eq!(plan.len(), 1);
    assert_eq!(plan[0].bytes_range, [0, 0]);
    assert_eq!(plan[0].header_value(), "bytes=0-0");
}

#[test]
fn plan_offsets_match_range_starts() {
    let chunk_size: usize = 3;
    let plan = plan_chunks(100, chunk_size);
    assert_eq!(plan.len(), 34);
    for c in &plan {
        let d = ChunkDownload::new(Some(*c), None, chunk_size);
        assert_eq!(d.start, c.bytes_range[0]);
    }
    assert_eq!(plan[33].bytes_range, [99, 99]);
}

#[test]
fn plan_truncates_chunk_size_to_32_bits() {
    let plan = plan_chunks(10, ((1u64 << 32) + 4) as usize);
    assert_eq!(plan.len(), 3);
    assert_eq!(plan[1].bytes_range, [4, 7]);
}

#[test]
fn chunk_download_writes_back_to_back() {
    let config = ChunkConfig { bytes_range: [8, 15], i: 2 };
    let mut d = ChunkDownload::new(Some(config), None, 4);
    assert_eq!(d.start, 8);
    assert_eq!(d.range_header(), "bytes=8-15");
    let mut offsets = Vec::new();
    for len in [3u64, 1, 4] {
        assert!(d.accepts(ChunkEvent::BodyChunk(len)));
        match d.step(ChunkEvent::BodyChunk(len)) {
            ChunkAction::WriteAt(at) => offsets.push(at),
            other => panic!("unexpected {other:?}"),
        }
    }
    assert_eq!(offsets, vec![8, 11, 12]);
    assert_eq!(d.written, 8);
    assert!(matches!(d.step(ChunkEvent::BodyEnd), ChunkAction::Finished));
    assert!(d.done);
    assert!(matches!(d.step(ChunkEvent::BodyChunk(5)), ChunkAction::Finished));
    assert!(matches!(d.step(ChunkEvent::RequestFailed), ChunkAction::Finished));
}

#[test]
fn retried_chunk_writes_every_piece_at_its_start() {
    let config = ChunkConfig { bytes_range: [40, 59], i: 2 };
    let mut d = ChunkDownload::new(None, Some(config), 20);
    assert_eq!(d.start, 40);
    assert!(!d.advances);
    for len in [5u64, 7] {
        match d.step(ChunkEvent::BodyChunk(len)) {
            ChunkAction::WriteAt(at) => assert_eq!(at, 40),
            other => panic!("unexpected {other:?}"),
        }
    }
    assert_eq!(d.written, 0);
}

#[test]
fn failed_request_hands_chunk_back() {
    let config = ChunkConfig { bytes_range: [100, 199], i: 1 };
    let mut d = ChunkDownload::new(Some(config), None, 100);
    match d.step(ChunkEvent::RequestFailed) {
        ChunkAction::Retry(c) => {
            assert_eq!(c.i, 1);
            assert_eq!(c.bytes_range, [100, 199]);
        },
        other => panic!("unexpected {other:?}"),
    }
    assert!(d.done);
}

#[test]
fn given_chunk_wins_over_task_chunk() {
    let given = ChunkConfig { bytes_range: [0, 9], i: 0 };
    let held = ChunkConfig { bytes_range: [10, 19], i: 1 };
    let d = ChunkDownload::new(Some(given), Some(held), 10);
    assert_eq!(d.config.i, 0);
    assert!(d.advances);
}

#[test]
fn accepts_refuses_offset_overflow() {
    let config = ChunkConfig { bytes_range: [0, 9], i: 0 };
    let mut d = ChunkDownload::new(Some(config), None, 10);
    d.written = u64::MAX - 2;
    assert!(d.accepts(ChunkEvent::BodyChunk(2)));
    assert!(!d.accepts(ChunkEvent::BodyChunk(3)));
    d.start = 3;
    assert!(!d.accepts(ChunkEvent::BodyChunk(0)));
    assert!(d.accepts(ChunkEvent::BodyEnd));
}

#[test]
fn probe_status_decides_ranged_download() {
    assert_eq!(check_partial_downloadable(Some(200)), Ok(true));
    assert_eq!(check_partial_downloadable(Some(206)), Ok(true));
    assert_eq!(check_partial_downloadable(Some(404)), Ok(false));
    assert_eq!(check_partial_downloadable(Some(416)), Ok(false));
    assert_eq!(check_partial_downloadable(None), Err(AsyncErrors::ReqFetchError));
}

#[test]
fn task_route_follows_probe() {
    assert_eq!(route_task(Ok(true)), TaskRoute::Chunked);
    assert_eq!(route_task(Ok(false)), TaskRoute::Serial);
    assert_eq!(route_task(Err(AsyncErrors::ReqFetchError)), TaskRoute::Skip);
}

#[test]
fn planned_chunk_body_lands_on_its_range() {
    let plan = plan_chunks(10, 4);
    for c in &plan {
        let mut d = ChunkDownload::new(Some(*c), None, 4);
        let len = c.chunk_size();
        let first = len / 2;
        let mut offsets = Vec::new();
        for piece in [first, len - first] {
            match d.step(ChunkEvent::BodyChunk(piece)) {
                ChunkAction::WriteAt(at) => offsets.push(at),
                other => panic!("unexpected {other:?}"),
            }
        }
        assert_eq!(offsets, vec![c.bytes_range[0], c.bytes_range[0] + first]);
        assert_eq!(d.start + d.written, c.bytes_range[1] + 1);
    }
}
