use parasync_downloader::sync_downloader::{
    download_url_result, parse_content_length, ChunkedDownload, FetchOutcome, PartialRangeIter,
    SyncAction, SyncErrors, SyncEvent,
};

#[test]
fn headers_cover_file() {
    let mut it = PartialRangeIter::new(0, 9, 4).unwrap();
    assert_eq!(it.next().as_deref(), Some("bytes=0-3"));
    assert_eq!(it.next().as_deref(), Some("bytes=4-7"));
    assert_eq!(it.next().as_deref(), Some("bytes=8-9"));
    assert_eq!(it.next(), None);
}

#[test]
fn zero_buffer_size_is_refused() {
    assert_eq!(PartialRangeIter::new(0, 9, 0).err(), Some(SyncErrors::INVALID_CHUNK_SIZE));
}

#[test]
fn content_length_errors_are_parse_int() {
    assert_eq!(parse_content_length("4096"), Ok(4096));
    assert_eq!(parse_content_length("4k"), Err(SyncErrors::PARSE_INT));
    assert_eq!(parse_content_length(""), Err(SyncErrors::PARSE_INT));
}

#[test]
fn one_request_download_results() {
    assert_eq!(download_url_result(FetchOutcome::Received), Ok(()));
    assert_eq!(download_url_result(FetchOutcome::Unreachable), Err(SyncErrors::REQ_FETCH_ERROR));
    assert_eq!(download_url_result(FetchOutcome::Unreadable), Err(SyncErrors::UNREADABLE_BYTES));
}

fn fetch_header(a: SyncAction) -> String {
    match a {
        SyncAction::Fetch(h) => h,
        other => panic!("expected a fetch, got {other:?}"),
    }
}

#[test]
fn served_download_fetches_each_range_then_succeeds() {
    let mut d = ChunkedDownload::new(10, 4);
    let mut headers = Vec::new();
    loop {
        match d.step(SyncEvent::Proceed) {
            SyncAction::Fetch(h) => {
                headers.push(h);
                let status = if headers.len() == 1 { 200 } else { 206 };
                assert!(matches!(d.step(SyncEvent::Replied(status)), SyncAction::WriteBody));
            },
            SyncAction::Finish(r) => {
                assert_eq!(r, Ok(()));
                break;
            },
            SyncAction::WriteBody => panic!("write without a reply"),
        }
    }
    assert_eq!(headers, vec!["bytes=0-3", "bytes=4-7", "bytes=8-9"]);
    assert!(matches!(d.step(SyncEvent::Proceed), SyncAction::Finish(Ok(()))));
}

#[test]
fn unexpected_status_ends_download() {
    let mut d = ChunkedDownload::new(10, 4);
    assert_eq!(fetch_header(d.step(SyncEvent::Proceed)), "bytes=0-3");
    assert!(matches!(
        d.step(SyncEvent::Replied(416)),
        SyncAction::Finish(Err(SyncErrors::UNEXPECTED_SERVER_RESPONSE))
    ));
    assert!(matches!(
        d.step(SyncEvent::Proceed),
        SyncAction::Finish(Err(SyncErrors::UNEXPECTED_SERVER_RESPONSE))
    ));
}

#[test]
fn failed_fetch_ends_download() {
    let mut d = ChunkedDownload::new(3, 100);
    assert_eq!(fetch_header(d.step(SyncEvent::Proceed)), "bytes=0-2");
    assert!(matches!(d.step(SyncEvent::FetchFailed), SyncAction::Finish(Err(SyncErrors::REQ_FETCH_ERROR))));
    assert!(matches!(d.step(SyncEvent::Replied(200)), SyncAction::Finish(Err(SyncErrors::REQ_FETCH_ERROR))));
}
