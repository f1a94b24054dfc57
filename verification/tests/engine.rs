use chunk_worker::chunks::{ChunkRef, ChunkSet};
use chunk_worker::downloader::Downloader;
use chunk_worker::layout::{chunk_dir_name, is_partial_name};
use chunk_worker::tracker::DatasetTracker;
use sha3::Digest;
use std::io::Read;
use chunk_worker::manager::StateManager;
use chunk_worker::query::{
    finish_query, start_query, Admitter, AllocationStatus, QueryError, QueryOk,
};
use chunk_worker::state::State;
use chunk_worker::util::tests_data;

fn chunk(dataset: u64, first: u64, last: u64) -> ChunkRef {
    ChunkRef { dataset, first_block: first, last_block: last, top_block: last }
}

fn set_of(chunks: &[ChunkRef]) -> ChunkSet {
    let mut s = ChunkSet::new();
    for c in chunks {
        s.insert(*c);
    }
    s
}

#[test]
fn admission_overload() {
    // Bound of two: a third concurrent query is turned away at once; after
    // the others finish, slots are free again.
    let c = chunk(1, 0, 99);
    let mut st = State::restore(&set_of(&[c]));
    let mut adm = Admitter::new(2);
    let q: &[u8] = b"{\"first_block\": 10}";

    let job1 = start_query(&mut adm, &mut st, 1, q, AllocationStatus::Spent).unwrap();
    let job2 = start_query(&mut adm, &mut st, 1, q, AllocationStatus::Spent).unwrap();
    let third = start_query(&mut adm, &mut st, 1, q, AllocationStatus::Spent);
    assert!(matches!(third, Err(QueryError::ServiceOverloaded)));
    assert_eq!(adm.current_in_flight(), 2);

    let r1 = finish_query(&mut adm, &mut st, job1, Ok(b"rows".to_vec()));
    let r2 = finish_query(&mut adm, &mut st, job2, Ok(b"rows".to_vec()));
    assert!(r1.is_ok());
    let ok2 = r2.unwrap();
    assert!(ok2.num_read_chunks >= 1);
    assert_eq!(adm.current_in_flight(), 0);

    let job4 = start_query(&mut adm, &mut st, 1, q, AllocationStatus::Spent);
    assert!(job4.is_ok());
}

#[test]
fn deletion_blocked_by_lease() {
    // A leased ready chunk survives the desired set dropping it, and is
    // deleted only once the lease goes.
    let c = chunk(7, 100, 199);
    let mut mgr = StateManager::restore(&set_of(&[c]), 4);

    let leased = mgr.find_chunks(7, 150);
    assert_eq!(leased.len(), 1);

    mgr.set_desired_chunks(&ChunkSet::new());
    assert!(mgr.take_deletions().len() == 0);
    assert_eq!(mgr.current_status().ready.len(), 1);

    mgr.unlock_chunks(&leased);
    // releasing the lease changes no lifecycle tag by itself, and the drain
    // returns only chunks already marked for deletion
    assert_eq!(mgr.current_status().ready.len(), 1);
    assert_eq!(mgr.take_deletions().len(), 0);
    // the reconciler's next wakeup marks the chunk, then the drain evicts it
    mgr.mark_deletions();
    let gone = mgr.take_deletions();
    assert_eq!(gone.len(), 1);
    assert_eq!(gone.get(0), c);
    assert_eq!(mgr.current_status().ready.len(), 0);
}

#[test]
fn download_cancellation() {
    // Shrinking the desired set while a download is in flight cancels it;
    // the kept chunk still becomes ready.
    let c1 = chunk(1, 0, 99);
    let c2 = chunk(1, 100, 199);
    let mut mgr = StateManager::new(4);
    mgr.set_desired_chunks(&set_of(&[c1, c2]));

    let (id1, started1) = mgr.start_next_download().unwrap();
    let (_id2, started2) = mgr.start_next_download().unwrap();
    assert_eq!(started1, c1);
    assert_eq!(started2, c2);
    assert!(mgr.start_next_download().is_none());

    mgr.set_desired_chunks(&set_of(&[c1]));
    let cancelled = mgr.cancel_downloads();
    assert_eq!(cancelled.len(), 1);
    assert!(cancelled[0] != id1);

    mgr.download_completed(id1);
    let status = mgr.current_status();
    assert_eq!(status.ready.len(), 1);
    assert_eq!(status.ready[0], c1);
    assert!(mgr.take_deletions().len() == 0);
}

#[test]
fn missing_range() {
    // Ready blocks 1000..=1999; a query for block 5000 finds nothing.
    let c = chunk(3, 1000, 1999);
    let mut st = State::restore(&set_of(&[c]));
    let mut adm = Admitter::new(2);
    let q: &[u8] = b"{\"first_block\": 5000}";
    let r = start_query(&mut adm, &mut st, 3, q, AllocationStatus::Spent);
    assert!(matches!(r, Err(QueryError::NotFound)));
    assert_eq!(adm.current_in_flight(), 0);
}

#[test]
fn bad_query() {
    // Unparseable bytes are a bad request; no admission slot and no lease
    // stays taken after the call returns.
    let c = chunk(3, 1000, 1999);
    let mut st = State::restore(&set_of(&[c]));
    let mut adm = Admitter::new(2);
    let r = start_query(&mut adm, &mut st, 3, b"not json", AllocationStatus::Spent);
    assert!(matches!(r, Err(QueryError::BadRequest(_))));
    assert_eq!(adm.current_in_flight(), 0);
    // the chunk is still deletable at once: no lease was left behind
    let probe = st.find_chunks(3, 1000);
    assert_eq!(probe.len(), 1);
    st.unlock_chunks(&probe);

    let r2 = start_query(&mut adm, &mut st, 3, b"{\"block\": 5}", AllocationStatus::Spent);
    assert!(matches!(r2, Err(QueryError::BadRequest(_))));

    let r3 = start_query(&mut adm, &mut st, 3, b"{\"first_block\": 1}", AllocationStatus::NotEnoughCU);
    assert!(matches!(r3, Err(QueryError::NoAllocation)));
    assert_eq!(adm.current_in_flight(), 0);
}

#[test]
fn crash_recovery() {
    // Two complete chunk directories found on disk: both indexed ready and
    // reported in status as two runs; a query over them works at once.
    let c1 = chunk(9, 0, 49);
    let c2 = chunk(9, 60, 99);
    let mut mgr = StateManager::restore(&set_of(&[c1, c2]), 2);
    let status = mgr.current_status();
    assert_eq!(status.ready.len(), 2);
    assert_eq!(status.ready[0], c1);
    assert_eq!(status.ready[1], c2);
    assert_eq!(status.ranges, vec![(9, 0, 49), (9, 60, 99)]);
    assert!(status.failed.is_empty());
    assert_eq!(status.in_flight_downloads, 0);
    let found = mgr.find_chunks(9, 60);
    assert_eq!(found, vec![c2]);
    mgr.unlock_chunks(&found);
}

#[test]
fn redesired_deleting_chunk_redownloads() {
    // A chunk re-added to the desired set while awaiting deletion still has
    // its files removed, and is queued for a fresh download in the same
    // drain.
    let c = chunk(6, 0, 9);
    let mut mgr = StateManager::restore(&set_of(&[c]), 2);
    mgr.set_desired_chunks(&ChunkSet::new());
    mgr.set_desired_chunks(&set_of(&[c]));
    let gone = mgr.take_deletions();
    assert_eq!(gone.len(), 1);
    assert_eq!(gone.get(0), c);
    let (_, started) = mgr.start_next_download().unwrap();
    assert_eq!(started, c);
}

#[test]
fn status_coalesces_adjacent_ranges() {
    // Adjacent and overlapping ready ranges of one dataset merge into one
    // maximal run; another dataset gets its own run.
    let a1 = chunk(1, 0, 49);
    let a2 = chunk(1, 50, 120);
    let a3 = chunk(1, 100, 199);
    let a4 = chunk(1, 300, 399);
    let b1 = chunk(2, 0, 9);
    let mgr = StateManager::restore(&set_of(&[a1, a2, a3, a4, b1]), 2);
    let status = mgr.current_status();
    assert_eq!(status.ranges, vec![(1, 0, 199), (1, 300, 399), (2, 0, 9)]);
}

#[test]
fn status_reports_failed_chunks() {
    // A chunk whose download attempts are spent shows up as failed.
    let c = chunk(4, 0, 9);
    let mut mgr = StateManager::new(1);
    mgr.set_desired_chunks(&set_of(&[c]));
    loop {
        match mgr.start_next_download() {
            Some((id, _)) => mgr.download_failed(id),
            None => break,
        }
    }
    let status = mgr.current_status();
    assert!(status.ready.is_empty());
    assert_eq!(status.failed, vec![c]);
}

#[test]
fn compress_round_trip() {
    // gunzip(compressed) == raw, and the digest matches an independent
    // SHA3-256 computation.
    let data = b"a row batch, a row batch, a row batch".to_vec();
    let ok = QueryOk::new(data.clone(), 1).unwrap();
    assert_eq!(ok.raw_data, data);
    assert_eq!(ok.data_size, data.len());
    assert_eq!(ok.compressed_size, ok.compressed_data.len());

    let mut dec = flate2::read::GzDecoder::new(ok.compressed_data.as_slice());
    let mut back = Vec::new();
    dec.read_to_end(&mut back).unwrap();
    assert_eq!(back, data);

    let digest = sha3::Sha3_256::digest(&data).to_vec();
    assert_eq!(ok.data_sha3_256, digest);
    assert_eq!(ok.data_sha3_256.len(), 32);

    assert_eq!(ok.exec_duration_ms, 0);
    let stamped = QueryOk::new(data.clone(), 1).unwrap().with_exec_duration(17);
    assert_eq!(stamped.exec_duration_ms, 17);
    assert_eq!(stamped.raw_data, data);
}

#[test]
fn find_chunks_exact_and_ordered() {
    // Exactly the ready chunks whose range holds the block, ascending by
    // first block, and chunks of other datasets stay out.
    let a1 = chunk(1, 0, 100);
    let a2 = chunk(1, 50, 150);
    let a3 = chunk(1, 160, 200);
    let b1 = chunk(2, 0, 100);
    let mut st = State::restore(&set_of(&[a2, b1, a3, a1]));
    let found = st.find_chunks(1, 60);
    assert_eq!(found, vec![a1, a2]);
    st.unlock_chunks(&found);
    let none = st.find_chunks(1, 155);
    assert_eq!(none.len(), 0);
}

#[test]
fn set_desired_idempotent() {
    // Announcing the same desired set again issues no downloads.
    let c1 = chunk(1, 0, 9);
    let c2 = chunk(1, 10, 19);
    let mut mgr = StateManager::new(8);
    let want = set_of(&[c1, c2]);
    mgr.set_desired_chunks(&want);
    let mut started = 0;
    while let Some(_) = mgr.start_next_download() {
        started += 1;
    }
    assert_eq!(started, 2);

    let again = set_of(&[c1, c2]);
    mgr.set_desired_chunks(&again);
    assert!(mgr.start_next_download().is_none());
    assert!(mgr.cancel_downloads().is_empty());
    assert_eq!(mgr.take_deletions().len(), 0);
}

#[test]
fn failed_download_retries_then_gives_up() {
    // A failing chunk is queued again until its attempts run out, then left
    // alone; the other chunk is unaffected.
    let c = chunk(4, 0, 9);
    let mut mgr = StateManager::new(1);
    mgr.set_desired_chunks(&set_of(&[c]));
    let mut attempts = 0;
    loop {
        match mgr.start_next_download() {
            Some((id, got)) => {
                assert_eq!(got, c);
                attempts += 1;
                mgr.download_failed(id);
            },
            None => break,
        }
    }
    assert_eq!(attempts, 3);
    assert_eq!(mgr.current_status().ready.len(), 0);
}

#[test]
fn status_codes() {
    assert_eq!(QueryError::NotFound.status_code(), 404);
    assert_eq!(QueryError::NoAllocation.status_code(), 429);
    assert_eq!(QueryError::BadRequest(String::from("x")).status_code(), 400);
    assert_eq!(QueryError::ServiceOverloaded.status_code(), 503);
    assert_eq!(QueryError::Other(String::from("x")).status_code(), 500);
}

#[test]
fn stop_downloads_halts_new_work() {
    let c = chunk(5, 0, 9);
    let mut mgr = StateManager::new(4);
    mgr.set_desired_chunks(&set_of(&[c]));
    mgr.stop_downloads();
    assert!(mgr.start_next_download().is_none());
}

#[test]
fn tests_data_location() {
    assert_eq!(tests_data(), "tests/data".to_string());
}

#[test]
fn executor_failure_is_other() {
    // A failing executor surfaces as an internal error and still releases
    // the admission slot and the leases.
    let c = chunk(1, 0, 99);
    let mut st = State::restore(&set_of(&[c]));
    let mut adm = Admitter::new(2);
    let q: &[u8] = b"{\"first_block\": 10}";
    let job = start_query(&mut adm, &mut st, 1, q, AllocationStatus::Spent).unwrap();
    let r = finish_query(&mut adm, &mut st, job, Err("executor panicked".to_string()));
    assert!(matches!(r, Err(QueryError::Other(_))));
    assert_eq!(adm.current_in_flight(), 0);
    // lease released: dropping the chunk deletes it at once
    st.delete_chunks(&set_of(&[c]));
    assert_eq!(st.take_deletions().len(), 1);
}

#[test]
fn download_pool_slots() {
    let mut pool = Downloader::new(2);
    assert!(pool.is_ready());
    let a = pool.download_chunk(chunk(1, 0, 9));
    let b = pool.download_chunk(chunk(1, 10, 19));
    assert_eq!(a, 0);
    assert_eq!(b, 1);
    assert!(!pool.is_ready());
    pool.cancel_download(a);
    pool.cancel_download(a); // idempotent
    assert!(pool.is_ready());
    let upd = pool.get_updates(vec![b]);
    assert!(upd.is_ready);
    assert_eq!(upd.completed, vec![b]);
    assert_eq!(pool.peek_next_id(), 2);
}

#[test]
fn tracker_diffs() {
    let c1 = chunk(1, 0, 9);
    let c2 = chunk(1, 10, 19);
    let c3 = chunk(1, 20, 29);
    let mut t = DatasetTracker::new();
    t.set_desired_state(&set_of(&[c1, c2]));
    let u1 = t.get_state_update();
    assert_eq!(u1.new.len(), 2);
    assert_eq!(u1.deleted.len(), 0);

    t.set_desired_state(&set_of(&[c2, c3]));
    let u2 = t.get_state_update();
    assert_eq!(u2.new.len(), 1);
    assert_eq!(u2.new.get(0), c3);
    assert_eq!(u2.deleted.len(), 1);
    assert_eq!(u2.deleted.get(0), c1);

    // consuming again without a change yields the empty step
    let u3 = t.get_state_update();
    assert_eq!(u3.new.len(), 0);
    assert_eq!(u3.deleted.len(), 0);
}

#[test]
fn cancelled_chunk_not_served() {
    // Cancelling a download and querying its range finds nothing: the chunk
    // never reached the ready set.
    let c = chunk(2, 0, 99);
    let mut mgr = StateManager::new(1);
    mgr.set_desired_chunks(&set_of(&[c]));
    let (_id, _) = mgr.start_next_download().unwrap();
    mgr.set_desired_chunks(&ChunkSet::new());
    let ids = mgr.cancel_downloads();
    assert_eq!(ids.len(), 1);
    let found = mgr.find_chunks(2, 50);
    assert!(found.is_empty());
}

#[test]
fn layout_names() {
    assert_eq!(chunk_dir_name(1000, 1999), b"1000-1999".to_vec());
    assert_eq!(chunk_dir_name(0, 7), b"0-7".to_vec());
    assert!(is_partial_name(b".partial-42"));
    assert!(is_partial_name(b".partial"));
    assert!(!is_partial_name(b"1000-1999"));
    assert!(!is_partial_name(b".part"));
}
