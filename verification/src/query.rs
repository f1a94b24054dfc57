use vstd::prelude::*;

use sha3::Digest;

use crate::chunks::{BlockNumber, ChunkRef, DatasetId, sorted_by_key};
use crate::state::State;

verus! {

/// Default bound on concurrently executing queries, used when the deployment
/// does not configure one.
pub const DEFAULT_PARALLEL_QUERIES: usize = 5;

/// What gzip (default level) makes of a byte string. The compressed form is
/// a function of the input alone; no contract says what it looks like.
pub uninterp spec fn gzip_of(data: Seq<u8>) -> Seq<u8>;

/// What gzip decoding makes of a byte string; `None` on invalid input.
pub uninterp spec fn gunzip_of(data: Seq<u8>) -> Option<Seq<u8>>;

/// The 32-byte SHA3-256 digest of a byte string.
pub uninterp spec fn sha3_256_of(data: Seq<u8>) -> Seq<u8>;

/// What parsing a query document yields: `None` when the bytes are not valid
/// JSON, `Some(None)` when they are but carry no readable `first_block`
/// field, and `Some(Some(n))` when that field holds `n`.
pub uninterp spec fn parsed_first_block(query: Seq<u8>) -> Option<Option<u64>>;

/// Relies on flate2's `write::GzEncoder` at the default level: the output is
/// a function of the input bytes alone (the header it writes is fixed), and
/// gzip decoding gives the input back. Writing into a `Vec` sink cannot
/// fail, so the encoder always succeeds.
#[verifier::external_body]
fn gzip_compress(data: &[u8]) -> (r: Result<Vec<u8>, ()>)
    ensures
        r is Ok,
        r matches Ok(v) ==> v@ == gzip_of(data@) && gunzip_of(v@) == Some(data@),
{
    let mut enc = flate2::write::GzEncoder::new(Vec::new(), flate2::Compression::default());
    match std::io::Write::write_all(&mut enc, data) {
        Ok(()) => match enc.finish() {
            Ok(v) => Ok(v),
            Err(_) => Err(()),
        },
        Err(_) => Err(()),
    }
}

/// Relies on sha3's `Sha3_256`: a 32-byte digest that depends on the input
/// bytes alone.
#[verifier::external_body]
pub(crate) fn sha3_256(data: &[u8]) -> (r: Vec<u8>)
    ensures
        r@ == sha3_256_of(data@),
        r@.len() == 32,
{
    sha3::Sha3_256::digest(data).to_vec()
}

/// Relies on serde_json's `from_slice` and `Value::get` / `Value::as_u64`:
/// what a JSON document holds is a function of its bytes alone.
#[verifier::external_body]
fn parse_first_block(query: &[u8]) -> (r: Result<Option<u64>, ()>)
    ensures
        r matches Ok(v) ==> parsed_first_block(query@) == Some(v),
        r is Err ==> parsed_first_block(query@) is None,
{
    match serde_json::from_slice::<serde_json::Value>(query) {
        Ok(v) => Ok(v.get("first_block").and_then(|b| b.as_u64())),
        Err(_) => Err(()),
    }
}

/// Why a query was not answered, with the HTTP status each case maps to.
#[derive(Debug)]
pub enum QueryError {
    /// No ready chunk covers the requested block.
    NotFound,
    /// The client has no compute allocation left.
    NoAllocation,
    /// The query bytes are not valid JSON, or carry no `first_block`.
    BadRequest(String),
    /// As many queries as allowed are already in flight.
    ServiceOverloaded,
    /// The executor or the machinery around it failed.
    Other(String),
}

pub type QueryResult = Result<QueryOk, QueryError>;

impl QueryError {
    pub open spec fn spec_status_code(&self) -> u16 {
        match self {
            QueryError::NotFound => 404,
            QueryError::NoAllocation => 429,
            QueryError::BadRequest(_) => 400,
            QueryError::ServiceOverloaded => 503,
            QueryError::Other(_) => 500,
        }
    }

    /// The HTTP status this error is reported as.
    pub fn status_code(&self) -> (r: u16)
        ensures
            r == self.spec_status_code(),
    {
        match self {
            QueryError::NotFound => 404,
            QueryError::NoAllocation => 429,
            QueryError::BadRequest(_) => 400,
            QueryError::ServiceOverloaded => 503,
            QueryError::Other(_) => 500,
        }
    }
}

/// A successful query response: the rows, their gzip form, both sizes, the
/// digest of the rows, how many chunks were read, and how long the executor
/// ran (measured by the caller, which owns the clock).
pub struct QueryOk {
    pub raw_data: Vec<u8>,
    pub compressed_data: Vec<u8>,
    pub data_size: usize,
    pub compressed_size: usize,
    pub data_sha3_256: Vec<u8>,
    pub num_read_chunks: usize,
    pub exec_duration_ms: u64,
}

impl QueryOk {
    /// What every well-formed response satisfies: the compressed bytes are
    /// the gzip of the rows and decode back to them, the digest is theirs,
    /// and the sizes are real.
    pub open spec fn wf(&self) -> bool {
        &&& self.compressed_data@ == gzip_of(self.raw_data@)
        &&& gunzip_of(self.compressed_data@) == Some(self.raw_data@)
        &&& self.data_sha3_256@ == sha3_256_of(self.raw_data@)
        &&& self.data_size == self.raw_data@.len()
        &&& self.compressed_size == self.compressed_data@.len()
    }

    pub fn new(data: Vec<u8>, num_read_chunks: usize) -> (r: Result<QueryOk, QueryError>)
        ensures
            r is Ok,
            r matches Ok(ok) ==> ok.wf() && ok.raw_data@ == data@
                && ok.num_read_chunks == num_read_chunks && ok.exec_duration_ms == 0,
    {
        let data_size = data.len();
        match gzip_compress(data.as_slice()) {
            Ok(compressed) => {
                let compressed_size = compressed.len();
                let hash = sha3_256(data.as_slice());
                Ok(QueryOk {
                    raw_data: data,
                    compressed_data: compressed,
                    data_size,
                    compressed_size,
                    data_sha3_256: hash,
                    num_read_chunks,
                    exec_duration_ms: 0,
                })
            },
            Err(_) => Err(QueryError::Other(String::from_str("compression failed"))),
        }
    }

    /// Stamps the execution time the caller measured onto the response.
    pub fn with_exec_duration(self, ms: u64) -> (r: QueryOk)
        ensures
            r == (QueryOk { exec_duration_ms: ms, ..self }),
    {
        QueryOk { exec_duration_ms: ms, ..self }
    }
}

/// Whether the external allocation checker let the client spend compute.
pub enum AllocationStatus {
    Spent,
    NotEnoughCU,
}

/// The admission counter: how many queries run right now, against the bound.
/// Its well-formedness is the admission law — the count never passes the
/// bound, and an arrival at the bound is turned away.
pub struct Admitter {
    limit: usize,
    in_flight: usize,
}

impl Admitter {
    pub closed spec fn limit(&self) -> usize {
        self.limit
    }

    pub closed spec fn in_flight(&self) -> usize {
        self.in_flight
    }

    pub open spec fn wf(&self) -> bool {
        self.in_flight() <= self.limit()
    }

    pub fn new(limit: usize) -> (r: Admitter)
        ensures
            r.wf(),
            r.limit() == limit,
            r.in_flight() == 0,
    {
        Admitter { limit, in_flight: 0 }
    }

    /// How many queries hold a slot right now.
    pub fn current_in_flight(&self) -> (r: usize)
        ensures
            r == self.in_flight(),
    {
        self.in_flight
    }

    /// Takes one slot when one is free; at the bound, nothing changes and the
    /// caller must answer `ServiceOverloaded`.
    pub fn try_admit(&mut self) -> (r: bool)
        requires
            old(self).wf(),
        ensures
            final(self).wf(),
            final(self).limit() == old(self).limit(),
            r == (old(self).in_flight() < old(self).limit()),
            r ==> final(self).in_flight() == old(self).in_flight() + 1,
            !r ==> final(self).in_flight() == old(self).in_flight(),
    {
        if self.in_flight < self.limit {
            self.in_flight = self.in_flight + 1;
            true
        } else {
            false
        }
    }

    /// Gives one slot back; every exit path of an admitted query does this
    /// exactly once.
    pub fn release(&mut self)
        requires
            old(self).wf(),
            old(self).in_flight() > 0,
        ensures
            final(self).wf(),
            final(self).limit() == old(self).limit(),
            final(self).in_flight() + 1 == old(self).in_flight(),
    {
        self.in_flight = self.in_flight - 1;
    }
}

/// Admission law: however the admitter is driven, the number of queries in
/// flight never passes the configured bound.
pub proof fn lemma_admission_bound(a: &Admitter)
    requires
        a.wf(),
    ensures
        a.in_flight() <= a.limit(),
{
}

/// An admitted query holding one admission slot and one lease per chunk it
/// will read. The caller executes the plan over the chunks and hands the
/// outcome to `finish_query`, which releases everything.
pub struct QueryJob {
    pub chunks: Vec<ChunkRef>,
    pub first_block: BlockNumber,
}

/// Admits, checks the allocation, parses the query and takes leases, in that
/// order. On any refusal the admission slot is given back before returning,
/// and no lease is held.
pub fn start_query(
    adm: &mut Admitter,
    st: &mut State,
    dataset: DatasetId,
    query: &[u8],
    allocation: AllocationStatus,
) -> (r: Result<QueryJob, QueryError>)
    requires
        old(adm).wf(),
        old(st).wf(),
    ensures
        final(adm).wf(),
        final(st).wf(),
        final(adm).limit() == old(adm).limit(),
        forall|c: ChunkRef| final(st).state_of(c) == old(st).state_of(c),
        forall|c: ChunkRef| final(st).is_desired(c) == old(st).is_desired(c),
        final(st).downloads_stopped() == old(st).downloads_stopped(),
        match r {
            Ok(job) => {
                &&& final(adm).in_flight() == old(adm).in_flight() + 1
                &&& old(adm).in_flight() < old(adm).limit()
                &&& allocation is Spent
                &&& parsed_first_block(query@) == Some(Some(job.first_block))
                &&& job.chunks@.len() > 0
                &&& sorted_by_key(job.chunks@)
                &&& forall|k: int| 0 <= k < job.chunks@.len()
                    ==> old(st).is_ready(#[trigger] job.chunks@[k])
                        && job.chunks@[k].covers(dataset, job.first_block)
                &&& forall|c: ChunkRef| old(st).is_ready(c) && c.covers(dataset, job.first_block)
                    ==> job.chunks@.contains(c)
                &&& forall|c: ChunkRef| #[trigger] final(st).lease_count(c)
                    == old(st).lease_count(c) + (if job.chunks@.contains(c) { 1int } else { 0int })
            },
            Err(e) => {
                &&& final(adm).in_flight() == old(adm).in_flight()
                &&& forall|c: ChunkRef| final(st).lease_count(c) == old(st).lease_count(c)
                &&& match e {
                    QueryError::ServiceOverloaded => old(adm).in_flight() == old(adm).limit(),
                    QueryError::NoAllocation => old(adm).in_flight() < old(adm).limit()
                        && allocation is NotEnoughCU,
                    QueryError::BadRequest(_) => old(adm).in_flight() < old(adm).limit()
                        && allocation is Spent
                        && !(parsed_first_block(query@) matches Some(Some(_))),
                    QueryError::NotFound => old(adm).in_flight() < old(adm).limit()
                        && allocation is Spent
                        && match parsed_first_block(query@) {
                            Some(Some(fb)) => forall|c: ChunkRef|
                                !(old(st).is_ready(c) && c.covers(dataset, fb)),
                            _ => false,
                        },
                    _ => false,
                }
            },
        },
{
    if !adm.try_admit() {
        return Err(QueryError::ServiceOverloaded);
    }
    match allocation {
        AllocationStatus::NotEnoughCU => {
            adm.release();
            return Err(QueryError::NoAllocation);
        },
        AllocationStatus::Spent => {},
    }
    let first_block = match parse_first_block(query) {
        Ok(Some(fb)) => fb,
        Ok(None) => {
            adm.release();
            return Err(QueryError::BadRequest(String::from_str("query has no first_block")));
        },
        Err(_) => {
            adm.release();
            return Err(QueryError::BadRequest(String::from_str("query is not valid JSON")));
        },
    };
    let ghost st_pre = *st;
    let chunks = st.find_chunks(dataset, first_block);
    if chunks.len() == 0 {
        proof {
            assert forall|c: ChunkRef| !(old(st).is_ready(c) && c.covers(dataset, first_block))
                by {
                if old(st).is_ready(c) && c.covers(dataset, first_block) {
                    assert(chunks@.contains(c));
                }
            }
            assert forall|c: ChunkRef| #[trigger] st.lease_count(c) == st_pre.lease_count(c) by {
                assert(!chunks@.contains(c));
            }
        }
        adm.release();
        return Err(QueryError::NotFound);
    }
    Ok(QueryJob { chunks, first_block })
}

/// Takes the executor's outcome for an admitted query, builds the response,
/// and releases the leases and the admission slot — on the error path too.
pub fn finish_query(
    adm: &mut Admitter,
    st: &mut State,
    job: QueryJob,
    exec: Result<Vec<u8>, String>,
) -> (r: QueryResult)
    requires
        old(adm).wf(),
        old(adm).in_flight() > 0,
        old(st).wf(),
        forall|c: ChunkRef| job.chunks@.to_multiset().count(c) <= old(st).lease_count(c),
    ensures
        final(adm).wf(),
        final(st).wf(),
        final(adm).limit() == old(adm).limit(),
        final(adm).in_flight() + 1 == old(adm).in_flight(),
        forall|c: ChunkRef| #[trigger] final(st).lease_count(c)
            + job.chunks@.to_multiset().count(c) == old(st).lease_count(c),
        forall|c: ChunkRef| final(st).is_desired(c) == old(st).is_desired(c),
        forall|c: ChunkRef| final(st).state_of(c) == old(st).state_of(c),
        exec matches Ok(data) ==> r matches Ok(ok) && ok.wf() && ok.raw_data@ == data@
            && ok.num_read_chunks == job.chunks@.len(),
        exec matches Err(m) ==> r matches Err(e) && e == QueryError::Other(m),
{
    let num_read_chunks = job.chunks.len();
    let res = match exec {
        Ok(data) => QueryOk::new(data, num_read_chunks),
        Err(msg) => Err(QueryError::Other(msg)),
    };
    st.unlock_chunks(&job.chunks);
    adm.release();
    res
}

} // verus!
