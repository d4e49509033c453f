//! Plain-value models of the records the archive works with.
//!
//! Candidate commits arrive from an external history provider and carry a
//! 40-byte identifier plus a timestamp; the core reads the timestamp both as
//! seconds since the Unix epoch (for the reconciliation window) and as its
//! 25-byte RFC 3339 rendering (for result filenames). Benchmarks are known to
//! the core only by name.

use vstd::prelude::*;

verus! {

/// A candidate commit, as the core reads it: identifier, timestamp in Unix
/// seconds, and the timestamp's RFC 3339 rendering.
pub struct Commit {
    pub sha: Vec<u8>,
    pub date_secs: i64,
    pub date_str: Vec<u8>,
}

/// A commit record whose identifier has the expected 40-byte length and whose
/// timestamp rendering has the fixed 25-byte RFC 3339 UTC length
/// (`YYYY-MM-DDTHH:MM:SS+00:00`).
pub open spec fn commit_wf(sha: Seq<u8>, date_str: Seq<u8>) -> bool {
    &&& sha.len() == 40
    &&& date_str.len() == 25
}

impl Commit {
    pub open spec fn wf(&self) -> bool {
        commit_wf(self.sha@, self.date_str@)
    }
}

/// A benchmark, known here only by its name.
pub struct Benchmark {
    pub name: Vec<u8>,
}

/// One stored result: the commit it was measured on, the target platform, and
/// the measurements keyed by benchmark name, in insertion order.
pub struct CommitData {
    pub sha: Vec<u8>,
    pub date_str: Vec<u8>,
    pub triple: Vec<u8>,
    pub benchmarks: Vec<(Vec<u8>, Vec<u8>)>,
}

/// The mathematical shape of a stored result.
pub struct CommitDataView {
    pub sha: Seq<u8>,
    pub date_str: Seq<u8>,
    pub triple: Seq<u8>,
    pub benchmarks: Seq<(Seq<u8>, Seq<u8>)>,
}

/// The pairs of a record as the spec sees them.
pub open spec fn pairs_view(bs: Seq<(Vec<u8>, Vec<u8>)>) -> Seq<(Seq<u8>, Seq<u8>)> {
    bs.map_values(|p: (Vec<u8>, Vec<u8>)| (p.0@, p.1@))
}

impl View for CommitData {
    type V = CommitDataView;

    open spec fn view(&self) -> CommitDataView {
        CommitDataView {
            sha: self.sha@,
            date_str: self.date_str@,
            triple: self.triple@,
            benchmarks: pairs_view(self.benchmarks@),
        }
    }
}

/// Whether the stored result records a measurement under the given name.
pub open spec fn has_benchmark(d: CommitDataView, name: Seq<u8>) -> bool {
    exists|j: int| 0 <= j < d.benchmarks.len() && #[trigger] d.benchmarks[j].0 == name
}

/// Whether the stored result covers every requested benchmark name.
pub open spec fn covers_all(d: CommitDataView, names: Seq<Seq<u8>>) -> bool {
    forall|i: int| 0 <= i < names.len() ==> has_benchmark(d, #[trigger] names[i])
}

} // verus!
