//! The repository aggregate: the archive directory, the remote flag, and the
//! in-memory retry queue.
//!
//! Every operation here is pure: file reads arrive as byte strings, and file
//! writes and git invocations leave as plans for an unverified shell to
//! perform. Callers must serialize access to a given repository path; the
//! design assumes a single writer and takes no locks.

use vstd::prelude::*;
use crate::bytes::views;
use crate::clock::now_unix_seconds;
use crate::error::Error;
use crate::filename::result_filename_spec;
use crate::filename::format_result_filename;
use crate::model::{commit_wf, Benchmark, Commit, CommitData};
use crate::reconcile::{bench_names, find_missing_at, have_inputs_ok, missing_seq};
use crate::retry::{clean_lines, parse_retries, render_retries, render_retries_spec,
    retries_parse_ok, split_lines};
use crate::store::{decode_commit_data, decode_doc_spec, encode_commit_data, encode_spec};

verus! {

/// A git invocation the shell performs on the archive's behalf. Only these
/// fixed argument lists are ever issued.
pub enum GitCmd {
    /// `fetch`
    Fetch,
    /// `reset --hard @{upstream}`
    ResetHardUpstream,
    /// `add retries times`
    AddRetriesTimes,
    /// `diff-index --quiet --cached HEAD`
    DiffIndexQuietHead,
    /// `commit -m <message>`
    Commit(Vec<u8>),
    /// `push`
    Push,
}

/// One file write the shell performs: the path relative to the archive root,
/// and the full new content.
pub struct FileWrite {
    pub name: Vec<u8>,
    pub content: Vec<u8>,
}

/// The plan that reporting a success leaves for the shell: store the result
/// file, then commit and push with this message.
pub struct SuccessPlan {
    pub file: FileWrite,
    pub message: Vec<u8>,
}

/// `/retries` appended to the root path.
pub open spec fn retries_file_name() -> Seq<u8> {
    seq![114u8, 101u8, 116u8, 114u8, 105u8, 101u8, 115u8]
}

/// `broken-commits-log`
pub open spec fn broken_log_file_name() -> Seq<u8> {
    seq![
        98u8, 114u8, 111u8, 107u8, 101u8, 110u8, 45u8, 99u8, 111u8, 109u8, 109u8, 105u8, 116u8,
        115u8, 45u8, 108u8, 111u8, 103u8,
    ]
}

/// `times`
pub open spec fn times_dir_name() -> Seq<u8> {
    seq![116u8, 105u8, 109u8, 101u8, 115u8]
}

/// ` - success`, the marker a success commit message carries after the
/// commit identifier.
pub open spec fn success_marker() -> Seq<u8> {
    seq![32u8, 45u8, 32u8, 115u8, 117u8, 99u8, 99u8, 101u8, 115u8, 115u8]
}

/// The archive rooted at one directory.
pub struct Repo {
    path: Vec<u8>,
    use_remote: bool,
    retries: Vec<Vec<u8>>,
}

impl Repo {
    /// The archive's root path.
    pub closed spec fn path_spec(&self) -> Seq<u8> {
        self.path@
    }

    /// Whether remote synchronization is enabled.
    pub closed spec fn use_remote_spec(&self) -> bool {
        self.use_remote
    }

    /// The in-memory retry queue, oldest first.
    pub closed spec fn retries_spec(&self) -> Seq<Seq<u8>> {
        views(self.retries@)
    }

    /// The retry file's path.
    pub closed spec fn retries_file_spec(&self) -> Seq<u8> {
        self.path@ + seq![47u8] + retries_file_name()
    }

    /// The broken-commit log's path.
    pub closed spec fn broken_commits_file_spec(&self) -> Seq<u8> {
        self.path@ + seq![47u8] + broken_log_file_name()
    }

    /// The results directory's path.
    pub closed spec fn times_spec(&self) -> Seq<u8> {
        self.path@ + seq![47u8] + times_dir_name()
    }

    /// The path of the file that persists the retry queue.
    pub fn retries_file(&self) -> (r: Vec<u8>)
        ensures
            r@ == self.retries_file_spec(),
    {
        let mut out: Vec<u8> = Vec::new();
        out.extend_from_slice(self.path.as_slice());
        out.push(47);
        out.push(114);
        out.push(101);
        out.push(116);
        out.push(114);
        out.push(105);
        out.push(101);
        out.push(115);
        proof {
            assert(out@ =~= self.retries_file_spec());
        }
        out
    }

    /// The path of the append-only broken-commit log.
    pub fn broken_commits_file(&self) -> (r: Vec<u8>)
        ensures
            r@ == self.broken_commits_file_spec(),
    {
        let mut out: Vec<u8> = Vec::new();
        out.extend_from_slice(self.path.as_slice());
        out.push(47);
        out.push(98);
        out.push(114);
        out.push(111);
        out.push(107);
        out.push(101);
        out.push(110);
        out.push(45);
        out.push(99);
        out.push(111);
        out.push(109);
        out.push(109);
        out.push(105);
        out.push(116);
        out.push(115);
        out.push(45);
        out.push(108);
        out.push(111);
        out.push(103);
        proof {
            assert(out@ =~= self.broken_commits_file_spec());
        }
        out
    }

    /// The path of the directory that holds one result file per commit and
    /// platform.
    pub fn times(&self) -> (r: Vec<u8>)
        ensures
            r@ == self.times_spec(),
    {
        let mut out: Vec<u8> = Vec::new();
        out.extend_from_slice(self.path.as_slice());
        out.push(47);
        out.push(116);
        out.push(105);
        out.push(109);
        out.push(101);
        out.push(115);
        proof {
            assert(out@ =~= self.times_spec());
        }
        out
    }

    /// The git invocations opening issues before reading anything, so the
    /// local view is never stale when remote mode is requested: fetch, then a
    /// hard reset to the upstream reference. Without remote mode, none.
    pub fn open_sync_commands(use_remote: bool) -> (r: Vec<GitCmd>)
        ensures
            !use_remote ==> r@.len() == 0,
            use_remote ==> r@.len() == 2 && r@[0] is Fetch && r@[1] is ResetHardUpstream,
    {
        let mut out: Vec<GitCmd> = Vec::new();
        if use_remote {
            out.push(GitCmd::Fetch);
            out.push(GitCmd::ResetHardUpstream);
        }
        out
    }

    /// Open the archive at `path`. The shell reports whether the retry file
    /// already existed and hands over its content (empty if it was just
    /// created). Opening fails fast on a directory with no retry file unless
    /// a fresh archive is explicitly allowed, and fails on a corrupt retry
    /// file; no partial repository is ever returned.
    pub fn open(
        path: Vec<u8>,
        allow_new_dir: bool,
        use_remote: bool,
        retries_file_exists: bool,
        retries_content: &[u8],
    ) -> (r: Result<Repo, Error>)
        ensures
            !allow_new_dir && !retries_file_exists ==> (r matches Err(e)
                && e is RetriesFileMissing),
            allow_new_dir || retries_file_exists ==> ((r is Ok) <==> retries_parse_ok(
                retries_content@,
            )),
            r matches Ok(repo) ==> {
                &&& repo.path_spec() == path@
                &&& repo.use_remote_spec() == use_remote
                &&& repo.retries_spec() == clean_lines(retries_content@)
            },
            allow_new_dir || retries_file_exists ==> (r matches Err(e)
                ==> e matches Error::BadRetryHash { .. }),
    {
        if !allow_new_dir && !retries_file_exists {
            return Err(Error::RetriesFileMissing);
        }
        let retries = match parse_retries(retries_content) {
            Ok(q) => q,
            Err(e) => {
                return Err(e);
            },
        };
        Ok(Repo { path, use_remote, retries })
    }

    /// Replace the in-memory queue with what the retry file holds. The whole
    /// load fails, leaving the queue untouched, if any trimmed non-blank line
    /// is not exactly 40 bytes.
    pub fn load_retries(&mut self, content: &[u8]) -> (r: Result<(), Error>)
        ensures
            r is Ok <==> retries_parse_ok(content@),
            final(self).path_spec() == old(self).path_spec(),
            final(self).use_remote_spec() == old(self).use_remote_spec(),
            r is Ok ==> final(self).retries_spec() == clean_lines(content@),
            r is Err ==> final(self).retries_spec() == old(self).retries_spec(),
            r matches Err(e) ==> e matches Error::BadRetryHash { .. },
    {
        let parsed = match parse_retries(content) {
            Ok(q) => q,
            Err(e) => {
                return Err(e);
            },
        };
        self.retries = parsed;
        Ok(())
    }

    /// The content that persisting the retry queue writes: one entry per
    /// line. Invoked before every commit so the persisted queue reflects the
    /// in-memory state even if the process later crashes before pushing.
    pub fn write_retries(&self) -> (r: Vec<u8>)
        ensures
            r@ == render_retries_spec(self.retries_spec()),
    {
        render_retries(&self.retries)
    }

    /// Remove and return the oldest queued retry, if any.
    pub fn next_retry(&mut self) -> (r: Option<Vec<u8>>)
        ensures
            final(self).path_spec() == old(self).path_spec(),
            final(self).use_remote_spec() == old(self).use_remote_spec(),
            old(self).retries_spec().len() == 0 ==> r is None && final(self).retries_spec()
                == old(self).retries_spec(),
            old(self).retries_spec().len() > 0 ==> (r matches Some(s) && s@ == old(
                self,
            ).retries_spec()[0] && final(self).retries_spec() == old(
                self,
            ).retries_spec().drop_first()),
    {
        if self.retries.len() == 0 {
            None
        } else {
            let first = self.retries.remove(0);
            proof {
                assert(views(self.retries@) =~= views(old(self).retries@).drop_first());
            }
            Some(first)
        }
    }

    /// The file write that stores a result: the filename derived from the
    /// result's timestamp, commit and platform (relative to the results
    /// directory), and the encoded document. Overwrites any earlier result
    /// for the same commit and platform, since the name is deterministic.
    /// The identifier and timestamp lengths are required so that the written
    /// filename parses back during reconciliation.
    pub fn add_commit_data(&self, data: &CommitData) -> (r: FileWrite)
        requires
            commit_wf(data.sha@, data.date_str@),
        ensures
            r.name@ == result_filename_spec(data.date_str@, data.sha@, data.triple@),
            r.content@ == encode_spec(data@),
    {
        let name = format_result_filename(
            data.date_str.as_slice(),
            data.sha.as_slice(),
            data.triple.as_slice(),
        );
        let content = encode_commit_data(data);
        FileWrite { name, content }
    }

    /// The filename under which the result for a commit and platform is
    /// stored, relative to the results directory.
    pub fn result_filename(&self, commit: &Commit, triple: &[u8]) -> (r: Vec<u8>)
        ensures
            r@ == result_filename_spec(commit.date_str@, commit.sha@, triple@),
    {
        format_result_filename(commit.date_str.as_slice(), commit.sha.as_slice(), triple)
    }

    /// Decode the stored result for a commit and platform from the bytes of
    /// its file — located under the name [`Self::result_filename`] gives —
    /// or report that the file is absent or malformed.
    pub fn load_commit_data(&self, file: Option<&Vec<u8>>) -> (r: Result<CommitData, Error>)
        ensures
            file is None ==> (r matches Err(e) && e is ResultFileMissing),
            file matches Some(c) ==> match r {
                Ok(d) => decode_doc_spec(c@) == Some(d@),
                Err(e) => decode_doc_spec(c@) is None && e is MalformedResultFile,
            },
    {
        match file {
            None => Err(Error::ResultFileMissing),
            Some(content) => decode_commit_data(content.as_slice()),
        }
    }

    /// The git invocations that stage the retry file and the results
    /// directory and test whether the staged tree differs from head.
    pub fn stage_commands(&self) -> (r: Vec<GitCmd>)
        ensures
            r@.len() == 2,
            r@[0] is AddRetriesTimes,
            r@[1] is DiffIndexQuietHead,
    {
        let mut out: Vec<GitCmd> = Vec::new();
        out.push(GitCmd::AddRetriesTimes);
        out.push(GitCmd::DiffIndexQuietHead);
        out
    }

    /// The git invocations commit-and-push issues once the shell has staged
    /// and reports whether the staged tree differs from head: nothing when it
    /// is byte-identical (a no-op is a success, not an error), and exactly
    /// one commit — followed by a push only in remote mode — when it differs.
    pub fn commit_and_push_commands(&self, staged_differs: bool, message: &[u8]) -> (r: Vec<
        GitCmd,
    >)
        ensures
            !staged_differs ==> r@.len() == 0,
            staged_differs ==> r@.len() == (if self.use_remote_spec() {
                2int
            } else {
                1int
            }),
            staged_differs ==> (r@[0] matches GitCmd::Commit(m) && m@ == message@),
            staged_differs && self.use_remote_spec() ==> r@[1] is Push,
            forall|i: int| 1 <= i < r@.len() ==> !(#[trigger] r@[i] is Commit),
    {
        let mut out: Vec<GitCmd> = Vec::new();
        if staged_differs {
            let mut m: Vec<u8> = Vec::new();
            m.extend_from_slice(message);
            out.push(GitCmd::Commit(m));
            if self.use_remote {
                out.push(GitCmd::Push);
            }
        }
        out
    }

    /// The commit message a successful run is recorded under:
    /// `<sha> - success`.
    pub open spec fn success_message_spec(sha: Seq<u8>) -> Seq<u8> {
        sha + success_marker()
    }

    /// The plan for reporting a successful run: store the result file, then
    /// commit and push with a message naming the commit and the success
    /// marker.
    pub fn success(&self, data: &CommitData) -> (r: SuccessPlan)
        requires
            commit_wf(data.sha@, data.date_str@),
        ensures
            r.file.name@ == result_filename_spec(data.date_str@, data.sha@, data.triple@),
            r.file.content@ == encode_spec(data@),
            r.message@ == Self::success_message_spec(data.sha@),
    {
        let file = self.add_commit_data(data);
        let mut message: Vec<u8> = Vec::new();
        message.extend_from_slice(data.sha.as_slice());
        message.push(32);
        message.push(45);
        message.push(32);
        message.push(115);
        message.push(117);
        message.push(99);
        message.push(99);
        message.push(101);
        message.push(115);
        message.push(115);
        proof {
            assert(message@ =~= Self::success_message_spec(data.sha@));
        }
        SuccessPlan { file, message }
    }

    /// The line appended to the broken-commit log for a failed run:
    /// `<sha>: "<error detail>"` and a newline. Never deduplicated; a commit
    /// that fails repeatedly appears repeatedly.
    pub fn write_broken_commit(&self, commit: &Commit, err_text: &[u8]) -> (r: Vec<u8>)
        ensures
            r@ == commit.sha@ + seq![58u8, 32u8, 34u8] + err_text@ + seq![34u8, 10u8],
    {
        let mut out: Vec<u8> = Vec::new();
        out.extend_from_slice(commit.sha.as_slice());
        out.push(58);
        out.push(32);
        out.push(34);
        out.extend_from_slice(err_text);
        out.push(34);
        out.push(10);
        proof {
            assert(out@ =~= commit.sha@ + seq![58u8, 32u8, 34u8] + err_text@ + seq![34u8, 10u8]);
        }
        out
    }

    /// Compute which candidate commits still need results, against the
    /// current time. The shell supplies the stored filenames, the
    /// broken-commit log's content, and — for each candidate — the bytes of
    /// its result file for the platform under reconciliation, if present.
    /// The result is the missing list for some clock reading; all its other
    /// properties are those of [`missing_seq`].
    pub fn find_missing_commits(
        &self,
        candidates: Vec<Commit>,
        stored: &Vec<Option<Vec<u8>>>,
        filenames: &Vec<Vec<u8>>,
        broken_log: &Vec<u8>,
        benchmarks: &Vec<Benchmark>,
    ) -> (r: Result<Vec<Commit>, Error>)
        requires
            stored@.len() == candidates@.len(),
        ensures
            r is Ok <==> have_inputs_ok(
                views(filenames@),
                split_lines(broken_log@),
            ),
            r matches Ok(out) ==> exists|now: int|
                out@ == #[trigger] missing_seq(
                    candidates@,
                    stored@,
                    views(filenames@),
                    split_lines(broken_log@),
                    bench_names(benchmarks@),
                    now,
                ),
    {
        let now = now_unix_seconds();
        let r = find_missing_at(candidates, stored, filenames, broken_log, benchmarks, now);
        proof {
            if r is Ok {
                assert(r matches Ok(out) ==> out@ == missing_seq(
                    candidates@,
                    stored@,
                    views(filenames@),
                    split_lines(broken_log@),
                    bench_names(benchmarks@),
                    now as int,
                ));
            }
        }
        r
    }
}

} // verus!
