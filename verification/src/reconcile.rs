//! Reconciliation: which candidate commits still need benchmark results.
//!
//! A commit is handled when its identifier appears in the result store (read
//! off the stored filenames) or in the broken-commit log. A candidate is
//! still missing when its timestamp lies within the reconciliation window
//! and it is either unhandled, or its own result file for the platform under
//! reconciliation fails to load: the file is absent, does not decode, or
//! decodes to a result that misses a requested benchmark. A load failure is
//! fail-open — the commit is re-run rather than silently accepted — with one
//! exception: a commit recorded in the broken-commit log whose file is
//! absent is handled, not missing, so known-broken commits are not retried
//! by this path. Candidate order is preserved.

use vstd::prelude::*;
use crate::bytes::{bytes_eq, contains_bytes, lemma_contains_append, seq_contains_bytes, views};
use crate::error::Error;
use crate::filename::{filename_sha_spec, parse_filename_sha};
use crate::model::{Benchmark, Commit, CommitData, has_benchmark, covers_all};
use crate::retry::{split_lines, split_lines_exec};
use crate::store::{decode_commit_data, decode_doc_spec};

verus! {

/// The reconciliation window: only candidates at most 29 days old still
/// count as missing.
pub const WINDOW_SECS: i64 = 29 * 86400;

/// Whether a commit timestamp lies within the window ending at `now_secs`.
pub open spec fn in_window(now_secs: int, date_secs: int) -> bool {
    now_secs - date_secs < WINDOW_SECS
}

/// Executable twin of [`in_window`].
pub fn in_window_exec(now_secs: i64, date_secs: i64) -> (r: bool)
    ensures
        r == in_window(now_secs as int, date_secs as int),
{
    (now_secs as i128) - (date_secs as i128) < WINDOW_SECS as i128
}

/// The commit identifier recorded in one broken-commit log line: the bytes
/// before the first `:`, or nothing if the line has no `:`.
pub open spec fn broken_sha_spec(line: Seq<u8>) -> Option<Seq<u8>>
    decreases line.len(),
{
    if line.len() == 0 {
        None
    } else if line[0] == 58 {
        Some(Seq::empty())
    } else {
        match broken_sha_spec(line.drop_first()) {
            Some(s) => Some(seq![line[0]] + s),
            None => None,
        }
    }
}

proof fn lemma_broken_sha_at(line: Seq<u8>, k: int)
    requires
        0 <= k <= line.len(),
        forall|j: int| 0 <= j < k ==> line[j] != 58,
        k < line.len() ==> line[k] == 58,
        k == line.len() ==> forall|j: int| 0 <= j < line.len() ==> line[j] != 58,
    ensures
        k < line.len() ==> broken_sha_spec(line) == Some(line.subrange(0, k)),
        k == line.len() ==> broken_sha_spec(line) is None,
    decreases k,
{
    if line.len() == 0 {
    } else if k == 0 {
        if k < line.len() {
            assert(line.subrange(0, 0) =~= Seq::<u8>::empty());
        }
    } else {
        assert(line[0] != 58);
        lemma_broken_sha_at(line.drop_first(), k - 1);
        if k < line.len() {
            assert(line.drop_first().subrange(0, k - 1) =~= line.subrange(1, k));
            assert(seq![line[0]] + line.subrange(1, k) =~= line.subrange(0, k));
        }
    }
}

/// Extract the commit identifier from one broken-commit log line.
pub fn parse_broken_sha(line: &[u8]) -> (r: Option<Vec<u8>>)
    ensures
        match r {
            Some(sha) => broken_sha_spec(line@) == Some(sha@),
            None => broken_sha_spec(line@) is None,
        },
{
    let mut k: usize = 0;
    while k < line.len() && line[k] != 58
        invariant
            k <= line.len(),
            forall|j: int| 0 <= j < k ==> line@[j] != 58,
        decreases line.len() - k,
    {
        k += 1;
    }
    proof {
        lemma_broken_sha_at(line@, k as int);
    }
    if k == line.len() {
        None
    } else {
        let mut sha: Vec<u8> = Vec::new();
        let piece: &[u8] = &line[0..k];
        sha.extend_from_slice(piece);
        proof {
            assert(sha@ =~= line@.subrange(0, k as int));
        }
        Some(sha)
    }
}

/// The commit identifiers embedded in the stored filenames, in order; a
/// filename that does not carry the store's format contributes nothing.
pub open spec fn file_shas(filenames: Seq<Seq<u8>>) -> Seq<Seq<u8>>
    decreases filenames.len(),
{
    if filenames.len() == 0 {
        Seq::empty()
    } else {
        let rest = file_shas(filenames.drop_first());
        match filename_sha_spec(filenames[0]) {
            Some(s) => seq![s] + rest,
            None => rest,
        }
    }
}

/// The commit identifiers recorded in the broken-commit log lines, in order;
/// blank lines and lines without a `:` contribute nothing.
pub open spec fn broken_shas(broken_lines: Seq<Seq<u8>>) -> Seq<Seq<u8>>
    decreases broken_lines.len(),
{
    if broken_lines.len() == 0 {
        Seq::empty()
    } else {
        let rest = broken_shas(broken_lines.drop_first());
        match broken_sha_spec(broken_lines[0]) {
            Some(s) => seq![s] + rest,
            None => rest,
        }
    }
}

/// A broken-commit log line of the form `<sha>: "<detail>"` records exactly
/// the identifier it was written for, so a commit reported broken is
/// recognized as handled when the log is read back.
pub proof fn lemma_broken_line_records(sha: Seq<u8>, detail: Seq<u8>)
    requires
        sha.len() > 0,
        forall|i: int| 0 <= i < sha.len() ==> sha[i] != 58,
    ensures
        broken_sha_spec(sha + seq![58u8, 32u8, 34u8] + detail + seq![34u8]) == Some(sha),
{
    let line = sha + seq![58u8, 32u8, 34u8] + detail + seq![34u8];
    let k = sha.len() as int;
    assert forall|j: int| 0 <= j < k implies line[j] != 58 by {
        assert(line[j] == sha[j]);
    }
    assert(line[k] == 58);
    lemma_broken_sha_at(line, k);
    assert(line.subrange(0, k) =~= sha);
}

/// Whether a commit identifier is handled: some stored filename embeds it,
/// or some broken-commit log line records it.
pub open spec fn have_contains(
    filenames: Seq<Seq<u8>>,
    broken_lines: Seq<Seq<u8>>,
    sha: Seq<u8>,
) -> bool {
    seq_contains_bytes(file_shas(filenames) + broken_shas(broken_lines), sha)
}

/// A line that records an identifier puts that identifier into the handled
/// set.
pub proof fn lemma_broken_shas_complete(broken_lines: Seq<Seq<u8>>, j: int)
    requires
        0 <= j < broken_lines.len(),
        broken_sha_spec(broken_lines[j]) is Some,
    ensures
        seq_contains_bytes(broken_shas(broken_lines), broken_sha_spec(broken_lines[j]).unwrap()),
    decreases broken_lines.len(),
{
    let out = broken_shas(broken_lines);
    let rest = broken_shas(broken_lines.drop_first());
    if j == 0 {
        assert(out[0] == broken_sha_spec(broken_lines[0]).unwrap());
    } else {
        lemma_broken_shas_complete(broken_lines.drop_first(), j - 1);
        let s = broken_sha_spec(broken_lines.drop_first()[j - 1]).unwrap();
        let t = choose|t: int| 0 <= t < rest.len() && rest[t] == s;
        match broken_sha_spec(broken_lines[0]) {
            Some(_) => {
                assert(out[t + 1] == s);
            },
            None => {
                assert(out[t] == s);
            },
        }
    }
}

pub proof fn lemma_file_shas_append(a: Seq<Seq<u8>>, b: Seq<Seq<u8>>)
    ensures
        file_shas(a + b) == file_shas(a) + file_shas(b),
    decreases a.len(),
{
    if a.len() == 0 {
        assert(a + b =~= b);
        assert(file_shas(a) =~= Seq::<Seq<u8>>::empty());
        assert(file_shas(a) + file_shas(b) =~= file_shas(b));
    } else {
        lemma_file_shas_append(a.drop_first(), b);
        assert((a + b)[0] == a[0]);
        assert((a + b).drop_first() =~= a.drop_first() + b);
        assert(file_shas(a + b) =~~= file_shas(a) + file_shas(b));
    }
}

pub proof fn lemma_broken_shas_append(a: Seq<Seq<u8>>, b: Seq<Seq<u8>>)
    ensures
        broken_shas(a + b) == broken_shas(a) + broken_shas(b),
    decreases a.len(),
{
    if a.len() == 0 {
        assert(a + b =~= b);
        assert(broken_shas(a) =~= Seq::<Seq<u8>>::empty());
        assert(broken_shas(a) + broken_shas(b) =~= broken_shas(b));
    } else {
        lemma_broken_shas_append(a.drop_first(), b);
        assert((a + b)[0] == a[0]);
        assert((a + b).drop_first() =~= a.drop_first() + b);
        assert(broken_shas(a + b) =~~= broken_shas(a) + broken_shas(b));
    }
}

/// Whether every stored filename parses and every non-blank broken-log line
/// carries its `:` separator, so that the handled set is complete.
pub open spec fn have_inputs_ok(filenames: Seq<Seq<u8>>, broken_lines: Seq<Seq<u8>>) -> bool {
    &&& forall|i: int|
        0 <= i < filenames.len() ==> #[trigger] filename_sha_spec(filenames[i]) is Some
    &&& forall|i: int|
        0 <= i < broken_lines.len() && broken_lines[i].len() != 0
            ==> #[trigger] broken_sha_spec(broken_lines[i]) is Some
}

/// Collect the handled commit identifiers from the stored filenames and the
/// broken-commit log lines. Fails on a filename that does not carry the
/// store's format, and on a non-blank log line without a `:`.
pub fn collect_have(filenames: &Vec<Vec<u8>>, broken_lines: &Vec<Vec<u8>>) -> (r: Result<
    (Vec<Vec<u8>>, Vec<Vec<u8>>),
    Error,
>)
    ensures
        r is Ok <==> have_inputs_ok(
            filenames@.map_values(|v: Vec<u8>| v@),
            broken_lines@.map_values(|v: Vec<u8>| v@),
        ),
        r matches Ok(h) ==> views(h.0@) == file_shas(filenames@.map_values(|v: Vec<u8>| v@))
            && views(h.1@) == broken_shas(broken_lines@.map_values(|v: Vec<u8>| v@)),
{
    let ghost fl = filenames@.map_values(|v: Vec<u8>| v@);
    let ghost bl = broken_lines@.map_values(|v: Vec<u8>| v@);
    let mut have: Vec<Vec<u8>> = Vec::new();
    let mut i: usize = 0;
    proof {
        assert(fl.subrange(0, 0) =~= Seq::<Seq<u8>>::empty());
        assert(views(have@) =~= file_shas(fl.subrange(0, 0)));
    }
    while i < filenames.len()
        invariant
            i <= filenames.len(),
            fl == filenames@.map_values(|v: Vec<u8>| v@),
            forall|j: int| 0 <= j < i ==> #[trigger] filename_sha_spec(fl[j]) is Some,
            views(have@) == file_shas(fl.subrange(0, i as int)),
        decreases filenames.len() - i,
    {
        let sha = match parse_filename_sha(filenames[i].as_slice()) {
            Some(s) => s,
            None => {
                return Err(Error::MalformedFilename { name: filenames[i].clone() });
            },
        };
        let ghost oldh = views(have@);
        have.push(sha);
        proof {
            lemma_file_shas_append(fl.subrange(0, i as int), seq![fl[i as int]]);
            assert(fl.subrange(0, i as int) + seq![fl[i as int]] =~= fl.subrange(0, i + 1));
            let single = seq![fl[i as int]];
            assert(single.drop_first() =~= Seq::<Seq<u8>>::empty());
            assert(file_shas(single.drop_first()) =~= Seq::<Seq<u8>>::empty());
            assert(file_shas(single) =~= seq![filename_sha_spec(fl[i as int]).unwrap()]);
            assert(views(have@) =~= oldh.push(filename_sha_spec(fl[i as int]).unwrap()));
            assert(views(have@) =~= file_shas(fl.subrange(0, i + 1)));
        }
        i += 1;
    }
    proof {
        assert(fl.subrange(0, i as int) =~= fl);
    }
    let have_files = have;
    let mut have: Vec<Vec<u8>> = Vec::new();
    proof {
        assert(bl.subrange(0, 0) =~= Seq::<Seq<u8>>::empty());
        assert(broken_shas(bl.subrange(0, 0)) =~= Seq::<Seq<u8>>::empty());
        assert(views(have@) =~= broken_shas(bl.subrange(0, 0)));
    }
    let mut k: usize = 0;
    while k < broken_lines.len()
        invariant
            k <= broken_lines.len(),
            fl == filenames@.map_values(|v: Vec<u8>| v@),
            bl == broken_lines@.map_values(|v: Vec<u8>| v@),
            forall|j: int| 0 <= j < fl.len() ==> #[trigger] filename_sha_spec(fl[j]) is Some,
            forall|j: int|
                0 <= j < k && bl[j].len() != 0 ==> #[trigger] broken_sha_spec(bl[j]) is Some,
            views(have@) == broken_shas(bl.subrange(0, k as int)),
        decreases broken_lines.len() - k,
    {
        let ghost oldh = views(have@);
        let ghost single = seq![bl[k as int]];
        proof {
            lemma_broken_shas_append(bl.subrange(0, k as int), single);
            assert(bl.subrange(0, k as int) + single =~= bl.subrange(0, k + 1));
            assert(single.drop_first() =~= Seq::<Seq<u8>>::empty());
            assert(broken_shas(single.drop_first()) =~= Seq::<Seq<u8>>::empty());
        }
        if broken_lines[k].len() != 0 {
            let sha = match parse_broken_sha(broken_lines[k].as_slice()) {
                Some(s) => s,
                None => {
                    return Err(Error::MalformedBrokenLine { line: broken_lines[k].clone() });
                },
            };
            proof {
                assert(broken_shas(single) =~= seq![broken_sha_spec(bl[k as int]).unwrap()]);
            }
            have.push(sha);
            proof {
                assert(views(have@) =~= oldh.push(broken_sha_spec(bl[k as int]).unwrap()));
                assert(views(have@) =~= broken_shas(bl.subrange(0, k + 1)));
            }
        } else {
            proof {
                let line_sha = broken_sha_spec(bl[k as int]);
                assert(bl[k as int].len() == 0);
                assert(line_sha is None);
                assert(broken_shas(single) =~= Seq::<Seq<u8>>::empty());
                assert(views(have@) =~= broken_shas(bl.subrange(0, k + 1)));
            }
        }
        k += 1;
    }
    proof {
        assert(bl.subrange(0, k as int) =~= bl);
    }
    Ok((have_files, have))
}

/// The benchmark names requested of a run.
pub open spec fn bench_names(bs: Seq<Benchmark>) -> Seq<Seq<u8>> {
    bs.map_values(|b: Benchmark| b.name@)
}

/// Whether the stored result records a measurement under the given name.
fn has_benchmark_exec(d: &CommitData, name: &[u8]) -> (r: bool)
    ensures
        r == has_benchmark(d@, name@),
{
    let mut j: usize = 0;
    while j < d.benchmarks.len()
        invariant
            j <= d.benchmarks.len(),
            forall|t: int| 0 <= t < j ==> d@.benchmarks[t].0 != name@,
        decreases d.benchmarks.len() - j,
    {
        if bytes_eq(d.benchmarks[j].0.as_slice(), name) {
            assert(d@.benchmarks[j as int].0 == name@);
            return true;
        }
        j += 1;
    }
    false
}

/// Whether the stored result covers every requested benchmark name.
fn covers_all_exec(d: &CommitData, benchmarks: &Vec<Benchmark>) -> (r: bool)
    ensures
        r == covers_all(d@, bench_names(benchmarks@)),
{
    let ghost names = bench_names(benchmarks@);
    let mut i: usize = 0;
    while i < benchmarks.len()
        invariant
            i <= benchmarks.len(),
            names == bench_names(benchmarks@),
            forall|t: int| 0 <= t < i ==> has_benchmark(d@, #[trigger] names[t]),
        decreases benchmarks.len() - i,
    {
        if !has_benchmark_exec(d, benchmarks[i].name.as_slice()) {
            assert(!has_benchmark(d@, names[i as int]));
            return false;
        }
        i += 1;
    }
    true
}

/// Whether the broken-commit log records the given identifier.
pub open spec fn broken_recorded(broken_lines: Seq<Seq<u8>>, sha: Seq<u8>) -> bool {
    seq_contains_bytes(broken_shas(broken_lines), sha)
}

/// Whether the commit's own result file leaves it still missing. Any failure
/// to load the file is fail-open — a document that does not decode, or one
/// that misses a requested benchmark, counts as missing — and so does an
/// absent file, unless the commit is recorded in the broken-commit log:
/// a known-broken commit with no result file is handled, not missing.
pub open spec fn stored_still_missing(
    stored: Option<Seq<u8>>,
    broken: bool,
    names: Seq<Seq<u8>>,
) -> bool {
    match stored {
        Some(content) => match decode_doc_spec(content) {
            Some(d) => !covers_all(d, names),
            None => true,
        },
        None => !broken,
    }
}

/// Whether one candidate commit is still missing.
pub open spec fn candidate_missing(
    c: Commit,
    stored: Option<Vec<u8>>,
    filenames: Seq<Seq<u8>>,
    broken_lines: Seq<Seq<u8>>,
    names: Seq<Seq<u8>>,
    now_secs: int,
) -> bool {
    &&& in_window(now_secs, c.date_secs as int)
    &&& {
        ||| !have_contains(filenames, broken_lines, c.sha@)
        ||| stored_still_missing(
            match stored {
                Some(v) => Some(v@),
                None => None,
            },
            broken_recorded(broken_lines, c.sha@),
            names,
        )
    }
}

/// The candidates still missing, in their original order.
pub open spec fn missing_seq(
    cands: Seq<Commit>,
    stored: Seq<Option<Vec<u8>>>,
    filenames: Seq<Seq<u8>>,
    broken_lines: Seq<Seq<u8>>,
    names: Seq<Seq<u8>>,
    now_secs: int,
) -> Seq<Commit>
    decreases cands.len(),
{
    if cands.len() == 0 || stored.len() != cands.len() {
        Seq::empty()
    } else {
        let rest = missing_seq(
            cands.drop_first(),
            stored.drop_first(),
            filenames,
            broken_lines,
            names,
            now_secs,
        );
        if candidate_missing(cands[0], stored[0], filenames, broken_lines, names, now_secs) {
            seq![cands[0]] + rest
        } else {
            rest
        }
    }
}

/// Every commit in the missing list is within the window: nothing older than
/// the window is ever reported missing, whatever the store holds.
pub proof fn lemma_missing_within_window(
    cands: Seq<Commit>,
    stored: Seq<Option<Vec<u8>>>,
    filenames: Seq<Seq<u8>>,
    broken_lines: Seq<Seq<u8>>,
    names: Seq<Seq<u8>>,
    now_secs: int,
)
    ensures
        forall|i: int|
            0 <= i < missing_seq(cands, stored, filenames, broken_lines, names, now_secs).len()
                ==> in_window(
                now_secs,
                #[trigger] missing_seq(
                    cands,
                    stored,
                    filenames,
                    broken_lines,
                    names,
                    now_secs,
                )[i].date_secs as int,
            ),
    decreases cands.len(),
{
    if cands.len() > 0 && stored.len() == cands.len() {
        lemma_missing_within_window(
            cands.drop_first(),
            stored.drop_first(),
            filenames,
            broken_lines,
            names,
            now_secs,
        );
        let out = missing_seq(cands, stored, filenames, broken_lines, names, now_secs);
        let rest = missing_seq(
            cands.drop_first(),
            stored.drop_first(),
            filenames,
            broken_lines,
            names,
            now_secs,
        );
        assert forall|i: int| 0 <= i < out.len() implies in_window(
            now_secs,
            #[trigger] out[i].date_secs as int,
        ) by {
            if candidate_missing(cands[0], stored[0], filenames, broken_lines, names, now_secs) {
                if i > 0 {
                    assert(out[i] == rest[i - 1]);
                }
            } else {
                assert(out[i] == rest[i]);
            }
        }
    }
}

/// A candidate within the window whose stored result covers only a strict
/// subset of the requested benchmark names is reported missing, even though
/// its result file exists.
pub proof fn lemma_missing_partial_result(
    cands: Seq<Commit>,
    stored: Seq<Option<Vec<u8>>>,
    filenames: Seq<Seq<u8>>,
    broken_lines: Seq<Seq<u8>>,
    names: Seq<Seq<u8>>,
    now_secs: int,
    i: int,
    d: crate::model::CommitDataView,
)
    requires
        stored.len() == cands.len(),
        0 <= i < cands.len(),
        in_window(now_secs, cands[i].date_secs as int),
        stored[i] matches Some(content) && decode_doc_spec(content@) == Some(d),
        exists|t: int| 0 <= t < names.len() && !has_benchmark(d, #[trigger] names[t]),
    ensures
        missing_seq(cands, stored, filenames, broken_lines, names, now_secs).contains(cands[i]),
    decreases cands.len(),
{
    let out = missing_seq(cands, stored, filenames, broken_lines, names, now_secs);
    let rest = missing_seq(
        cands.drop_first(),
        stored.drop_first(),
        filenames,
        broken_lines,
        names,
        now_secs,
    );
    if i == 0 {
        let t = choose|t: int| 0 <= t < names.len() && !has_benchmark(d, names[t]);
        assert(!covers_all(d, names));
        assert(candidate_missing(cands[0], stored[0], filenames, broken_lines, names, now_secs));
        assert(out[0] == cands[0]);
    } else {
        lemma_missing_partial_result(
            cands.drop_first(),
            stored.drop_first(),
            filenames,
            broken_lines,
            names,
            now_secs,
            i - 1,
            d,
        );
        let c = cands.drop_first()[i - 1];
        assert(c == cands[i]);
        assert(rest.contains(c));
        let j = choose|j: int| 0 <= j < rest.len() && rest[j] == c;
        if candidate_missing(cands[0], stored[0], filenames, broken_lines, names, now_secs) {
            assert(out[j + 1] == c);
        }
    }
}

/// A commit recorded in the broken-commit log and without a result file is
/// not reported missing, even within the window: no entry of the missing
/// list carries its identifier, provided no candidate with that identifier
/// has a stored file (one with a file is judged by that file instead).
pub proof fn lemma_broken_commit_excluded(
    cands: Seq<Commit>,
    stored: Seq<Option<Vec<u8>>>,
    filenames: Seq<Seq<u8>>,
    broken_lines: Seq<Seq<u8>>,
    names: Seq<Seq<u8>>,
    now_secs: int,
    sha: Seq<u8>,
)
    requires
        stored.len() == cands.len(),
        exists|j: int|
            0 <= j < broken_lines.len() && #[trigger] broken_sha_spec(broken_lines[j]) == Some(
                sha,
            ),
        forall|j: int| 0 <= j < cands.len() && #[trigger] cands[j].sha@ == sha ==> stored[j] is None,
    ensures
        forall|t: int|
            0 <= t < missing_seq(cands, stored, filenames, broken_lines, names, now_secs).len()
                ==> #[trigger] missing_seq(
                cands,
                stored,
                filenames,
                broken_lines,
                names,
                now_secs,
            )[t].sha@ != sha,
    decreases cands.len(),
{
    let out = missing_seq(cands, stored, filenames, broken_lines, names, now_secs);
    let j0 = choose|j0: int|
        0 <= j0 < broken_lines.len() && #[trigger] broken_sha_spec(broken_lines[j0]) == Some(sha);
    lemma_broken_shas_complete(broken_lines, j0);
    assert(broken_recorded(broken_lines, sha));
    if cands.len() > 0 {
        let rest_cands = cands.drop_first();
        let rest_stored = stored.drop_first();
        let rest = missing_seq(rest_cands, rest_stored, filenames, broken_lines, names, now_secs);
        assert forall|j: int|
            0 <= j < rest_cands.len() && #[trigger] rest_cands[j].sha@ == sha
                implies rest_stored[j] is None by {
            assert(rest_cands[j] == cands[j + 1]);
            assert(rest_stored[j] == stored[j + 1]);
        }
        lemma_broken_commit_excluded(
            rest_cands,
            rest_stored,
            filenames,
            broken_lines,
            names,
            now_secs,
            sha,
        );
        if candidate_missing(cands[0], stored[0], filenames, broken_lines, names, now_secs) {
            if cands[0].sha@ == sha {
                assert(stored[0] is None);
                lemma_contains_append(file_shas(filenames), broken_shas(broken_lines), sha);
                assert(have_contains(filenames, broken_lines, sha));
                assert(!stored_still_missing(
                    None,
                    broken_recorded(broken_lines, sha),
                    names,
                ));
                assert(false);
            }
            assert forall|t: int| 0 <= t < out.len() implies #[trigger] out[t].sha@ != sha by {
                if t == 0 {
                    assert(out[0] == cands[0]);
                } else {
                    assert(out[t] == rest[t - 1]);
                }
            }
        } else {
            assert(out == rest);
        }
    }
}

/// Everything in the missing list is one of the candidates.
pub proof fn lemma_missing_subset(
    cands: Seq<Commit>,
    stored: Seq<Option<Vec<u8>>>,
    filenames: Seq<Seq<u8>>,
    broken_lines: Seq<Seq<u8>>,
    names: Seq<Seq<u8>>,
    now_secs: int,
)
    ensures
        forall|j: int|
            0 <= j < missing_seq(cands, stored, filenames, broken_lines, names, now_secs).len()
                ==> exists|k: int|
                0 <= k < cands.len() && cands[k] == #[trigger] missing_seq(
                    cands,
                    stored,
                    filenames,
                    broken_lines,
                    names,
                    now_secs,
                )[j],
    decreases cands.len(),
{
    if cands.len() > 0 && stored.len() == cands.len() {
        lemma_missing_subset(
            cands.drop_first(),
            stored.drop_first(),
            filenames,
            broken_lines,
            names,
            now_secs,
        );
        let out = missing_seq(cands, stored, filenames, broken_lines, names, now_secs);
        let rest = missing_seq(
            cands.drop_first(),
            stored.drop_first(),
            filenames,
            broken_lines,
            names,
            now_secs,
        );
        assert forall|j: int| 0 <= j < out.len() implies exists|k: int|
            0 <= k < cands.len() && cands[k] == #[trigger] out[j] by {
            if candidate_missing(cands[0], stored[0], filenames, broken_lines, names, now_secs) {
                if j == 0 {
                    assert(cands[0] == out[0]);
                } else {
                    let k = choose|k: int|
                        0 <= k < cands.drop_first().len() && cands.drop_first()[k] == rest[j - 1];
                    assert(cands[k + 1] == out[j]);
                }
            } else {
                let k = choose|k: int|
                    0 <= k < cands.drop_first().len() && cands.drop_first()[k] == rest[j];
                assert(cands[k + 1] == out[j]);
            }
        }
    }
}

/// Compute the candidates still missing, preserving their order. `stored`
/// holds, for each candidate, the bytes of its result file for the platform
/// under reconciliation, if that file exists. Fails only when the store's
/// filenames or the broken-commit log are malformed.
pub fn find_missing_at(
    candidates: Vec<Commit>,
    stored: &Vec<Option<Vec<u8>>>,
    filenames: &Vec<Vec<u8>>,
    broken_log: &Vec<u8>,
    benchmarks: &Vec<Benchmark>,
    now_secs: i64,
) -> (r: Result<Vec<Commit>, Error>)
    requires
        stored@.len() == candidates@.len(),
    ensures
        r is Ok <==> have_inputs_ok(
            filenames@.map_values(|v: Vec<u8>| v@),
            split_lines(broken_log@),
        ),
        r matches Ok(out) ==> out@ == missing_seq(
            candidates@,
            stored@,
            filenames@.map_values(|v: Vec<u8>| v@),
            split_lines(broken_log@),
            bench_names(benchmarks@),
            now_secs as int,
        ),
{
    let ghost fl = filenames@.map_values(|v: Vec<u8>| v@);
    let ghost bl = split_lines(broken_log@);
    let ghost names = bench_names(benchmarks@);
    let broken_lines = split_lines_exec(broken_log.as_slice());
    let (have_files, have_broken) = match collect_have(filenames, &broken_lines) {
        Ok(h) => h,
        Err(e) => {
            return Err(e);
        },
    };
    let ghost hvf = views(have_files@);
    let ghost hvb = views(have_broken@);
    let mut out: Vec<Commit> = Vec::new();
    let mut i: usize = 0;
    let ghost cands = candidates@;
    let ghost storedv = stored@;
    let mut rem = candidates;
    let n = rem.len();
    proof {
        assert(cands.len() == n);
        assert(rem@.subrange(0, rem@.len() as int) =~= cands);
        assert(cands.subrange(0, cands.len() as int) =~= cands);
        assert(storedv.subrange(0, storedv.len() as int) =~= storedv);
        assert(out@ + missing_seq(cands, storedv, fl, bl, names, now_secs as int) =~= missing_seq(
            cands,
            storedv,
            fl,
            bl,
            names,
            now_secs as int,
        ));
    }
    while rem.len() > 0
        invariant
            i + rem@.len() == cands.len(),
            cands.len() <= usize::MAX,
            rem@ == cands.subrange(i as int, cands.len() as int),
            storedv == stored@,
            storedv.len() == cands.len(),
            hvf == views(have_files@),
            hvb == views(have_broken@),
            fl == filenames@.map_values(|v: Vec<u8>| v@),
            bl == split_lines(broken_log@),
            names == bench_names(benchmarks@),
            hvf == file_shas(fl),
            hvb == broken_shas(bl),
            missing_seq(cands, storedv, fl, bl, names, now_secs as int) == out@ + missing_seq(
                cands.subrange(i as int, cands.len() as int),
                storedv.subrange(i as int, storedv.len() as int),
                fl,
                bl,
                names,
                now_secs as int,
            ),
        decreases rem@.len(),
    {
        let ghost csuf = cands.subrange(i as int, cands.len() as int);
        let ghost ssuf = storedv.subrange(i as int, storedv.len() as int);
        proof {
            assert(csuf.len() > 0);
            assert(csuf[0] == cands[i as int]);
            assert(ssuf[0] == storedv[i as int]);
            assert(csuf.drop_first() =~= cands.subrange(i + 1, cands.len() as int));
            assert(ssuf.drop_first() =~= storedv.subrange(i + 1, storedv.len() as int));
        }
        let c = rem.remove(0);
        proof {
            assert(c == cands[i as int]);
            assert(rem@ =~= cands.subrange(i + 1, cands.len() as int));
        }
        let mut keep = false;
        if in_window_exec(now_secs, c.date_secs) {
            let in_files = contains_bytes(&have_files, c.sha.as_slice());
            let in_broken = contains_bytes(&have_broken, c.sha.as_slice());
            proof {
                lemma_contains_append(hvf, hvb, c.sha@);
                assert((in_files || in_broken) == have_contains(fl, bl, c.sha@));
                assert(in_broken == broken_recorded(bl, c.sha@));
            }
            if !(in_files || in_broken) {
                keep = true;
            } else {
                match &stored[i] {
                    Some(content) => {
                        match decode_commit_data(content.as_slice()) {
                            Ok(d) => {
                                if !covers_all_exec(&d, benchmarks) {
                                    keep = true;
                                }
                            },
                            Err(_) => {
                                keep = true;
                            },
                        }
                    },
                    None => {
                        if !in_broken {
                            keep = true;
                        }
                    },
                }
            }
        }
        proof {
            assert(keep == candidate_missing(
                cands[i as int],
                storedv[i as int],
                fl,
                bl,
                names,
                now_secs as int,
            ));
        }
        let ghost oldout = out@;
        if keep {
            out.push(c);
        }
        proof {
            let restm = missing_seq(
                csuf.drop_first(),
                ssuf.drop_first(),
                fl,
                bl,
                names,
                now_secs as int,
            );
            if keep {
                assert(missing_seq(csuf, ssuf, fl, bl, names, now_secs as int) == seq![
                    csuf[0],
                ] + restm);
                assert(out@ =~= oldout.push(cands[i as int]));
                assert(oldout.push(cands[i as int]) + restm =~= oldout + (seq![csuf[0]] + restm));
            } else {
                assert(missing_seq(csuf, ssuf, fl, bl, names, now_secs as int) == restm);
            }
        }
        i += 1;
    }
    proof {
        let csuf = cands.subrange(i as int, cands.len() as int);
        let ssuf = storedv.subrange(i as int, storedv.len() as int);
        assert(csuf =~= Seq::<Commit>::empty());
        assert(missing_seq(csuf, ssuf, fl, bl, names, now_secs as int) =~= Seq::<Commit>::empty());
        assert(out@ + missing_seq(csuf, ssuf, fl, bl, names, now_secs as int) =~= out@);
    }
    Ok(out)
}

} // verus!
