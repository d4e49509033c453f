//! The result store's filename scheme and its inverse.
//!
//! A stored result lives under `times/` as
//! `<RFC 3339 timestamp>-<commit-hash>-<platform-triple>.json`. The
//! timestamp rendering is the fixed-width 25-byte UTC form, so the embedded
//! commit hash always occupies bytes 26..66, and extraction is a documented
//! parse function proved inverse to the format function rather than an ad hoc
//! substring search.

use vstd::prelude::*;

verus! {

/// `.json`
pub open spec fn json_suffix() -> Seq<u8> {
    seq![46u8, 106u8, 115u8, 111u8, 110u8]
}

/// The filename of the result stored for a commit and platform:
/// `<date>-<sha>-<triple>.json`.
pub open spec fn result_filename_spec(date_str: Seq<u8>, sha: Seq<u8>, triple: Seq<u8>) -> Seq<u8> {
    date_str + seq![45u8] + sha + seq![45u8] + triple + json_suffix()
}

/// The commit hash embedded in a result filename: the 40 bytes after the
/// 25-byte timestamp and its separating dash, provided both dashes stand
/// where the format puts them.
pub open spec fn filename_sha_spec(name: Seq<u8>) -> Option<Seq<u8>> {
    if name.len() >= 67 && name[25] == 45 && name[66] == 45 {
        Some(name.subrange(26, 66))
    } else {
        None
    }
}

/// Format the filename for a stored result.
pub fn format_result_filename(date_str: &[u8], sha: &[u8], triple: &[u8]) -> (r: Vec<u8>)
    ensures
        r@ == result_filename_spec(date_str@, sha@, triple@),
{
    let mut out: Vec<u8> = Vec::new();
    out.extend_from_slice(date_str);
    out.push(45);
    out.extend_from_slice(sha);
    out.push(45);
    out.extend_from_slice(triple);
    out.push(46);
    out.push(106);
    out.push(115);
    out.push(111);
    out.push(110);
    proof {
        assert(out@ =~= result_filename_spec(date_str@, sha@, triple@));
    }
    out
}

/// Extract the commit hash embedded in a result filename.
pub fn parse_filename_sha(name: &[u8]) -> (r: Option<Vec<u8>>)
    ensures
        match r {
            Some(sha) => filename_sha_spec(name@) == Some(sha@),
            None => filename_sha_spec(name@) is None,
        },
{
    if name.len() >= 67 && name[25] == 45 && name[66] == 45 {
        let mut sha: Vec<u8> = Vec::new();
        let piece: &[u8] = &name[26..66];
        sha.extend_from_slice(piece);
        proof {
            assert(sha@ =~= name@.subrange(26, 66));
        }
        Some(sha)
    } else {
        None
    }
}

/// Extraction undoes formatting: the filename built for a well-formed
/// timestamp and hash yields that hash back, whatever the platform triple.
pub proof fn lemma_filename_roundtrip(date_str: Seq<u8>, sha: Seq<u8>, triple: Seq<u8>)
    requires
        date_str.len() == 25,
        sha.len() == 40,
    ensures
        filename_sha_spec(result_filename_spec(date_str, sha, triple)) == Some(sha),
{
    let name = result_filename_spec(date_str, sha, triple);
    assert(name.len() >= 67);
    assert(name[25] == 45);
    assert(name[66] == 45);
    assert(name.subrange(26, 66) =~= sha);
}

} // verus!
