//! The retry file: a newline-separated list of 40-byte commit hashes.
//!
//! Loading trims each line, discards blank lines, and rejects the whole file
//! if any remaining line is not exactly 40 bytes long — a wrong length is a
//! corruption signal, not something to drop silently. Writing renders one
//! entry per line. The two directions are proved inverse of each other.

use vstd::prelude::*;
use crate::error::Error;

verus! {

/// ASCII whitespace that trimming removes at the ends of a line.
/// Newlines never occur inside a line, since lines are split on them.
pub open spec fn is_space(b: u8) -> bool {
    b == 32 || b == 9 || b == 13 || b == 11 || b == 12
}

/// Executable twin of [`is_space`].
pub fn is_space_byte(b: u8) -> (r: bool)
    ensures
        r == is_space(b),
{
    b == 32 || b == 9 || b == 13 || b == 11 || b == 12
}

/// The lines of a byte string, split on `\n`. A terminating newline yields a
/// final empty line; the empty string is one empty line.
pub open spec fn split_lines(s: Seq<u8>) -> Seq<Seq<u8>>
    decreases s.len(),
{
    if s.len() == 0 {
        seq![Seq::<u8>::empty()]
    } else if s[0] == 10 {
        seq![Seq::<u8>::empty()] + split_lines(s.drop_first())
    } else {
        let rest = split_lines(s.drop_first());
        seq![seq![s[0]] + rest[0]] + rest.drop_first()
    }
}

pub proof fn lemma_split_lines_nonempty(s: Seq<u8>)
    ensures
        split_lines(s).len() >= 1,
    decreases s.len(),
{
    if s.len() > 0 {
        lemma_split_lines_nonempty(s.drop_first());
    }
}

/// No line produced by [`split_lines`] contains a newline byte.
pub proof fn lemma_split_lines_no_newline(s: Seq<u8>)
    ensures
        forall|i: int, j: int|
            0 <= i < split_lines(s).len() && 0 <= j < split_lines(s)[i].len()
                ==> split_lines(s)[i][j] != 10,
    decreases s.len(),
{
    if s.len() > 0 {
        lemma_split_lines_no_newline(s.drop_first());
        lemma_split_lines_nonempty(s.drop_first());
    }
}

/// Splitting `line + "\n" + rest` yields `line` followed by the lines of
/// `rest`, provided `line` itself contains no newline.
pub proof fn lemma_split_lines_cons(line: Seq<u8>, rest: Seq<u8>)
    requires
        forall|i: int| 0 <= i < line.len() ==> line[i] != 10,
    ensures
        split_lines(line + seq![10u8] + rest) == seq![line] + split_lines(rest),
    decreases line.len(),
{
    let whole = line + seq![10u8] + rest;
    if line.len() == 0 {
        assert(whole =~= seq![10u8] + rest);
        assert(whole[0] == 10);
        assert(whole.drop_first() =~= rest);
        assert(split_lines(whole) =~~= seq![line] + split_lines(rest));
    } else {
        lemma_split_lines_cons(line.drop_first(), rest);
        assert(whole[0] == line[0]);
        assert(whole[0] != 10);
        assert(whole.drop_first() =~= line.drop_first() + seq![10u8] + rest);
        let subrest = split_lines(whole.drop_first());
        assert(subrest == seq![line.drop_first()] + split_lines(rest));
        assert(subrest[0] == line.drop_first());
        assert(seq![whole[0]] + subrest[0] =~= line);
        assert(subrest.drop_first() =~~= split_lines(rest));
        assert(split_lines(whole) =~~= seq![line] + split_lines(rest));
    }
}

/// Glue a partial first line onto a line list.
pub open spec fn glue(cur: Seq<u8>, ls: Seq<Seq<u8>>) -> Seq<Seq<u8>>
    recommends
        ls.len() >= 1,
{
    seq![cur + ls[0]] + ls.drop_first()
}

/// Split a byte string into its lines.
pub fn split_lines_exec(content: &[u8]) -> (r: Vec<Vec<u8>>)
    ensures
        r@.map_values(|v: Vec<u8>| v@) == split_lines(content@),
{
    let ghost full = content@;
    let mut done: Vec<Vec<u8>> = Vec::new();
    let mut cur: Vec<u8> = Vec::new();
    let mut i: usize = 0;
    proof {
        assert(full.subrange(0, full.len() as int) =~= full);
        lemma_split_lines_nonempty(full);
        assert(glue(cur@, split_lines(full)) =~~= split_lines(full));
    }
    while i < content.len()
        invariant
            i <= content.len(),
            full == content@,
            split_lines(full.subrange(i as int, full.len() as int)).len() >= 1,
            done@.map_values(|v: Vec<u8>| v@) + glue(
                cur@,
                split_lines(full.subrange(i as int, full.len() as int)),
            ) == split_lines(full),
        decreases content.len() - i,
    {
        let ghost suf = full.subrange(i as int, full.len() as int);
        let ghost suf2 = full.subrange(i + 1, full.len() as int);
        proof {
            assert(suf.len() > 0);
            assert(suf[0] == full[i as int]);
            assert(suf.drop_first() =~= suf2);
            lemma_split_lines_nonempty(suf2);
        }
        let b = content[i];
        if b == 10 {
            proof {
                assert(split_lines(suf) == seq![Seq::<u8>::empty()] + split_lines(suf2));
                assert(glue(cur@, split_lines(suf)) =~~= seq![cur@] + split_lines(suf2));
            }
            let finished = cur;
            cur = Vec::new();
            done.push(finished);
            proof {
                assert(done@.map_values(|v: Vec<u8>| v@) + glue(cur@, split_lines(suf2))
                    =~~= split_lines(full));
            }
        } else {
            proof {
                let rest = split_lines(suf2);
                assert(split_lines(suf) == seq![seq![suf[0]] + rest[0]] + rest.drop_first());
                assert(glue(cur@, split_lines(suf)) =~~= glue(cur@.push(b), rest));
            }
            cur.push(b);
        }
        i += 1;
    }
    proof {
        let suf = full.subrange(i as int, full.len() as int);
        assert(suf =~= Seq::<u8>::empty());
        assert(split_lines(suf) == seq![Seq::<u8>::empty()]);
        assert(glue(cur@, split_lines(suf)) =~~= seq![cur@]);
    }
    done.push(cur);
    proof {
        assert(done@.map_values(|v: Vec<u8>| v@) =~~= split_lines(full));
    }
    done
}

/// A byte string with its leading whitespace removed.
pub open spec fn trim_front(s: Seq<u8>) -> Seq<u8>
    decreases s.len(),
{
    if s.len() > 0 && is_space(s[0]) {
        trim_front(s.drop_first())
    } else {
        s
    }
}

/// A byte string with its trailing whitespace removed.
pub open spec fn trim_back(s: Seq<u8>) -> Seq<u8>
    decreases s.len(),
{
    if s.len() > 0 && is_space(s.last()) {
        trim_back(s.drop_last())
    } else {
        s
    }
}

/// A byte string with whitespace removed at both ends.
pub open spec fn trim(s: Seq<u8>) -> Seq<u8> {
    trim_back(trim_front(s))
}

proof fn lemma_trim_front_skip(s: Seq<u8>, a: int)
    requires
        0 <= a <= s.len(),
        forall|j: int| 0 <= j < a ==> is_space(s[j]),
        a == s.len() || !is_space(s[a]),
    ensures
        trim_front(s) == s.subrange(a, s.len() as int),
    decreases a,
{
    if a == 0 {
        assert(s.subrange(0, s.len() as int) =~= s);
    } else {
        assert(is_space(s[0]));
        lemma_trim_front_skip(s.drop_first(), a - 1);
        assert(s.drop_first().subrange(a - 1, s.drop_first().len() as int)
            =~= s.subrange(a, s.len() as int));
    }
}

proof fn lemma_trim_back_skip(s: Seq<u8>, k: int)
    requires
        0 <= k <= s.len(),
        forall|j: int| k <= j < s.len() ==> is_space(s[j]),
        k == 0 || !is_space(s[k - 1]),
    ensures
        trim_back(s) == s.subrange(0, k),
    decreases s.len(),
{
    if k == s.len() {
        if s.len() > 0 && is_space(s.last()) {
            assert(false);
        }
        assert(s.subrange(0, k) =~= s);
    } else {
        assert(is_space(s.last()));
        lemma_trim_back_skip(s.drop_last(), k);
        assert(s.drop_last().subrange(0, k) =~= s.subrange(0, k));
    }
}

/// Trim whitespace from both ends of a line.
pub fn trim_exec(line: &[u8]) -> (r: Vec<u8>)
    ensures
        r@ == trim(line@),
{
    let mut a: usize = 0;
    while a < line.len() && is_space_byte(line[a])
        invariant
            a <= line.len(),
            forall|j: int| 0 <= j < a ==> is_space(line@[j]),
        decreases line.len() - a,
    {
        a += 1;
    }
    let mut b: usize = line.len();
    while b > a && is_space_byte(line[b - 1])
        invariant
            a <= b <= line.len(),
            forall|j: int| b <= j < line.len() ==> is_space(line@[j]),
        decreases b,
    {
        b -= 1;
    }
    proof {
        lemma_trim_front_skip(line@, a as int);
        let m = line@.subrange(a as int, line@.len() as int);
        lemma_trim_back_skip(m, b - a);
        assert(m.subrange(0, b - a) =~= line@.subrange(a as int, b as int));
    }
    let mut out: Vec<u8> = Vec::new();
    let piece: &[u8] = &line[a..b];
    out.extend_from_slice(piece);
    assert(out@ =~= line@.subrange(a as int, b as int));
    out
}

/// The trimmed, non-blank lines of a line list, in order.
pub open spec fn cleaned(lines: Seq<Seq<u8>>) -> Seq<Seq<u8>>
    decreases lines.len(),
{
    if lines.len() == 0 {
        Seq::empty()
    } else {
        let t = trim(lines[0]);
        let rest = cleaned(lines.drop_first());
        if t.len() == 0 {
            rest
        } else {
            seq![t] + rest
        }
    }
}

/// The queue entries recorded in a retry file's content: its trimmed,
/// non-blank lines, in order.
pub open spec fn clean_lines(s: Seq<u8>) -> Seq<Seq<u8>> {
    cleaned(split_lines(s))
}

/// Whether a retry file's content loads successfully: every entry is exactly
/// 40 bytes long.
pub open spec fn retries_parse_ok(s: Seq<u8>) -> bool {
    forall|i: int| 0 <= i < clean_lines(s).len() ==> #[trigger] clean_lines(s)[i].len() == 40
}

/// Parse a retry file. Succeeds with the full queue if and only if every
/// trimmed, non-blank line is exactly 40 bytes; otherwise the whole load
/// fails, naming the first offending line.
pub fn parse_retries(content: &[u8]) -> (r: Result<Vec<Vec<u8>>, Error>)
    ensures
        r is Ok <==> retries_parse_ok(content@),
        r matches Ok(q) ==> q@.map_values(|v: Vec<u8>| v@) == clean_lines(content@),
        r matches Err(e) ==> (e matches Error::BadRetryHash { line } && {
            &&& line@.len() != 40
            &&& exists|i: int|
                0 <= i < clean_lines(content@).len() && #[trigger] clean_lines(content@)[i]
                    == line@
        }),
{
    let ghost cl = clean_lines(content@);
    let lines = split_lines_exec(content);
    let ghost ls = lines@.map_values(|v: Vec<u8>| v@);
    let mut out: Vec<Vec<u8>> = Vec::new();
    let mut i: usize = 0;
    proof {
        assert(ls.subrange(0, ls.len() as int) =~= ls);
    }
    while i < lines.len()
        invariant
            i <= lines.len(),
            ls == lines@.map_values(|v: Vec<u8>| v@),
            cl == cleaned(ls),
            cl == clean_lines(content@),
            out@.map_values(|v: Vec<u8>| v@) + cleaned(
                ls.subrange(i as int, ls.len() as int),
            ) == cl,
            forall|j: int| 0 <= j < out@.len() ==> #[trigger] out@[j]@.len() == 40,
        decreases lines.len() - i,
    {
        let ghost suf = ls.subrange(i as int, ls.len() as int);
        let ghost suf2 = ls.subrange(i + 1, ls.len() as int);
        proof {
            assert(suf.len() > 0);
            assert(suf[0] == ls[i as int]);
            assert(suf.drop_first() =~= suf2);
        }
        let t = trim_exec(lines[i].as_slice());
        if t.len() == 0 {
            proof {
                assert(cleaned(suf) == cleaned(suf2));
            }
        } else if t.len() == 40 {
            proof {
                assert(cleaned(suf) == seq![t@] + cleaned(suf2));
                assert(out@.push(t).map_values(|v: Vec<u8>| v@)
                    =~= out@.map_values(|v: Vec<u8>| v@).push(t@));
                assert(out@.map_values(|v: Vec<u8>| v@).push(t@) + cleaned(suf2)
                    =~= out@.map_values(|v: Vec<u8>| v@) + cleaned(suf));
            }
            out.push(t);
        } else {
            proof {
                assert(cleaned(suf) == seq![t@] + cleaned(suf2));
                let n = out@.len() as int;
                assert(out@.map_values(|v: Vec<u8>| v@).len() == n);
                assert(cl[n] == (seq![t@] + cleaned(suf2))[0]);
                assert(clean_lines(content@)[n] == t@);
                assert(clean_lines(content@)[n].len() != 40);
                assert(!retries_parse_ok(content@));
            }
            return Err(Error::BadRetryHash { line: t });
        }
        i += 1;
    }
    proof {
        let suf = ls.subrange(i as int, ls.len() as int);
        assert(suf =~= Seq::<Seq<u8>>::empty());
        assert(cleaned(suf) =~= Seq::<Seq<u8>>::empty());
        assert(out@.map_values(|v: Vec<u8>| v@) =~= cl);
        assert(retries_parse_ok(content@));
    }
    Ok(out)
}

/// The file content that writing a queue produces: one entry per line, each
/// followed by a newline.
pub open spec fn render_retries_spec(q: Seq<Seq<u8>>) -> Seq<u8>
    decreases q.len(),
{
    if q.len() == 0 {
        Seq::empty()
    } else {
        q[0] + seq![10u8] + render_retries_spec(q.drop_first())
    }
}

pub proof fn lemma_render_retries_append(a: Seq<Seq<u8>>, b: Seq<Seq<u8>>)
    ensures
        render_retries_spec(a + b) == render_retries_spec(a) + render_retries_spec(b),
    decreases a.len(),
{
    if a.len() == 0 {
        assert(a + b =~= b);
        assert(render_retries_spec(a) =~= Seq::<u8>::empty());
        assert(render_retries_spec(a) + render_retries_spec(b) =~= render_retries_spec(b));
    } else {
        lemma_render_retries_append(a.drop_first(), b);
        assert((a + b).drop_first() =~= a.drop_first() + b);
        assert((a + b)[0] == a[0]);
        assert(render_retries_spec(a + b) =~= render_retries_spec(a) + render_retries_spec(b));
    }
}

/// Render a queue as retry-file content.
pub fn render_retries(q: &Vec<Vec<u8>>) -> (r: Vec<u8>)
    ensures
        r@ == render_retries_spec(q@.map_values(|v: Vec<u8>| v@)),
{
    let ghost qs = q@.map_values(|v: Vec<u8>| v@);
    let mut out: Vec<u8> = Vec::new();
    let mut i: usize = 0;
    proof {
        assert(qs.subrange(0, 0) =~= Seq::<Seq<u8>>::empty());
        assert(out@ =~= render_retries_spec(qs.subrange(0, 0)));
    }
    while i < q.len()
        invariant
            i <= q.len(),
            qs == q@.map_values(|v: Vec<u8>| v@),
            out@ == render_retries_spec(qs.subrange(0, i as int)),
        decreases q.len() - i,
    {
        proof {
            lemma_render_retries_append(qs.subrange(0, i as int), seq![qs[i as int]]);
            assert(qs.subrange(0, i as int) + seq![qs[i as int]] =~= qs.subrange(0, i + 1));
            let single = seq![qs[i as int]];
            assert(single.drop_first() =~= Seq::<Seq<u8>>::empty());
            assert(render_retries_spec(Seq::<Seq<u8>>::empty()) =~= Seq::<u8>::empty());
            assert(single[0] == qs[i as int]);
            assert(render_retries_spec(single) =~= qs[i as int] + seq![10u8]);
        }
        out.extend_from_slice(q[i].as_slice());
        out.push(10);
        proof {
            assert(out@ =~= render_retries_spec(qs.subrange(0, i + 1)));
        }
        i += 1;
    }
    proof {
        assert(qs.subrange(0, i as int) =~= qs);
    }
    out
}

/// A queue entry as the writer lays it out and the loader gives it back:
/// non-blank, no newline inside, no whitespace at either end.
pub open spec fn wf_entry(l: Seq<u8>) -> bool {
    &&& l.len() > 0
    &&& forall|i: int| 0 <= i < l.len() ==> l[i] != 10
    &&& !is_space(l[0])
    &&& !is_space(l.last())
}

/// A hex-like 40-byte commit hash.
pub open spec fn is_hex_byte(b: u8) -> bool {
    (48 <= b <= 57) || (97 <= b <= 102) || (65 <= b <= 70)
}

/// A valid 40-character hex-like hash string.
pub open spec fn valid_hash(l: Seq<u8>) -> bool {
    l.len() == 40 && forall|i: int| 0 <= i < l.len() ==> is_hex_byte(#[trigger] l[i])
}

pub proof fn lemma_valid_hash_wf(l: Seq<u8>)
    requires
        valid_hash(l),
    ensures
        wf_entry(l),
{
    assert(is_hex_byte(l[0]));
    assert(is_hex_byte(l[l.len() - 1]));
}

proof fn lemma_trim_id(l: Seq<u8>)
    requires
        l.len() == 0 || (!is_space(l[0]) && !is_space(l.last())),
    ensures
        trim(l) == l,
{
    if l.len() == 0 {
        assert(trim_front(l) == l);
        assert(trim_back(l) == l);
    } else {
        assert(trim_front(l) == l);
        assert(trim_back(l) == l);
    }
}

/// Rendering well-formed entries and splitting the result back into cleaned
/// lines returns exactly the entries.
pub proof fn lemma_clean_of_render(q: Seq<Seq<u8>>)
    requires
        forall|i: int| 0 <= i < q.len() ==> wf_entry(#[trigger] q[i]),
    ensures
        clean_lines(render_retries_spec(q)) == q,
    decreases q.len(),
{
    if q.len() == 0 {
        let empty = Seq::<u8>::empty();
        assert(render_retries_spec(q) == empty);
        let ls = seq![Seq::<u8>::empty()];
        assert(split_lines(empty) == ls);
        lemma_trim_id(Seq::<u8>::empty());
        assert(trim(ls[0]).len() == 0);
        assert(ls.drop_first() =~= Seq::<Seq<u8>>::empty());
        assert(cleaned(Seq::<Seq<u8>>::empty()) =~= Seq::<Seq<u8>>::empty());
        assert(cleaned(ls) =~= Seq::<Seq<u8>>::empty());
        assert(clean_lines(empty) =~~= q);
    } else {
        lemma_clean_of_render(q.drop_first());
        let head = q[0];
        let rest = render_retries_spec(q.drop_first());
        assert(wf_entry(head));
        assert(render_retries_spec(q) == head + seq![10u8] + rest);
        lemma_split_lines_cons(head, rest);
        let ls = split_lines(render_retries_spec(q));
        assert(ls == seq![head] + split_lines(rest));
        lemma_trim_id(head);
        assert(ls[0] == head);
        assert(ls.drop_first() =~~= split_lines(rest));
        assert(cleaned(ls) =~~= seq![head] + cleaned(split_lines(rest)));
        assert(clean_lines(render_retries_spec(q)) =~~= q);
    }
}

/// Round trip of the retry file for valid hashes: writing a queue of
/// 40-character hex-like hashes and loading the file back succeeds and
/// returns exactly that queue.
pub proof fn lemma_retry_write_load_roundtrip(q: Seq<Seq<u8>>)
    requires
        forall|i: int| 0 <= i < q.len() ==> valid_hash(#[trigger] q[i]),
    ensures
        retries_parse_ok(render_retries_spec(q)),
        clean_lines(render_retries_spec(q)) == q,
{
    assert forall|i: int| 0 <= i < q.len() implies wf_entry(#[trigger] q[i]) by {
        lemma_valid_hash_wf(q[i]);
    }
    lemma_clean_of_render(q);
}

/// Every entry a successful load yields is well formed: non-blank, free of
/// newlines, trimmed at both ends.
pub proof fn lemma_clean_lines_wf(s: Seq<u8>)
    ensures
        forall|i: int|
            0 <= i < clean_lines(s).len() ==> wf_entry(#[trigger] clean_lines(s)[i]),
{
    lemma_split_lines_no_newline(s);
    lemma_cleaned_wf(split_lines(s));
}

proof fn lemma_trim_front_props(s: Seq<u8>)
    requires
        forall|j: int| 0 <= j < s.len() ==> s[j] != 10,
    ensures
        trim_front(s).len() <= s.len(),
        trim_front(s).len() > 0 ==> !is_space(trim_front(s)[0]),
        forall|i: int| 0 <= i < trim_front(s).len() ==> #[trigger] trim_front(s)[i] != 10,
    decreases s.len(),
{
    if s.len() > 0 && is_space(s[0]) {
        lemma_trim_front_props(s.drop_first());
    }
}

proof fn lemma_trim_back_props(s: Seq<u8>)
    ensures
        trim_back(s).len() <= s.len(),
        trim_back(s).len() > 0 ==> !is_space(trim_back(s).last()),
        forall|i: int|
            0 <= i < trim_back(s).len() ==> #[trigger] trim_back(s)[i] == s[i],
    decreases s.len(),
{
    if s.len() > 0 && is_space(s.last()) {
        lemma_trim_back_props(s.drop_last());
    }
}

proof fn lemma_trim_wf(l: Seq<u8>)
    requires
        forall|i: int| 0 <= i < l.len() ==> l[i] != 10,
        trim(l).len() > 0,
    ensures
        wf_entry(trim(l)),
{
    lemma_trim_front_props(l);
    let m = trim_front(l);
    lemma_trim_back_props(m);
    let t = trim_back(m);
    assert(t[0] == m[0]);
    assert(!is_space(t[0]));
    assert forall|i: int| 0 <= i < t.len() implies t[i] != 10 by {
        assert(t[i] == m[i]);
        assert(m[i] != 10);
    }
}

proof fn lemma_cleaned_wf(lines: Seq<Seq<u8>>)
    requires
        forall|i: int, j: int|
            0 <= i < lines.len() && 0 <= j < lines[i].len() ==> lines[i][j] != 10,
    ensures
        forall|i: int| 0 <= i < cleaned(lines).len() ==> wf_entry(#[trigger] cleaned(lines)[i]),
    decreases lines.len(),
{
    if lines.len() > 0 {
        lemma_cleaned_wf(lines.drop_first());
        let t = trim(lines[0]);
        if t.len() > 0 {
            lemma_trim_wf(lines[0]);
            assert forall|i: int| 0 <= i < cleaned(lines).len() implies wf_entry(
                #[trigger] cleaned(lines)[i],
            ) by {
                if i > 0 {
                    assert(cleaned(lines)[i] == cleaned(lines.drop_first())[i - 1]);
                }
            }
        }
    }
}

/// Idempotence of load followed by write: loading any well-formed retry file,
/// writing the loaded queue back, and loading again yields the same queue,
/// and the rewritten file loads successfully.
pub proof fn lemma_retry_load_write_idempotent(content: Seq<u8>)
    requires
        retries_parse_ok(content),
    ensures
        retries_parse_ok(render_retries_spec(clean_lines(content))),
        clean_lines(render_retries_spec(clean_lines(content))) == clean_lines(content),
{
    lemma_clean_lines_wf(content);
    lemma_clean_of_render(clean_lines(content));
}

} // verus!
