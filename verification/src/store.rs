//! The result store's document format.
//!
//! A stored result is one JSON document of fixed shape,
//! `{"commit":{"sha":S,"date":D},"triple":T,"benchmarks":{N:V,...}}`,
//! where every field is a JSON string; `"` and `\` inside a field are
//! escaped with a backslash. Benchmark measurements are opaque byte strings
//! and are stored as JSON string values, not as inline JSON structures, so
//! only documents this store wrote decode; anything else is rejected, and
//! reconciliation then treats the commit as still missing and re-runs it.
//! The encoder and the strict decoder are proved inverse of each other:
//! decoding what the encoder produced yields the original record.

use vstd::prelude::*;
use crate::error::Error;
use crate::model::{pairs_view, CommitData, CommitDataView};

verus! {

/// Field bytes the format stores verbatim: everything but the two escaped
/// bytes must be a non-control byte.
pub open spec fn text_wf(s: Seq<u8>) -> bool {
    forall|i: int| 0 <= i < s.len() ==> #[trigger] s[i] >= 32
}

/// A record whose fields the format can store.
pub open spec fn data_wf(d: CommitDataView) -> bool {
    &&& text_wf(d.sha)
    &&& text_wf(d.date_str)
    &&& text_wf(d.triple)
    &&& forall|i: int|
        0 <= i < d.benchmarks.len() ==> text_wf(#[trigger] d.benchmarks[i].0) && text_wf(
            d.benchmarks[i].1,
        )
}

/// How one byte of a field is stored: `"` and `\` get a leading backslash.
pub open spec fn esc_byte(b: u8) -> Seq<u8> {
    if b == 34 || b == 92 {
        seq![92u8, b]
    } else {
        seq![b]
    }
}

/// How a whole field is stored between its quotes.
pub open spec fn esc(s: Seq<u8>) -> Seq<u8>
    decreases s.len(),
{
    if s.len() == 0 {
        Seq::empty()
    } else {
        esc_byte(s[0]) + esc(s.drop_first())
    }
}

pub proof fn lemma_esc_append(a: Seq<u8>, b: Seq<u8>)
    ensures
        esc(a + b) == esc(a) + esc(b),
    decreases a.len(),
{
    if a.len() == 0 {
        assert(a + b =~= b);
        assert(esc(a) =~= Seq::<u8>::empty());
        assert(esc(a) + esc(b) =~= esc(b));
    } else {
        lemma_esc_append(a.drop_first(), b);
        assert((a + b)[0] == a[0]);
        assert((a + b).drop_first() =~= a.drop_first() + b);
        assert(esc(a + b) =~= esc(a) + esc(b));
    }
}

/// Append the stored form of a field to `out`.
pub fn escape_into(out: &mut Vec<u8>, s: &[u8])
    ensures
        final(out)@ == old(out)@ + esc(s@),
{
    let mut i: usize = 0;
    proof {
        assert(s@.subrange(0, 0) =~= Seq::<u8>::empty());
        assert(out@ =~= old(out)@ + esc(s@.subrange(0, 0)));
    }
    while i < s.len()
        invariant
            i <= s.len(),
            out@ == old(out)@ + esc(s@.subrange(0, i as int)),
        decreases s.len() - i,
    {
        let b = s[i];
        proof {
            lemma_esc_append(s@.subrange(0, i as int), seq![b]);
            assert(s@.subrange(0, i as int) + seq![b] =~= s@.subrange(0, i + 1));
            assert(seq![b].drop_first() =~= Seq::<u8>::empty());
            assert(seq![b][0] == b);
            assert(esc(Seq::<u8>::empty()) == Seq::<u8>::empty());
            assert(esc(seq![b]) =~= esc_byte(b));
        }
        if b == 34 || b == 92 {
            out.push(92);
            out.push(b);
        } else {
            out.push(b);
        }
        proof {
            assert(out@ =~= old(out)@ + esc(s@.subrange(0, i + 1)));
        }
        i += 1;
    }
    proof {
        assert(s@.subrange(0, s@.len() as int) =~= s@);
    }
}

/// `{"commit":{"sha":"`
pub open spec fn lit_head_sha() -> Seq<u8> {
    seq![
        123u8, 34u8, 99u8, 111u8, 109u8, 109u8, 105u8, 116u8, 34u8, 58u8, 123u8, 34u8, 115u8,
        104u8, 97u8, 34u8, 58u8, 34u8,
    ]
}

/// `","date":"`
pub open spec fn lit_date() -> Seq<u8> {
    seq![34u8, 44u8, 34u8, 100u8, 97u8, 116u8, 101u8, 34u8, 58u8, 34u8]
}

/// `"},"triple":"`
pub open spec fn lit_triple() -> Seq<u8> {
    seq![34u8, 125u8, 44u8, 34u8, 116u8, 114u8, 105u8, 112u8, 108u8, 101u8, 34u8, 58u8, 34u8]
}

/// `","benchmarks":{`
pub open spec fn lit_benchmarks() -> Seq<u8> {
    seq![
        34u8, 44u8, 34u8, 98u8, 101u8, 110u8, 99u8, 104u8, 109u8, 97u8, 114u8, 107u8, 115u8, 34u8,
        58u8, 123u8,
    ]
}

/// `"name":"value"`
pub open spec fn pair_bytes(p: (Seq<u8>, Seq<u8>)) -> Seq<u8> {
    seq![34u8] + esc(p.0) + seq![34u8, 58u8, 34u8] + esc(p.1) + seq![34u8]
}

/// `,"n1":"v1","n2":"v2"...` — every listed pair with a leading comma.
pub open spec fn pairs_sep(bs: Seq<(Seq<u8>, Seq<u8>)>) -> Seq<u8>
    decreases bs.len(),
{
    if bs.len() == 0 {
        Seq::empty()
    } else {
        seq![44u8] + pair_bytes(bs[0]) + pairs_sep(bs.drop_first())
    }
}

/// The whole benchmarks object body: first pair bare, the rest with commas.
pub open spec fn pairs_body(bs: Seq<(Seq<u8>, Seq<u8>)>) -> Seq<u8> {
    if bs.len() == 0 {
        Seq::empty()
    } else {
        pair_bytes(bs[0]) + pairs_sep(bs.drop_first())
    }
}

/// The document the store writes for a record.
pub open spec fn encode_spec(d: CommitDataView) -> Seq<u8> {
    lit_head_sha() + (esc(d.sha) + (lit_date() + (esc(d.date_str) + (lit_triple() + (esc(d.triple)
        + (lit_benchmarks() + (pairs_body(d.benchmarks) + seq![125u8, 125u8])))))))
}

pub proof fn lemma_pairs_sep_append(a: Seq<(Seq<u8>, Seq<u8>)>, b: Seq<(Seq<u8>, Seq<u8>)>)
    ensures
        pairs_sep(a + b) == pairs_sep(a) + pairs_sep(b),
    decreases a.len(),
{
    if a.len() == 0 {
        assert(a + b =~= b);
        assert(pairs_sep(a) =~= Seq::<u8>::empty());
        assert(pairs_sep(a) + pairs_sep(b) =~= pairs_sep(b));
    } else {
        lemma_pairs_sep_append(a.drop_first(), b);
        assert((a + b)[0] == a[0]);
        assert((a + b).drop_first() =~= a.drop_first() + b);
        assert(pairs_sep(a + b) =~= pairs_sep(a) + pairs_sep(b));
    }
}

/// Build `{"commit":{"sha":"` as bytes.
fn lit_head_sha_vec() -> (v: Vec<u8>)
    ensures
        v@ == lit_head_sha(),
{
    let mut v: Vec<u8> = Vec::new();
    v.push(123);
    v.push(34);
    v.push(99);
    v.push(111);
    v.push(109);
    v.push(109);
    v.push(105);
    v.push(116);
    v.push(34);
    v.push(58);
    v.push(123);
    v.push(34);
    v.push(115);
    v.push(104);
    v.push(97);
    v.push(34);
    v.push(58);
    v.push(34);
    proof {
        assert(v@ =~= lit_head_sha());
    }
    v
}

/// Build `","date":"` as bytes.
fn lit_date_vec() -> (v: Vec<u8>)
    ensures
        v@ == lit_date(),
{
    let mut v: Vec<u8> = Vec::new();
    v.push(34);
    v.push(44);
    v.push(34);
    v.push(100);
    v.push(97);
    v.push(116);
    v.push(101);
    v.push(34);
    v.push(58);
    v.push(34);
    proof {
        assert(v@ =~= lit_date());
    }
    v
}

/// Build `"},"triple":"` as bytes.
fn lit_triple_vec() -> (v: Vec<u8>)
    ensures
        v@ == lit_triple(),
{
    let mut v: Vec<u8> = Vec::new();
    v.push(34);
    v.push(125);
    v.push(44);
    v.push(34);
    v.push(116);
    v.push(114);
    v.push(105);
    v.push(112);
    v.push(108);
    v.push(101);
    v.push(34);
    v.push(58);
    v.push(34);
    proof {
        assert(v@ =~= lit_triple());
    }
    v
}

/// Build `","benchmarks":{` as bytes.
fn lit_benchmarks_vec() -> (v: Vec<u8>)
    ensures
        v@ == lit_benchmarks(),
{
    let mut v: Vec<u8> = Vec::new();
    v.push(34);
    v.push(44);
    v.push(34);
    v.push(98);
    v.push(101);
    v.push(110);
    v.push(99);
    v.push(104);
    v.push(109);
    v.push(97);
    v.push(114);
    v.push(107);
    v.push(115);
    v.push(34);
    v.push(58);
    v.push(123);
    proof {
        assert(v@ =~= lit_benchmarks());
    }
    v
}

/// Append one stored pair, `"name":"value"`, to `out`.
fn push_pair(out: &mut Vec<u8>, name: &[u8], value: &[u8])
    ensures
        final(out)@ == old(out)@ + pair_bytes((name@, value@)),
{
    out.push(34);
    escape_into(out, name);
    out.push(34);
    out.push(58);
    out.push(34);
    escape_into(out, value);
    out.push(34);
    proof {
        assert(out@ =~= old(out)@ + pair_bytes((name@, value@)));
    }
}

/// Write a record as the document the store keeps on disk.
#[verifier::rlimit(60)]
pub fn encode_commit_data(d: &CommitData) -> (r: Vec<u8>)
    ensures
        r@ == encode_spec(d@),
{
    let ghost bsv = d@.benchmarks;
    let mut out: Vec<u8> = lit_head_sha_vec();
    escape_into(&mut out, d.sha.as_slice());
    let lit = lit_date_vec();
    out.extend_from_slice(lit.as_slice());
    escape_into(&mut out, d.date_str.as_slice());
    let lit = lit_triple_vec();
    out.extend_from_slice(lit.as_slice());
    escape_into(&mut out, d.triple.as_slice());
    let lit = lit_benchmarks_vec();
    out.extend_from_slice(lit.as_slice());
    let ghost head = out@;
    if d.benchmarks.len() == 0 {
        out.push(125);
        out.push(125);
        proof {
            assert(pairs_body(bsv) =~= Seq::<u8>::empty());
            assert(out@ =~= encode_spec(d@));
        }
        return out;
    }
    push_pair(&mut out, d.benchmarks[0].0.as_slice(), d.benchmarks[0].1.as_slice());
    proof {
        assert(bsv[0] == (d.benchmarks@[0].0@, d.benchmarks@[0].1@));
        assert(pairs_sep(bsv.subrange(1, 1)) =~= Seq::<u8>::empty());
        assert(out@ =~= head + pair_bytes(bsv[0]) + pairs_sep(bsv.subrange(1, 1)));
    }
    let mut i: usize = 1;
    while i < d.benchmarks.len()
        invariant
            1 <= i <= d.benchmarks.len(),
            bsv == d@.benchmarks,
            bsv.len() == d.benchmarks.len(),
            head + pair_bytes(bsv[0]) + pairs_sep(bsv.subrange(1, i as int)) == out@,
        decreases d.benchmarks.len() - i,
    {
        out.push(44);
        push_pair(&mut out, d.benchmarks[i].0.as_slice(), d.benchmarks[i].1.as_slice());
        proof {
            lemma_pairs_sep_append(bsv.subrange(1, i as int), seq![bsv[i as int]]);
            assert(bsv.subrange(1, i as int) + seq![bsv[i as int]] =~= bsv.subrange(1, i + 1));
            let single = seq![bsv[i as int]];
            assert(single.drop_first() =~= Seq::<(Seq<u8>, Seq<u8>)>::empty());
            assert(pairs_sep(single.drop_first()) =~= Seq::<u8>::empty());
            assert(pairs_sep(single) =~= seq![44u8] + pair_bytes(bsv[i as int]));
            assert(bsv[i as int] == (d.benchmarks@[i as int].0@, d.benchmarks@[i as int].1@));
            assert(out@ =~= head + pair_bytes(bsv[0]) + pairs_sep(bsv.subrange(1, i + 1)));
        }
        i += 1;
    }
    out.push(125);
    out.push(125);
    proof {
        assert(bsv.subrange(1, bsv.len() as int) =~= bsv.drop_first());
        assert(pairs_body(bsv) =~= pair_bytes(bsv[0]) + pairs_sep(bsv.drop_first()));
        assert(out@ =~= encode_spec(d@));
    }
    out
}

/// Whether `lit` stands in `input` at position `i`; if so, the position after.
pub open spec fn eat_spec(input: Seq<u8>, i: int, lit: Seq<u8>) -> Option<int> {
    if 0 <= i && i + lit.len() <= input.len() && input.subrange(i, i + lit.len() as int) == lit {
        Some(i + lit.len() as int)
    } else {
        None
    }
}

/// Match a literal at a position.
pub fn eat(input: &[u8], i: usize, lit: &[u8]) -> (r: Option<usize>)
    ensures
        match r {
            Some(j) => eat_spec(input@, i as int, lit@) == Some(j as int),
            None => eat_spec(input@, i as int, lit@) is None,
        },
{
    if i > input.len() || input.len() - i < lit.len() {
        return None;
    }
    let mut k: usize = 0;
    while k < lit.len()
        invariant
            k <= lit.len(),
            i + lit.len() <= input.len(),
            forall|j: int| 0 <= j < k ==> input@[i + j] == lit@[j],
        decreases lit.len() - k,
    {
        if input[i + k] != lit[k] {
            proof {
                assert(input@.subrange(i as int, i + lit@.len())[k as int] != lit@[k as int]);
            }
            return None;
        }
        k += 1;
    }
    proof {
        assert(input@.subrange(i as int, i + lit@.len()) =~= lit@);
    }
    Some(i + lit.len())
}

/// Read a stored field from just after its opening quote up to and including
/// its unescaped closing quote; reject control bytes and unknown escapes.
pub open spec fn parse_str_spec(input: Seq<u8>, i: int) -> Option<(Seq<u8>, int)>
    decreases input.len() - i,
    when 0 <= i <= input.len()
{
    if i == input.len() {
        None
    } else if input[i] == 34 {
        Some((Seq::empty(), i + 1))
    } else if input[i] == 92 {
        if i + 2 <= input.len() && (input[i + 1] == 34 || input[i + 1] == 92) {
            match parse_str_spec(input, i + 2) {
                Some((s, j)) => Some((seq![input[i + 1]] + s, j)),
                None => None,
            }
        } else {
            None
        }
    } else if input[i] >= 32 {
        match parse_str_spec(input, i + 1) {
            Some((s, j)) => Some((seq![input[i]] + s, j)),
            None => None,
        }
    } else {
        None
    }
}

pub proof fn lemma_parse_str_bounds(input: Seq<u8>, i: int)
    requires
        0 <= i <= input.len(),
    ensures
        parse_str_spec(input, i) matches Some((s, j)) ==> i < j <= input.len(),
    decreases input.len() - i,
{
    if i < input.len() {
        if input[i] == 92 {
            if i + 2 <= input.len() && (input[i + 1] == 34 || input[i + 1] == 92) {
                lemma_parse_str_bounds(input, i + 2);
            }
        } else if input[i] != 34 && input[i] >= 32 {
            lemma_parse_str_bounds(input, i + 1);
        }
    }
}

/// Reading back what [`esc`] wrote, up to the closing quote, yields the
/// original field.
pub proof fn lemma_parse_str_of_esc(s: Seq<u8>, input: Seq<u8>, i: int)
    requires
        text_wf(s),
        0 <= i,
        i + esc(s).len() + 1 <= input.len(),
        input.subrange(i, i + esc(s).len() as int) == esc(s),
        input[i + esc(s).len() as int] == 34,
    ensures
        parse_str_spec(input, i) == Some((s, i + esc(s).len() + 1)),
    decreases s.len(),
{
    if s.len() == 0 {
        assert(esc(s) =~= Seq::<u8>::empty());
        assert(input[i] == 34);
    } else {
        let b = s[0];
        let s2 = s.drop_first();
        assert(s[0] >= 32);
        assert(forall|k: int| 0 <= k < s2.len() ==> s2[k] == s[k + 1] && s[k + 1] >= 32);
        assert(esc(s) == esc_byte(b) + esc(s2));
        let le = esc(s).len() as int;
        let l2 = esc(s2).len() as int;
        assert forall|t: int| 0 <= t < le implies input[i + t] == esc(s)[t] by {
            assert(input.subrange(i, i + le)[t] == input[i + t]);
        }
        if b == 34 || b == 92 {
            assert(esc_byte(b) =~= seq![92u8, b]);
            assert(input[i] == esc(s)[0]);
            assert(input[i] == 92);
            assert(input[i + 1] == esc(s)[1]);
            assert(input[i + 1] == b);
            assert forall|t: int| 0 <= t < l2 implies input.subrange(i + 2, i + 2 + l2)[t]
                == esc(s2)[t] by {
                assert(input[i + 2 + t] == esc(s)[2 + t]);
                assert(esc(s)[2 + t] == esc(s2)[t]);
            }
            assert(input.subrange(i + 2, i + 2 + l2) =~= esc(s2));
            lemma_parse_str_of_esc(s2, input, i + 2);
            assert(seq![b] + s2 =~= s);
        } else {
            assert(esc_byte(b) =~= seq![b]);
            assert(input[i] == esc(s)[0]);
            assert(input[i] == b);
            assert(b != 34 && b != 92 && b >= 32);
            assert forall|t: int| 0 <= t < l2 implies input.subrange(i + 1, i + 1 + l2)[t]
                == esc(s2)[t] by {
                assert(input[i + 1 + t] == esc(s)[1 + t]);
                assert(esc(s)[1 + t] == esc(s2)[t]);
            }
            assert(input.subrange(i + 1, i + 1 + l2) =~= esc(s2));
            lemma_parse_str_of_esc(s2, input, i + 1);
            assert(seq![b] + s2 =~= s);
        }
    }
}

/// Read one stored field.
pub fn parse_string_exec(input: &[u8], start: usize) -> (r: Option<(Vec<u8>, usize)>)
    requires
        start <= input.len(),
    ensures
        match r {
            Some(p) => parse_str_spec(input@, start as int) == Some((p.0@, p.1 as int))
                && start < p.1 <= input.len(),
            None => parse_str_spec(input@, start as int) is None,
        },
{
    let mut acc: Vec<u8> = Vec::new();
    let mut cur: usize = start;
    loop
        invariant
            start <= cur <= input.len(),
            parse_str_spec(input@, start as int) is Some <==> parse_str_spec(
                input@,
                cur as int,
            ) is Some,
            forall|s: Seq<u8>, j: int|
                parse_str_spec(input@, cur as int) == Some((s, j)) ==> parse_str_spec(
                    input@,
                    start as int,
                ) == Some((acc@ + s, j)),
        decreases input.len() - cur,
    {
        if cur == input.len() {
            return None;
        }
        let b = input[cur];
        if b == 34 {
            proof {
                assert(parse_str_spec(input@, cur as int) == Some(
                    (Seq::<u8>::empty(), cur + 1int),
                ));
                assert(acc@ + Seq::<u8>::empty() =~= acc@);
            }
            return Some((acc, cur + 1));
        } else if b == 92 {
            if input.len() - cur >= 2 && (input[cur + 1] == 34 || input[cur + 1] == 92) {
                let e = input[cur + 1];
                proof {
                    lemma_parse_str_bounds(input@, cur + 2);
                    assert forall|s: Seq<u8>, j: int|
                        parse_str_spec(input@, cur + 2) == Some((s, j)) implies parse_str_spec(
                        input@,
                        start as int,
                    ) == Some((acc@.push(e) + s, j)) by {
                        assert(parse_str_spec(input@, cur as int) == Some((seq![e] + s, j)));
                        assert(acc@ + (seq![e] + s) =~= acc@.push(e) + s);
                    }
                }
                acc.push(e);
                cur = cur + 2;
            } else {
                return None;
            }
        } else if b >= 32 {
            proof {
                lemma_parse_str_bounds(input@, cur + 1);
                assert forall|s: Seq<u8>, j: int|
                    parse_str_spec(input@, cur + 1) == Some((s, j)) implies parse_str_spec(
                    input@,
                    start as int,
                ) == Some((acc@.push(b) + s, j)) by {
                    assert(parse_str_spec(input@, cur as int) == Some((seq![b] + s, j)));
                    assert(acc@ + (seq![b] + s) =~= acc@.push(b) + s);
                }
            }
            acc.push(b);
            cur = cur + 1;
        } else {
            return None;
        }
    }
}

/// Read one `"name":"value"` pair, starting at its opening quote.
pub open spec fn parse_pair_spec(input: Seq<u8>, i: int) -> Option<((Seq<u8>, Seq<u8>), int)> {
    if 0 <= i && i < input.len() && input[i] == 34 {
        match parse_str_spec(input, i + 1) {
            Some((name, j)) => if j + 2 <= input.len() && input[j] == 58 && input[j + 1] == 34 {
                match parse_str_spec(input, j + 2) {
                    Some((val, k)) => Some(((name, val), k)),
                    None => None,
                }
            } else {
                None
            },
            None => None,
        }
    } else {
        None
    }
}

pub proof fn lemma_parse_pair_bounds(input: Seq<u8>, i: int)
    requires
        0 <= i <= input.len(),
    ensures
        parse_pair_spec(input, i) matches Some((p, j)) ==> i < j <= input.len(),
{
    if i < input.len() && input[i] == 34 {
        lemma_parse_str_bounds(input, i + 1);
        if let Some((name, j)) = parse_str_spec(input, i + 1) {
            if j + 2 <= input.len() && input[j] == 58 && input[j + 1] == 34 {
                lemma_parse_str_bounds(input, j + 2);
            }
        }
    }
}

/// Reading back what [`pair_bytes`] wrote yields the original pair.
pub proof fn lemma_parse_pair_of_bytes(p: (Seq<u8>, Seq<u8>), input: Seq<u8>, i: int)
    requires
        text_wf(p.0),
        text_wf(p.1),
        0 <= i,
        i + pair_bytes(p).len() <= input.len(),
        input.subrange(i, i + pair_bytes(p).len() as int) == pair_bytes(p),
    ensures
        parse_pair_spec(input, i) == Some((p, i + pair_bytes(p).len())),
{
    let pb = pair_bytes(p);
    let l0 = esc(p.0).len() as int;
    let l1 = esc(p.1).len() as int;
    assert(pb.len() == 5 + l0 + l1);
    assert forall|t: int| 0 <= t < pb.len() implies input[i + t] == pb[t] by {
        assert(input.subrange(i, i + pb.len() as int)[t] == input[i + t]);
    }
    assert(pb[0] == 34);
    assert(input[i] == 34);
    assert forall|t: int| 0 <= t < l0 implies pb[1 + t] == esc(p.0)[t] by {}
    assert(input.subrange(i + 1, i + 1 + l0) =~= esc(p.0));
    assert(pb[1 + l0] == 34);
    assert(input[i + 1 + l0] == 34);
    lemma_parse_str_of_esc(p.0, input, i + 1);
    let j = i + 2 + l0;
    assert(parse_str_spec(input, i + 1) == Some((p.0, j)));
    assert(pb[2 + l0] == 58);
    assert(pb[3 + l0] == 34);
    assert(input[j] == 58);
    assert(input[j + 1] == 34);
    assert forall|t: int| 0 <= t < l1 implies pb[4 + l0 + t] == esc(p.1)[t] by {}
    assert(input.subrange(j + 2, j + 2 + l1) =~= esc(p.1));
    assert(pb[4 + l0 + l1] == 34);
    assert(input[j + 2 + l1] == 34);
    lemma_parse_str_of_esc(p.1, input, j + 2);
    assert(parse_str_spec(input, j + 2) == Some((p.1, i + pair_bytes(p).len())));
}

/// Read the pairs after the first one: either a closing `}` or `,` and a
/// further pair, repeated.
pub open spec fn parse_more_pairs(input: Seq<u8>, i: int) -> Option<
    (Seq<(Seq<u8>, Seq<u8>)>, int),
>
    decreases input.len() - i,
    when 0 <= i <= input.len()
    via parse_more_pairs_decreases
{
    if i < input.len() && input[i] == 125 {
        Some((Seq::empty(), i + 1))
    } else if i < input.len() && input[i] == 44 {
        match parse_pair_spec(input, i + 1) {
            Some((p, j)) => match parse_more_pairs(input, j) {
                Some((ps, k)) => Some((seq![p] + ps, k)),
                None => None,
            },
            None => None,
        }
    } else {
        None
    }
}

#[via_fn]
proof fn parse_more_pairs_decreases(input: Seq<u8>, i: int) {
    if i < input.len() && input[i] != 125 && input[i] == 44 {
        lemma_parse_pair_bounds(input, i + 1);
    }
}

/// Read a whole benchmarks object body after its opening `{`: either an
/// immediate `}` or a first pair and then [`parse_more_pairs`].
pub open spec fn parse_pairs_entry(input: Seq<u8>, i: int) -> Option<
    (Seq<(Seq<u8>, Seq<u8>)>, int),
> {
    if 0 <= i && i < input.len() && input[i] == 125 {
        Some((Seq::empty(), i + 1))
    } else {
        match parse_pair_spec(input, i) {
            Some((p, j)) => match parse_more_pairs(input, j) {
                Some((ps, k)) => Some((seq![p] + ps, k)),
                None => None,
            },
            None => None,
        }
    }
}

/// Reading back what [`pairs_sep`] wrote, up to the closing brace, yields the
/// original pairs.
pub proof fn lemma_parse_more_of_sep(
    bs: Seq<(Seq<u8>, Seq<u8>)>,
    input: Seq<u8>,
    i: int,
)
    requires
        forall|t: int| 0 <= t < bs.len() ==> text_wf(#[trigger] bs[t].0) && text_wf(bs[t].1),
        0 <= i,
        i + pairs_sep(bs).len() + 1 <= input.len(),
        input.subrange(i, i + pairs_sep(bs).len() as int) == pairs_sep(bs),
        input[i + pairs_sep(bs).len() as int] == 125,
    ensures
        parse_more_pairs(input, i) == Some((bs, i + pairs_sep(bs).len() + 1)),
    decreases bs.len(),
{
    if bs.len() == 0 {
        assert(pairs_sep(bs) =~= Seq::<u8>::empty());
        assert(input[i] == 125);
    } else {
        let p = bs[0];
        let rest = bs.drop_first();
        let sp = pairs_sep(bs);
        let pl = pair_bytes(p).len() as int;
        assert(sp == seq![44u8] + pair_bytes(p) + pairs_sep(rest));
        assert forall|t: int| 0 <= t < sp.len() implies input[i + t] == sp[t] by {
            assert(input.subrange(i, i + sp.len() as int)[t] == input[i + t]);
        }
        assert(sp[0] == 44);
        assert(input[i] == 44);
        assert(input[i] != 125);
        assert forall|t: int| 0 <= t < pl implies input.subrange(i + 1, i + 1 + pl)[t]
            == pair_bytes(p)[t] by {
            assert(input[i + 1 + t] == sp[1 + t]);
            assert(sp[1 + t] == pair_bytes(p)[t]);
        }
        assert(input.subrange(i + 1, i + 1 + pl) =~= pair_bytes(p));
        lemma_parse_pair_of_bytes(p, input, i + 1);
        let j = i + 1 + pl;
        let rl = pairs_sep(rest).len() as int;
        assert forall|t: int| 0 <= t < rl implies input.subrange(j, j + rl)[t]
            == pairs_sep(rest)[t] by {
            assert(input[j + t] == sp[1 + pl + t]);
            assert(sp[1 + pl + t] == pairs_sep(rest)[t]);
        }
        assert(input.subrange(j, j + pairs_sep(rest).len() as int) =~= pairs_sep(rest));
        assert(input[j + pairs_sep(rest).len() as int] == 125);
        lemma_parse_more_of_sep(rest, input, j);
        assert(seq![p] + rest =~= bs);
    }
}

/// Reading back what [`pairs_body`] wrote, up to the closing brace, yields the
/// original pairs.
pub proof fn lemma_parse_entry_of_body(
    bs: Seq<(Seq<u8>, Seq<u8>)>,
    input: Seq<u8>,
    i: int,
)
    requires
        forall|t: int| 0 <= t < bs.len() ==> text_wf(#[trigger] bs[t].0) && text_wf(bs[t].1),
        0 <= i,
        i + pairs_body(bs).len() + 1 <= input.len(),
        input.subrange(i, i + pairs_body(bs).len() as int) == pairs_body(bs),
        input[i + pairs_body(bs).len() as int] == 125,
    ensures
        parse_pairs_entry(input, i) == Some((bs, i + pairs_body(bs).len() + 1)),
{
    if bs.len() == 0 {
        assert(pairs_body(bs) =~= Seq::<u8>::empty());
        assert(input[i] == 125);
    } else {
        let p = bs[0];
        let rest = bs.drop_first();
        let body = pairs_body(bs);
        let pl = pair_bytes(p).len() as int;
        assert(body == pair_bytes(p) + pairs_sep(rest));
        assert forall|t: int| 0 <= t < body.len() implies input[i + t] == body[t] by {
            assert(input.subrange(i, i + body.len() as int)[t] == input[i + t]);
        }
        assert(body[0] == 34);
        assert(input[i] == 34);
        assert(input[i] != 125);
        assert forall|t: int| 0 <= t < pl implies input.subrange(i, i + pl)[t]
            == pair_bytes(p)[t] by {
            assert(input[i + t] == body[t]);
            assert(body[t] == pair_bytes(p)[t]);
        }
        assert(input.subrange(i, i + pl) =~= pair_bytes(p));
        lemma_parse_pair_of_bytes(p, input, i);
        let j = i + pl;
        let rl = pairs_sep(rest).len() as int;
        assert forall|t: int| 0 <= t < rl implies input.subrange(j, j + rl)[t]
            == pairs_sep(rest)[t] by {
            assert(input[j + t] == body[pl + t]);
            assert(body[pl + t] == pairs_sep(rest)[t]);
        }
        assert(input.subrange(j, j + pairs_sep(rest).len() as int) =~= pairs_sep(rest));
        assert(input[j + pairs_sep(rest).len() as int] == 125);
        lemma_parse_more_of_sep(rest, input, j);
        assert(seq![p] + rest =~= bs);
    }
}

/// What a document means: the record it decodes to, if it has exactly the
/// shape the store writes.
pub open spec fn decode_doc_spec(input: Seq<u8>) -> Option<CommitDataView> {
    match eat_spec(input, 0, lit_head_sha()) {
        None => None,
        Some(i1) => match parse_str_spec(input, i1) {
            None => None,
            Some((sha, i2)) => match eat_spec(input, i2, lit_date().drop_first()) {
                None => None,
                Some(i3) => match parse_str_spec(input, i3) {
                    None => None,
                    Some((date_str, i4)) => match eat_spec(
                        input,
                        i4,
                        lit_triple().drop_first(),
                    ) {
                        None => None,
                        Some(i5) => match parse_str_spec(input, i5) {
                            None => None,
                            Some((triple, i6)) => match eat_spec(
                                input,
                                i6,
                                lit_benchmarks().drop_first(),
                            ) {
                                None => None,
                                Some(i7) => match parse_pairs_entry(input, i7) {
                                    None => None,
                                    Some((bs, i8)) => if i8 + 1 == input.len() && i8
                                        < input.len() && input[i8] == 125 {
                                        Some(
                                            CommitDataView {
                                                sha,
                                                date_str,
                                                triple,
                                                benchmarks: bs,
                                            },
                                        )
                                    } else {
                                        None
                                    },
                                },
                            },
                        },
                    },
                },
            },
        },
    }
}

/// Read one `"name":"value"` pair.
pub fn parse_pair_exec(input: &[u8], i: usize) -> (r: Option<((Vec<u8>, Vec<u8>), usize)>)
    ensures
        match r {
            Some(pj) => parse_pair_spec(input@, i as int) == Some(
                (((pj.0).0@, (pj.0).1@), pj.1 as int),
            ) && i < pj.1 <= input.len(),
            None => parse_pair_spec(input@, i as int) is None,
        },
{
    if i >= input.len() || input[i] != 34 {
        return None;
    }
    let (name, j) = match parse_string_exec(input, i + 1) {
        Some(x) => x,
        None => {
            return None;
        },
    };
    if input.len() - j < 2 || input[j] != 58 || input[j + 1] != 34 {
        return None;
    }
    let (val, k) = match parse_string_exec(input, j + 2) {
        Some(x) => x,
        None => {
            return None;
        },
    };
    Some(((name, val), k))
}

/// Read a stored document back into a record. Succeeds exactly on documents
/// of the shape the store writes, and returns exactly the record meant.
#[verifier::loop_isolation(false)]
pub fn decode_commit_data(content: &[u8]) -> (r: Result<CommitData, Error>)
    ensures
        r matches Ok(d) ==> decode_doc_spec(content@) == Some(d@),
        r is Err ==> decode_doc_spec(content@) is None,
        r matches Err(e) ==> e matches Error::MalformedResultFile,
{
    let lit = lit_head_sha_vec();
    let i1 = match eat(content, 0, lit.as_slice()) {
        Some(j) => j,
        None => {
            return Err(Error::MalformedResultFile);
        },
    };
    let (sha, i2) = match parse_string_exec(content, i1) {
        Some(x) => x,
        None => {
            return Err(Error::MalformedResultFile);
        },
    };
    let mut lit = lit_date_vec();
    lit.remove(0);
    proof {
        assert(lit@ =~= lit_date().drop_first());
    }
    let i3 = match eat(content, i2, lit.as_slice()) {
        Some(j) => j,
        None => {
            return Err(Error::MalformedResultFile);
        },
    };
    let (date_str, i4) = match parse_string_exec(content, i3) {
        Some(x) => x,
        None => {
            return Err(Error::MalformedResultFile);
        },
    };
    let mut lit = lit_triple_vec();
    lit.remove(0);
    proof {
        assert(lit@ =~= lit_triple().drop_first());
    }
    let i5 = match eat(content, i4, lit.as_slice()) {
        Some(j) => j,
        None => {
            return Err(Error::MalformedResultFile);
        },
    };
    let (triple, i6) = match parse_string_exec(content, i5) {
        Some(x) => x,
        None => {
            return Err(Error::MalformedResultFile);
        },
    };
    let mut lit = lit_benchmarks_vec();
    lit.remove(0);
    proof {
        assert(lit@ =~= lit_benchmarks().drop_first());
    }
    let i7 = match eat(content, i6, lit.as_slice()) {
        Some(j) => j,
        None => {
            return Err(Error::MalformedResultFile);
        },
    };
    let mut bs: Vec<(Vec<u8>, Vec<u8>)> = Vec::new();
    let mut cur: usize;
    if i7 < content.len() && content[i7] == 125 {
        cur = i7 + 1;
        proof {
            assert(parse_pairs_entry(content@, i7 as int) == Some(
                (Seq::<(Seq<u8>, Seq<u8>)>::empty(), i7 + 1int),
            ));
            assert(pairs_view(bs@) =~= Seq::<(Seq<u8>, Seq<u8>)>::empty());
        }
    } else {
        let (p, j) = match parse_pair_exec(content, i7) {
            Some(x) => x,
            None => {
                proof {
                    assert(parse_pairs_entry(content@, i7 as int) is None);
                }
                return Err(Error::MalformedResultFile);
            },
        };
        let ghost pv = (p.0@, p.1@);
        bs.push(p);
        cur = j;
        proof {
            assert(pairs_view(bs@) =~= seq![pv]);
        }
        loop
            invariant
                cur <= content.len(),
                parse_pairs_entry(content@, i7 as int) is Some <==> parse_more_pairs(
                    content@,
                    cur as int,
                ) is Some,
                forall|ps: Seq<(Seq<u8>, Seq<u8>)>, k: int|
                    parse_more_pairs(content@, cur as int) == Some((ps, k))
                        ==> parse_pairs_entry(content@, i7 as int) == Some(
                        (pairs_view(bs@) + ps, k),
                    ),
            decreases content.len() - cur,
        {
            if cur < content.len() && content[cur] == 125 {
                proof {
                    assert(parse_more_pairs(content@, cur as int) == Some(
                        (Seq::<(Seq<u8>, Seq<u8>)>::empty(), cur + 1int),
                    ));
                    assert(pairs_view(bs@) + Seq::<(Seq<u8>, Seq<u8>)>::empty() =~= pairs_view(
                        bs@,
                    ));
                }
                cur = cur + 1;
                break ;
            } else if cur < content.len() && content[cur] == 44 {
                let (p, j) = match parse_pair_exec(content, cur + 1) {
                    Some(x) => x,
                    None => {
                        proof {
                            assert(parse_more_pairs(content@, cur as int) is None);
                            assert(parse_pairs_entry(content@, i7 as int) is None);
                        }
                        return Err(Error::MalformedResultFile);
                    },
                };
                let ghost pv2 = (p.0@, p.1@);
                let ghost oldbs = bs@;
                bs.push(p);
                proof {
                    assert(pairs_view(bs@) =~= pairs_view(oldbs).push(pv2));
                    assert forall|ps: Seq<(Seq<u8>, Seq<u8>)>, k: int|
                        parse_more_pairs(content@, j as int) == Some((ps, k))
                            implies parse_pairs_entry(content@, i7 as int) == Some(
                        (pairs_view(bs@) + ps, k),
                    ) by {
                        assert(parse_more_pairs(content@, cur as int) == Some(
                            (seq![pv2] + ps, k),
                        ));
                        assert(pairs_view(oldbs) + (seq![pv2] + ps) =~= pairs_view(oldbs).push(
                            pv2,
                        ) + ps);
                    }
                }
                cur = j;
            } else {
                proof {
                    assert(parse_more_pairs(content@, cur as int) is None);
                    assert(parse_pairs_entry(content@, i7 as int) is None);
                }
                return Err(Error::MalformedResultFile);
            }
        }
    }
    proof {
        assert(eat_spec(content@, 0, lit_head_sha()) == Some(i1 as int));
        assert(parse_str_spec(content@, i1 as int) == Some((sha@, i2 as int)));
        assert(eat_spec(content@, i2 as int, lit_date().drop_first()) == Some(i3 as int));
        assert(parse_str_spec(content@, i3 as int) == Some((date_str@, i4 as int)));
        assert(eat_spec(content@, i4 as int, lit_triple().drop_first()) == Some(i5 as int));
        assert(parse_str_spec(content@, i5 as int) == Some((triple@, i6 as int)));
        assert(eat_spec(content@, i6 as int, lit_benchmarks().drop_first()) == Some(i7 as int));
        assert(parse_pairs_entry(content@, i7 as int) == Some((pairs_view(bs@), cur as int)));
    }
    if cur < content.len() && content[cur] == 125 && cur + 1 == content.len() {
        proof {
            assert(eat_spec(content@, 0, lit_head_sha()) == Some(i1 as int));
            assert(parse_str_spec(content@, i1 as int) == Some((sha@, i2 as int)));
            assert(eat_spec(content@, i2 as int, lit_date().drop_first()) == Some(i3 as int));
            assert(parse_str_spec(content@, i3 as int) == Some((date_str@, i4 as int)));
            assert(eat_spec(content@, i4 as int, lit_triple().drop_first()) == Some(i5 as int));
            assert(parse_str_spec(content@, i5 as int) == Some((triple@, i6 as int)));
            assert(eat_spec(content@, i6 as int, lit_benchmarks().drop_first()) == Some(
                i7 as int,
            ));
            assert(parse_pairs_entry(content@, i7 as int) == Some(
                (pairs_view(bs@), cur as int),
            ));
            assert(decode_doc_spec(content@) == Some(
                CommitDataView {
                    sha: sha@,
                    date_str: date_str@,
                    triple: triple@,
                    benchmarks: pairs_view(bs@),
                },
            ));
        }
        let ghost dv = CommitDataView {
            sha: sha@,
            date_str: date_str@,
            triple: triple@,
            benchmarks: pairs_view(bs@),
        };
        let d = CommitData { sha, date_str, triple, benchmarks: bs };
        proof {
            assert(d@ == dv);
        }
        Ok(d)
    } else {
        proof {
            assert(decode_doc_spec(content@) is None);
        }
        Err(Error::MalformedResultFile)
    }
}

/// Peel the first chunk off a decomposed suffix of `input`.
proof fn lemma_peel(input: Seq<u8>, p: int, x: Seq<u8>, y: Seq<u8>)
    requires
        0 <= p <= input.len(),
        input.subrange(p, input.len() as int) == x + y,
    ensures
        p + x.len() + y.len() == input.len(),
        input.subrange(p, p + x.len() as int) == x,
        input.subrange(p + x.len() as int, input.len() as int) == y,
        forall|t: int| 0 <= t < x.len() ==> input[p + t] == x[t],
        y.len() > 0 ==> input[p + x.len() as int] == y[0],
{
    let suf = input.subrange(p, input.len() as int);
    assert(suf.len() == x.len() + y.len());
    assert forall|t: int| 0 <= t < x.len() implies input[p + t] == x[t] by {
        assert(input[p + t] == suf[t]);
        assert(suf[t] == x[t]);
    }
    assert forall|t: int| 0 <= t < y.len() implies input[p + x.len() as int + t] == y[t] by {
        assert(input[p + x.len() as int + t] == suf[x.len() as int + t]);
        assert(suf[x.len() as int + t] == y[t]);
    }
    assert forall|t: int| 0 <= t < x.len() implies input.subrange(p, p + x.len() as int)[t]
        == x[t] by {
        assert(input.subrange(p, p + x.len() as int)[t] == input[p + t]);
    }
    assert(input.subrange(p, p + x.len() as int) =~= x);
    assert forall|t: int| 0 <= t < y.len() implies input.subrange(
        p + x.len() as int,
        input.len() as int,
    )[t] == y[t] by {
        assert(input.subrange(p + x.len() as int, input.len() as int)[t] == input[p
            + x.len() as int + t]);
    }
    assert(input.subrange(p + x.len() as int, input.len() as int) =~= y);
}

/// Splitting a chunk's first byte off a decomposed suffix.
proof fn lemma_shift_first(x: Seq<u8>, y: Seq<u8>)
    requires
        x.len() > 0,
    ensures
        x + y == seq![x[0]] + (x.drop_first() + y),
{
    assert(x + y =~= seq![x[0]] + (x.drop_first() + y));
}

/// One byte after its quoted-and-escaped field.
proof fn lemma_parse_field(s: Seq<u8>, input: Seq<u8>, p: int, rest: Seq<u8>)
    requires
        text_wf(s),
        0 <= p <= input.len(),
        input.subrange(p, input.len() as int) == esc(s) + rest,
        rest.len() > 0,
        rest[0] == 34,
    ensures
        parse_str_spec(input, p) == Some((s, p + esc(s).len() + 1)),
        input.subrange(p + esc(s).len() as int, input.len() as int) == rest,
{
    lemma_peel(input, p, esc(s), rest);
    lemma_parse_str_of_esc(s, input, p);
}

/// One whole field stage: the quoted field, then the literal that follows
/// it (whose first byte is the field's closing quote).
proof fn lemma_stage(s: Seq<u8>, input: Seq<u8>, p: int, lit: Seq<u8>, rest: Seq<u8>)
    requires
        text_wf(s),
        0 <= p <= input.len(),
        input.subrange(p, input.len() as int) == esc(s) + (lit + rest),
        lit.len() > 0,
        lit[0] == 34,
    ensures
        parse_str_spec(input, p) == Some((s, p + esc(s).len() + 1)),
        eat_spec(input, p + esc(s).len() + 1, lit.drop_first()) == Some(
            p + esc(s).len() + lit.len() as int,
        ),
        input.subrange(p + esc(s).len() + lit.len() as int, input.len() as int) == rest,
{
    lemma_shift_first(lit, rest);
    assert(seq![lit[0]] =~= seq![34u8]);
    assert(esc(s) + (lit + rest) == esc(s) + (seq![34u8] + (lit.drop_first() + rest)));
    lemma_parse_field(s, input, p, seq![34u8] + (lit.drop_first() + rest));
    assert(input.subrange(p, input.len() as int).len() == input.len() - p);
    assert(input.len() - p == esc(s).len() + lit.len() + rest.len());
    let q = p + esc(s).len() as int;
    lemma_peel(input, q, seq![34u8], lit.drop_first() + rest);
    lemma_peel(input, q + 1, lit.drop_first(), rest);
    assert(eat_spec(input, q + 1, lit.drop_first()) == Some(q + lit.len() as int));
}

#[verifier::rlimit(100)]
proof fn lemma_decode_of_encode_prefix(d: CommitDataView)
    requires
        data_wf(d),
    ensures
        eat_spec(encode_spec(d), 0, lit_head_sha()) == Some(18int),
        parse_str_spec(encode_spec(d), 18) == Some((d.sha, 19 + esc(d.sha).len() as int)),
        eat_spec(encode_spec(d), 19 + esc(d.sha).len() as int, lit_date().drop_first()) == Some(
            28 + esc(d.sha).len() as int,
        ),
        parse_str_spec(encode_spec(d), 28 + esc(d.sha).len() as int) == Some(
            (d.date_str, 29 + esc(d.sha).len() + esc(d.date_str).len() as int),
        ),
        eat_spec(
            encode_spec(d),
            29 + esc(d.sha).len() + esc(d.date_str).len() as int,
            lit_triple().drop_first(),
        ) == Some(41 + esc(d.sha).len() + esc(d.date_str).len() as int),
        parse_str_spec(encode_spec(d), 41 + esc(d.sha).len() + esc(d.date_str).len() as int)
            == Some(
            (
                d.triple,
                42 + esc(d.sha).len() + esc(d.date_str).len() + esc(d.triple).len() as int,
            ),
        ),
        eat_spec(
            encode_spec(d),
            42 + esc(d.sha).len() + esc(d.date_str).len() + esc(d.triple).len() as int,
            lit_benchmarks().drop_first(),
        ) == Some(57 + esc(d.sha).len() + esc(d.date_str).len() + esc(d.triple).len() as int),
        encode_spec(d).subrange(
            57 + esc(d.sha).len() + esc(d.date_str).len() + esc(d.triple).len() as int,
            encode_spec(d).len() as int,
        ) == pairs_body(d.benchmarks) + seq![125u8, 125u8],
        encode_spec(d).len() == 59 + esc(d.sha).len() + esc(d.date_str).len() + esc(
            d.triple,
        ).len() + pairs_body(d.benchmarks).len(),
{
    let input = encode_spec(d);
    let a = lit_head_sha();
    let e1 = esc(d.sha);
    let b = lit_date();
    let e2 = esc(d.date_str);
    let c = lit_triple();
    let e3 = esc(d.triple);
    let f = lit_benchmarks();
    let body = pairs_body(d.benchmarks);
    let tail = seq![125u8, 125u8];
    let r7 = body + tail;
    let r5 = e3 + (f + r7);
    let r3 = e2 + (c + r5);
    let r1 = e1 + (b + r3);
    assert(input.subrange(0, input.len() as int) =~= input);
    assert(input =~= a + r1);
    lemma_peel(input, 0, a, r1);
    assert(eat_spec(input, 0, a) == Some(18int));
    lemma_stage(d.sha, input, 18, b, r3);
    lemma_stage(d.date_str, input, 28 + e1.len() as int, c, r5);
    lemma_stage(d.triple, input, 41 + e1.len() + e2.len() as int, f, r7);
}

/// Decoding what the encoder wrote for a storable record yields exactly that
/// record back.
pub proof fn lemma_decode_of_encode(d: CommitDataView)
    requires
        data_wf(d),
    ensures
        decode_doc_spec(encode_spec(d)) == Some(d),
{
    let input = encode_spec(d);
    lemma_decode_of_encode_prefix(d);
    let l1 = esc(d.sha).len() as int;
    let l2 = esc(d.date_str).len() as int;
    let l3 = esc(d.triple).len() as int;
    let p7 = 57 + l1 + l2 + l3;
    let body = pairs_body(d.benchmarks);
    let tail = seq![125u8, 125u8];
    lemma_peel(input, p7, body, tail);
    let p8 = p7 + body.len() as int;
    assert(input[p8] == 125);
    assert(input.len() == p8 + 2);
    lemma_parse_entry_of_body(d.benchmarks, input, p7);
    assert(parse_pairs_entry(input, p7) == Some((d.benchmarks, p8 + 1)));
    assert(input[p8 + 1] == input.subrange(p8, input.len() as int)[1]);
    assert(input[p8 + 1] == 125);
    assert(decode_doc_spec(input) == Some(
        CommitDataView {
            sha: d.sha,
            date_str: d.date_str,
            triple: d.triple,
            benchmarks: d.benchmarks,
        },
    ));
    assert(CommitDataView {
        sha: d.sha,
        date_str: d.date_str,
        triple: d.triple,
        benchmarks: d.benchmarks,
    } == d);
}

} // verus!
