//! Parsing of elevation-grid text into a row-major sequence of samples.
use vstd::prelude::*;

use crate::decimal::Decimal;
use crate::numeral::{is_numeral, lemma_malformed_token, parse_token, sample_of, NODATA};

verus! {

/// The line feed, which ends a row of the grid.
pub const LINE_FEED: u8 = 10;

/// Space, tab, carriage return, vertical tab and form feed separate the values
/// of a row.
pub open spec fn is_blank(b: u8) -> bool {
    b == 32 || b == 9 || b == 13 || b == 11 || b == 12
}

/// The lines of `s`, split at every line feed; `cur` is the part of the
/// current line already read.
pub open spec fn split_lines(s: Seq<u8>, cur: Seq<u8>) -> Seq<Seq<u8>>
    decreases s.len(),
{
    if s.len() == 0 {
        seq![cur]
    } else if s[0] == LINE_FEED {
        seq![cur] + split_lines(s.drop_first(), seq![])
    } else {
        split_lines(s.drop_first(), cur.push(s[0]))
    }
}

/// The lines of the text `s`.
pub open spec fn lines(s: Seq<u8>) -> Seq<Seq<u8>> {
    split_lines(s, seq![])
}

/// The tokens of `s`: its maximal runs of bytes that are not blank; `cur` is
/// the part of the current token already read.
pub open spec fn split_words(s: Seq<u8>, cur: Seq<u8>) -> Seq<Seq<u8>>
    decreases s.len(),
{
    if s.len() == 0 {
        if cur.len() > 0 {
            seq![cur]
        } else {
            seq![]
        }
    } else if is_blank(s[0]) {
        (if cur.len() > 0 {
            seq![cur]
        } else {
            seq![]
        }) + split_words(s.drop_first(), seq![])
    } else {
        split_words(s.drop_first(), cur.push(s[0]))
    }
}

/// The whitespace-separated tokens of a line.
pub open spec fn words(line: Seq<u8>) -> Seq<Seq<u8>> {
    split_words(line, seq![])
}

/// The samples of a row whose tokens are `w`: one for each of its first
/// `res` tokens.
pub open spec fn samples_of_words(w: Seq<Seq<u8>>, res: nat) -> Seq<Decimal> {
    let n = if res < w.len() {
        res
    } else {
        w.len()
    };
    w.take(n as int).map_values(|t: Seq<u8>| sample_of(t))
}

/// The samples of one row.
pub open spec fn row_samples(line: Seq<u8>, res: nat) -> Seq<Decimal> {
    samples_of_words(words(line), res)
}

/// The samples of the rows `ls`, in order.
pub open spec fn samples_of_lines(ls: Seq<Seq<u8>>, res: nat) -> Seq<Decimal>
    decreases ls.len(),
{
    if ls.len() == 0 {
        seq![]
    } else {
        row_samples(ls[0], res) + samples_of_lines(ls.drop_first(), res)
    }
}

/// The samples that the grid text `s` yields with rows cut to `res` values.
pub open spec fn loaded(s: Seq<u8>, res: nat) -> Seq<Decimal> {
    samples_of_lines(lines(s), res)
}

/// Replacing a token of a row that is no numeral by the token `0` leaves the
/// samples of the row unchanged: the load goes on past the bad token.
pub proof fn lemma_malformed_token_replaced(w: Seq<Seq<u8>>, c: int, res: nat)
    requires
        0 <= c < w.len(),
        !is_numeral(w[c]),
    ensures
        samples_of_words(w.update(c, seq![48u8]), res) == samples_of_words(w, res),
{
    lemma_malformed_token(w[c]);
    let u = w.update(c, seq![48u8]);
    assert(samples_of_words(u, res) =~= samples_of_words(w, res));
}

/// A row yields one sample for each of its first `res` tokens, from the
/// left, and no more: the tokens after the first `res` are dropped.
pub proof fn lemma_row_truncation(line: Seq<u8>, res: nat)
    ensures
        words(line).len() >= res ==> row_samples(line, res).len() == res,
        words(line).len() < res ==> row_samples(line, res).len() == words(line).len(),
        forall|i: int|
            0 <= i < row_samples(line, res).len() ==> #[trigger] row_samples(line, res)[i]
                == sample_of(words(line)[i]),
{
}

/// Reading `k` bytes that are no line feed only lengthens the current line.
proof fn lemma_absorb_line(t: Seq<u8>, cur: Seq<u8>, k: int)
    requires
        0 <= k <= t.len(),
        forall|i: int| 0 <= i < k ==> t[i] != LINE_FEED,
    ensures
        split_lines(t, cur) == split_lines(t.skip(k), cur + t.take(k)),
    decreases k,
{
    if k == 0 {
        assert(t.skip(0) =~= t);
        assert(cur + t.take(0) =~= cur);
    } else {
        let u = t.drop_first();
        lemma_absorb_line(u, cur.push(t[0]), k - 1);
        assert(u.skip(k - 1) =~= t.skip(k));
        assert(cur.push(t[0]) + u.take(k - 1) =~= cur + t.take(k));
    }
}

/// Reading `k` bytes that are not blank only lengthens the current token.
proof fn lemma_absorb_word(t: Seq<u8>, cur: Seq<u8>, k: int)
    requires
        0 <= k <= t.len(),
        forall|i: int| 0 <= i < k ==> !is_blank(t[i]),
    ensures
        split_words(t, cur) == split_words(t.skip(k), cur + t.take(k)),
    decreases k,
{
    if k == 0 {
        assert(t.skip(0) =~= t);
        assert(cur + t.take(0) =~= cur);
    } else {
        let u = t.drop_first();
        lemma_absorb_word(u, cur.push(t[0]), k - 1);
        assert(u.skip(k - 1) =~= t.skip(k));
        assert(cur.push(t[0]) + u.take(k - 1) =~= cur + t.take(k));
    }
}

/// Whether `b` separates the values of a row.
fn blank(b: u8) -> (r: bool)
    ensures
        r == is_blank(b),
{
    b == 32 || b == 9 || b == 13 || b == 11 || b == 12
}

/// Appends to `out` the samples of the row `s[start..end]`.
pub fn push_row(s: &[u8], start: usize, end: usize, res: usize, out: &mut Vec<Decimal>)
    requires
        start <= end <= s.len(),
    ensures
        final(out)@ == old(out)@ + row_samples(s@.subrange(start as int, end as int), res as nat),
        forall|i: int|
            old(out).len() <= i < final(out).len() ==> (#[trigger] final(out)[i]).is_sample()
                && !final(out)[i].equals(NODATA as int),
{
    let ghost line = s@.subrange(start as int, end as int);
    let ghost done: Seq<Seq<u8>> = seq![];
    let ghost base = out@;
    let mut count: usize = 0;
    let mut i: usize = start;
    proof {
        assert(s@.subrange(start as int, end as int) =~= line);
        assert(done + split_words(line, seq![]) =~= words(line));
    }
    while i < end && count < res
        invariant
            start <= i <= end <= s.len(),
            line == s@.subrange(start as int, end as int),
            words(line) == done + split_words(s@.subrange(i as int, end as int), seq![]),
            count == done.len() <= res,
            out@ == base + done.map_values(|t: Seq<u8>| sample_of(t)),
            base == old(out)@,
            forall|j: int|
                base.len() <= j < out.len() ==> (#[trigger] out[j]).is_sample() && !out[j].equals(
                    NODATA as int,
                ),
        decreases end - i,
    {
        let ghost rest = s@.subrange(i as int, end as int);
        if blank(s[i]) {
            assert(rest.drop_first() =~= s@.subrange(i + 1, end as int));
            assert(seq![] + split_words(rest.drop_first(), seq![]) =~= split_words(
                rest.drop_first(),
                seq![],
            ));
            i = i + 1;
        } else {
            let mut j: usize = i + 1;
            while j < end && !blank(s[j])
                invariant
                    i < j <= end <= s.len(),
                    forall|m: int| i <= m < j ==> !is_blank(s[m]),
                decreases end - j,
            {
                j = j + 1;
            }
            let ghost w = s@.subrange(i as int, j as int);
            let ghost after = s@.subrange(j as int, end as int);
            proof {
                lemma_absorb_word(rest, seq![], (j - i) as int);
                assert(rest.skip((j - i) as int) =~= after);
                assert(seq![] + rest.take((j - i) as int) =~= w);
                if j < end {
                    assert(after.drop_first() =~= s@.subrange(j + 1, end as int));
                    assert(split_words(after, seq![]) =~= seq![] + split_words(
                        after.drop_first(),
                        seq![],
                    ));
                } else {
                    assert(after =~= seq![]);
                }
                assert(split_words(after, w) =~= seq![w] + split_words(after, seq![]));
                assert(done.push(w) + split_words(after, seq![]) =~= done + split_words(
                    rest,
                    seq![],
                ));
            }
            let e = parse_token(s, i, j);
            out.push(e);
            proof {
                assert(done.push(w).map_values(|t: Seq<u8>| sample_of(t)) =~= done.map_values(
                    |t: Seq<u8>| sample_of(t),
                ).push(e));
                done = done.push(w);
            }
            count = count + 1;
            i = j;
        }
    }
    proof {
        let wl = words(line);
        let n = if res < wl.len() {
            res as int
        } else {
            wl.len() as int
        };
        if i == end {
            assert(s@.subrange(i as int, end as int) =~= seq![]);
            assert(wl =~= done);
        }
        assert(wl.take(n) =~= done);
        assert(row_samples(line, res as nat) =~= done.map_values(|t: Seq<u8>| sample_of(t)));
    }
}

/// The rows `[line] + tail` yield the samples of `line`, then those of `tail`.
proof fn lemma_samples_cons(line: Seq<u8>, tail: Seq<Seq<u8>>, res: nat)
    ensures
        samples_of_lines(seq![line] + tail, res) == row_samples(line, res) + samples_of_lines(
            tail,
            res,
        ),
{
    let ls = seq![line] + tail;
    assert(ls.drop_first() =~= tail);
    assert(ls[0] == line);
}

/// An empty text yields no samples.
proof fn lemma_no_text_no_samples(res: nat)
    ensures
        samples_of_lines(split_lines(seq![], seq![]), res) == Seq::<Decimal>::empty(),
{
    let e: Seq<u8> = seq![];
    assert(split_lines(e, e) == seq![e]);
    lemma_samples_cons(e, seq![], res);
    assert(seq![e] + Seq::<Seq<u8>>::empty() =~= seq![e]);
    assert(words(e) =~= seq![]);
    assert(row_samples(e, res) =~= seq![]);
    assert(samples_of_lines(Seq::<Seq<u8>>::empty(), res) =~= seq![]);
    assert(row_samples(e, res) + Seq::<Decimal>::empty() =~= Seq::<Decimal>::empty());
}

/// Parses elevation-grid text: every line is a row, every row is cut to its
/// first `res` whitespace-separated tokens, and every token yields its sample.
pub fn import(data: &[u8], res: usize) -> (r: Vec<Decimal>)
    ensures
        r@ == loaded(data@, res as nat),
        forall|i: int| 0 <= i < r.len() ==> (#[trigger] r[i]).is_sample() && !r[i].equals(NODATA as int),
{
    let mut out: Vec<Decimal> = Vec::new();
    let len = data.len();
    let mut p: usize = 0;
    proof {
        assert(data@.subrange(0, len as int) =~= data@);
        assert(out@ + samples_of_lines(split_lines(data@, seq![]), res as nat) =~= loaded(
            data@,
            res as nat,
        ));
    }
    while p < len
        invariant
            p <= len == data.len(),
            loaded(data@, res as nat) == out@ + samples_of_lines(
                split_lines(data@.subrange(p as int, len as int), seq![]),
                res as nat,
            ),
            forall|i: int|
                0 <= i < out.len() ==> (#[trigger] out[i]).is_sample() && !out[i].equals(NODATA as int),
        decreases len - p,
    {
        let mut e: usize = p;
        while e < len && data[e] != LINE_FEED
            invariant
                p <= e <= len == data.len(),
                forall|m: int| p <= m < e ==> data[m] != LINE_FEED,
            decreases len - e,
        {
            e = e + 1;
        }
        let ghost rest = data@.subrange(p as int, len as int);
        let ghost line = data@.subrange(p as int, e as int);
        let ghost after = data@.subrange(e as int, len as int);
        let ghost before = out@;
        push_row(data, p, e, res, &mut out);
        proof {
            lemma_absorb_line(rest, seq![], (e - p) as int);
            assert(rest.skip((e - p) as int) =~= after);
            assert(seq![] + rest.take((e - p) as int) =~= line);
        }
        if e < len {
            proof {
                assert(after.drop_first() =~= data@.subrange(e + 1, len as int));
                let tail = split_lines(after.drop_first(), seq![]);
                lemma_samples_cons(line, tail, res as nat);
                assert(before + (row_samples(line, res as nat) + samples_of_lines(tail, res as nat))
                    =~= out@ + samples_of_lines(tail, res as nat));
            }
            p = e + 1;
        } else {
            proof {
                assert(after =~= seq![]);
                lemma_samples_cons(line, seq![], res as nat);
                assert(seq![line] + Seq::<Seq<u8>>::empty() =~= seq![line]);
                assert(data@.subrange(len as int, len as int) =~= seq![]);
                lemma_no_text_no_samples(res as nat);
                assert(samples_of_lines(Seq::<Seq<u8>>::empty(), res as nat) =~= seq![]);
                assert(before + (row_samples(line, res as nat) + Seq::<Decimal>::empty())
                    =~= out@ + Seq::<Decimal>::empty());
            }
            p = len;
        }
    }
    proof {
        assert(data@.subrange(len as int, len as int) =~= seq![]);
        lemma_no_text_no_samples(res as nat);
        assert(out@ + Seq::<Decimal>::empty() =~= out@);
    }
    out
}

} // verus!
