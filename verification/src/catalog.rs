//! The token catalog: a newline-delimited vocabulary source is split into
//! lines, empty lines are discarded, and the remaining tokens are grouped
//! into buckets keyed by printed length. Bucket `i` holds exactly the
//! tokens of length `i + 1`, in source order, and the catalog spans the
//! longest token exactly.

use vstd::prelude::*;
use vstd::math::max;
use crate::ConfigError;

verus! {

broadcast use vstd::seq_lib::group_filter_ensures;

/// The byte sequences of a list of byte vectors.
pub open spec fn views_of(s: Seq<Vec<u8>>) -> Seq<Seq<u8>> {
    s.map_values(|v: Vec<u8>| v@)
}

/// Index of the first newline byte of `s`, or `s.len()` if there is none.
pub open spec fn first_nl(s: Seq<u8>) -> nat
    decreases s.len(),
{
    if s.len() == 0 {
        0
    } else if s[0] == 10 {
        0
    } else {
        (1 + first_nl(s.skip(1))) as nat
    }
}

/// The lines of `s`: the (possibly empty) stretches between newline bytes.
/// Splitting never yields nothing; an empty source is one empty line.
pub open spec fn spec_lines(s: Seq<u8>) -> Seq<Seq<u8>>
    decreases s.len(),
{
    let i = first_nl(s) as int;
    if i >= s.len() {
        seq![s]
    } else {
        seq![s.take(i)] + spec_lines(s.skip(i + 1))
    }
}

/// The length of the longest line, 0 when every line is empty.
pub open spec fn max_line_len(lines: Seq<Seq<u8>>) -> int
    decreases lines.len(),
{
    if lines.len() == 0 {
        0
    } else {
        max(max_line_len(lines.drop_last()), lines.last().len() as int)
    }
}

/// The lines of length exactly `len`, in order.
pub open spec fn lines_of_len(lines: Seq<Seq<u8>>, len: int) -> Seq<Seq<u8>> {
    lines.filter(|l: Seq<u8>| l.len() == len)
}

proof fn lemma_first_nl_at(s: Seq<u8>, j: int)
    requires
        0 <= j <= s.len(),
        forall|k: int| 0 <= k < j ==> s[k] != 10,
        j < s.len() ==> s[j] == 10,
    ensures
        first_nl(s) == j,
    decreases j,
{
    if j == 0 {
    } else {
        assert(s[0] != 10);
        lemma_first_nl_at(s.skip(1), j - 1);
    }
}

proof fn lemma_filter_push<A>(s: Seq<A>, x: A, pred: spec_fn(A) -> bool)
    ensures
        s.push(x).filter(pred) == (if pred(x) {
            s.filter(pred).push(x)
        } else {
            s.filter(pred)
        }),
{
    reveal(Seq::filter);
    assert(s.push(x).drop_last() =~= s);
    assert(s.push(x).last() == x);
}

proof fn lemma_max_line_len_ge(lines: Seq<Seq<u8>>, i: int)
    requires
        0 <= i < lines.len(),
    ensures
        lines[i].len() <= max_line_len(lines),
    decreases lines.len(),
{
    if i < lines.len() - 1 {
        lemma_max_line_len_ge(lines.drop_last(), i);
    }
}

proof fn lemma_max_line_len_attained(lines: Seq<Seq<u8>>)
    requires
        lines.len() > 0,
    ensures
        exists|i: int| 0 <= i < lines.len() && lines[i].len() == max_line_len(lines),
    decreases lines.len(),
{
    let m = max_line_len(lines);
    if lines.last().len() == m {
        assert(lines[lines.len() - 1].len() == m);
    } else {
        if lines.len() == 1 {
            assert(lines.drop_last().len() == 0);
            assert(max_line_len(lines.drop_last()) == 0);
        }
        lemma_max_line_len_attained(lines.drop_last());
        let i = choose|i: int|
            0 <= i < lines.drop_last().len() && lines.drop_last()[i].len() == max_line_len(
                lines.drop_last(),
            );
        assert(lines[i].len() == m);
    }
}

/// Splits a byte source on newline bytes. Every stretch between newlines is
/// one line, kept in order, empty stretches included.
pub fn split_lines(src: &[u8]) -> (r: Vec<Vec<u8>>)
    ensures
        views_of(r@) == spec_lines(src@),
{
    let n = src.len();
    let mut lines: Vec<Vec<u8>> = Vec::new();
    let mut cur: Vec<u8> = Vec::new();
    let ghost mut start: int = 0;
    proof {
        assert(src@.skip(0) =~= src@);
        assert(cur@ =~= src@.subrange(0, 0));
        assert(views_of(lines@) + spec_lines(src@) =~= spec_lines(src@));
    }
    let mut i: usize = 0;
    while i < n
        invariant
            n == src@.len(),
            0 <= start <= i as int <= n as int,
            cur@ == src@.subrange(start, i as int),
            forall|k: int| start <= k < i as int ==> src@[k] != 10,
            spec_lines(src@) == views_of(lines@) + spec_lines(src@.skip(start)),
        decreases n - i,
    {
        if src[i] == 10 {
            proof {
                let tail = src@.skip(start);
                lemma_first_nl_at(tail, i as int - start);
                assert(tail.take(i as int - start) =~= src@.subrange(start, i as int));
                assert(tail.skip(i as int - start + 1) =~= src@.skip(i as int + 1));
                assert(spec_lines(tail) == seq![cur@] + spec_lines(src@.skip(i as int + 1)));
            }
            lines.push(cur);
            cur = Vec::new();
            proof {
                start = i as int + 1;
                assert(views_of(lines@) =~= views_of(lines@.drop_last()) + seq![
                    lines@.last()@,
                ]);
                assert(spec_lines(src@) =~= views_of(lines@) + spec_lines(src@.skip(start)));
            }
        } else {
            let b = src[i];
            cur.push(b);
            proof {
                assert(cur@ =~= src@.subrange(start, i as int + 1));
            }
        }
        i = i + 1;
    }
    proof {
        let tail = src@.skip(start);
        lemma_first_nl_at(tail, n as int - start);
        assert(tail =~= src@.subrange(start, n as int));
        assert(spec_lines(tail) == seq![cur@]);
    }
    lines.push(cur);
    proof {
        assert(views_of(lines@) =~= views_of(lines@.drop_last()) + seq![lines@.last()@]);
        assert(views_of(lines@) =~= spec_lines(src@));
    }
    lines
}

/// The length-indexed token catalog. Bucket `i` (spoken of as length
/// `i + 1`) holds the vocabulary tokens of exactly that byte length, in
/// source order.
#[derive(Debug)]
pub struct Catalog {
    buckets: Vec<Vec<Vec<u8>>>,
}

impl View for Catalog {
    type V = Seq<Seq<Seq<u8>>>;

    closed spec fn view(&self) -> Seq<Seq<Seq<u8>>> {
        self.buckets@.map_values(|b: Vec<Vec<u8>>| views_of(b@))
    }
}

impl Catalog {
    /// Every token of bucket `i` has length `i + 1`, there is at least one
    /// bucket, and the last bucket (the longest length) is inhabited.
    pub open spec fn wf(&self) -> bool {
        &&& self@.len() >= 1
        &&& forall|i: int, j: int|
            0 <= i < self@.len() && 0 <= j < self@[i].len() ==> (#[trigger] self@[i][j]).len() == i
                + 1
        &&& self@[self@.len() - 1].len() >= 1
    }

    /// The number of buckets, which is also the longest token length.
    pub fn max_len(&self) -> (r: usize)
        ensures
            r == self@.len(),
    {
        self.buckets.len()
    }

    /// How many tokens of length `length` the catalog holds.
    pub fn bucket_count(&self, length: u16) -> (r: usize)
        requires
            1 <= length && length <= self@.len(),
        ensures
            r == self@[length as int - 1].len(),
    {
        self.buckets[length as usize - 1].len()
    }

    /// Builds the catalog from a newline-delimited vocabulary source:
    /// splits on newlines, discards empty lines, groups the rest by length.
    /// Fails exactly when no non-empty line exists.
    pub fn build(src: &[u8]) -> (r: Result<Catalog, ConfigError>)
        ensures
            match r {
                Ok(c) => {
                    let lines = spec_lines(src@);
                    &&& max_line_len(lines) >= 1
                    &&& c@.len() == max_line_len(lines)
                    &&& forall|i: int|
                        0 <= i < c@.len() ==> #[trigger] c@[i] == lines_of_len(lines, i + 1)
                    &&& c.wf()
                },
                Err(e) => {
                    &&& e == ConfigError::EmptyVocabulary
                    &&& max_line_len(spec_lines(src@)) == 0
                },
            },
    {
        let mut lines = split_lines(src);
        let ghost all = views_of(lines@);

        // the longest line decides how many buckets there are
        let mut longest: usize = 0;
        let mut i: usize = 0;
        while i < lines.len()
            invariant
                all == views_of(lines@),
                i <= lines@.len(),
                longest as int == max_line_len(all.take(i as int)),
            decreases lines@.len() - i,
        {
            proof {
                assert(all.take(i as int + 1).drop_last() =~= all.take(i as int));
                assert(all.take(i as int + 1).last() == lines@[i as int]@);
            }
            if lines[i].len() > longest {
                longest = lines[i].len();
            }
            i = i + 1;
        }
        proof {
            assert(all.take(lines@.len() as int) =~= all);
        }
        if longest == 0 {
            return Err(ConfigError::EmptyVocabulary);
        }

        let mut buckets: Vec<Vec<Vec<u8>>> = Vec::new();
        let mut k: usize = 0;
        while k < longest
            invariant
                buckets@.len() == k as int,
                k <= longest,
                forall|b: int| 0 <= b < k as int ==> views_of(#[trigger] buckets@[b]@) =~= Seq::<
                    Seq<u8>,
                >::empty(),
            decreases longest - k,
        {
            buckets.push(Vec::new());
            k = k + 1;
        }

        let nlines = lines.len();
        let ghost total = nlines as int;
        let mut done: usize = 0;
        while lines.len() > 0
            invariant
                buckets@.len() == longest as int,
                all.len() == total,
                total <= usize::MAX,
                done as int + lines@.len() == total,
                views_of(lines@) =~= all.skip(done as int),
                forall|b: int|
                    0 <= b < longest as int ==> views_of(#[trigger] buckets@[b]@)
                        == lines_of_len(all.take(done as int), b + 1),
                longest as int == max_line_len(all),
            decreases lines@.len(),
        {
            let ghost prev = lines@;
            let line = lines.remove(0);
            proof {
                assert(views_of(prev)[0] == prev[0]@);
                assert(all.skip(done as int)[0] == all[done as int]);
                assert(line@ == all[done as int]);
                assert forall|k: int| 0 <= k < lines@.len() implies views_of(lines@)[k] == all[done
                    as int + 1 + k] by {
                    assert(lines@[k] == prev.remove(0)[k]);
                    assert(prev.remove(0)[k] == prev[k + 1]);
                    assert(views_of(prev)[k + 1] == prev[k + 1]@);
                    assert(all.skip(done as int)[k + 1] == all[done as int + 1 + k]);
                }
                assert(views_of(lines@) =~= all.skip(done as int + 1));
                assert(all.take(done as int + 1) =~= all.take(done as int).push(all[done as int]));
                lemma_max_line_len_ge(all, done as int);
            }
            let len = line.len();
            if len > 0 {
                let ghost prev = buckets@;
                let mut bucket = buckets.remove(len - 1);
                proof {
                    assert(bucket@ == prev[len - 1]@);
                }
                bucket.push(line);
                proof {
                    assert(views_of(bucket@) =~= views_of(bucket@.drop_last()).push(
                        bucket@.last()@,
                    ));
                }
                buckets.insert(len - 1, bucket);
                proof {
                    assert forall|b: int| 0 <= b < longest as int && b != len - 1 implies
                        buckets@[b] == prev[b] by {
                        if b < len - 1 {
                            assert(prev.remove(len - 1)[b] == prev[b]);
                        } else {
                            assert(prev.remove(len - 1)[b - 1] == prev[b]);
                        }
                    }
                    assert(buckets@[len - 1] == bucket);
                }
            }
            proof {
                assert forall|b: int| 0 <= b < longest as int implies views_of(
                    #[trigger] buckets@[b]@,
                ) == lines_of_len(all.take(done as int + 1), b + 1) by {
                    lemma_filter_push(
                        all.take(done as int),
                        all[done as int],
                        |l: Seq<u8>| l.len() == b + 1,
                    );
                }
            }
            done = done + 1;
        }
        proof {
            assert(all.take(total) =~= all);
        }

        let catalog = Catalog { buckets };
        proof {
            // the longest line lands in the last bucket, so it is inhabited
            lemma_max_line_len_attained(all);
            let w = choose|i: int| 0 <= i < all.len() && all[i].len() == max_line_len(all);
            assert(catalog@[longest as int - 1].contains(all[w]));
        }
        Ok(catalog)
    }

    /// Returns the token of length `length` at position `idx` of its
    /// bucket.
    pub fn pick_at(&self, length: u16, idx: usize) -> (r: &Vec<u8>)
        requires
            self.wf(),
            1 <= length && length as int <= self@.len(),
            idx < self@[length as int - 1].len(),
        ensures
            r@ == self@[length as int - 1][idx as int],
            r@.len() == length,
    {
        let r = &self.buckets[length as usize - 1][idx];
        proof {
            let li = length as int - 1;
            assert(self@[li] == views_of(self.buckets@[li]@));
            assert(self@[li][idx as int] == self.buckets@[li]@[idx as int]@);
            assert(self@[li][idx as int].len() == li + 1);
        }
        r
    }

    /// Returns a token of length `length`, chosen uniformly at random from
    /// its bucket. The bucket must be inhabited; the Row Scanner guarantees
    /// that by capping segment lengths, and the renderer checks it.
    pub fn pick(&self, length: u16) -> (r: &Vec<u8>)
        requires
            self.wf(),
            1 <= length && length as int <= self@.len(),
            self@[length as int - 1].len() >= 1,
        ensures
            self@[length as int - 1].contains(r@),
            r@.len() == length,
    {
        let count = self.bucket_count(length);
        let idx = random_below(count);
        let r = self.pick_at(length, idx);
        proof {
            assert(self@[length as int - 1].contains(r@));
        }
        r
    }
}

/// Relies on rand's `Rng::gen_range` over `0..n`: the sample lies in the
/// range; the call panics only on an empty range, which the precondition
/// rules out.
#[verifier::external_body]
fn random_below(n: usize) -> (r: usize)
    requires
        n >= 1,
    ensures
        r < n,
{
    rand::Rng::gen_range(&mut rand::thread_rng(), 0..n)
}

} // verus!
