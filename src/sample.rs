use vstd::prelude::*;

use crate::lossy_pht::{hash, hash_spec};

verus! {

/// Bytes of sample that training aims for.
pub const FSST_SAMPLETARGET: usize = 16384;

/// Longest piece of one line that goes into the sample.
pub const FSST_SAMPLELINE: usize = 512;

/// The sampler's generator starts from the hash of this seed.
pub const SAMPLE_SEED: u64 = 4637947;

/// Total length of the lines of a corpus.
pub open spec fn corpus_len(lines: Seq<&[u8]>) -> nat
    decreases lines.len(),
{
    if lines.len() == 0 {
        0
    } else {
        corpus_len(lines.drop_last()) + lines.last()@.len()
    }
}

/// Total length of the lines of a sample.
pub open spec fn sample_len(lines: Seq<Vec<u8>>) -> nat
    decreases lines.len(),
{
    if lines.len() == 0 {
        0
    } else {
        sample_len(lines.drop_last()) + lines.last()@.len()
    }
}

/// The lines of a prefix of a sample are no longer than the whole sample.
pub(crate) proof fn lemma_sample_len_prefix(s: Seq<Vec<u8>>, k: int)
    requires
        0 <= k <= s.len(),
    ensures
        sample_len(s.take(k)) <= sample_len(s),
        k < s.len() ==> sample_len(s.take(k + 1)) == sample_len(s.take(k)) + s[k]@.len(),
    decreases s.len(),
{
    if k < s.len() {
        assert(s.take(k + 1).drop_last() =~= s.take(k));
        lemma_sample_len_prefix(s.drop_last(), k);
        assert(s.drop_last().take(k) =~= s.take(k));
    } else {
        assert(s.take(k) =~= s);
    }
}

/// The lines of a prefix of a corpus are no longer than the whole corpus.
proof fn lemma_corpus_len_prefix(s: Seq<&[u8]>, k: int)
    requires
        0 <= k <= s.len(),
    ensures
        corpus_len(s.take(k)) <= corpus_len(s),
    decreases s.len(),
{
    if k < s.len() {
        lemma_corpus_len_prefix(s.drop_last(), k);
        assert(s.drop_last().take(k) =~= s.take(k));
    } else {
        assert(s.take(k) =~= s);
    }
}

/// A copy of `line[start..end]`.
fn copy_range(line: &[u8], start: usize, end: usize) -> (r: Vec<u8>)
    requires
        start <= end <= line@.len(),
    ensures
        r@ == line@.subrange(start as int, end as int),
{
    let mut r: Vec<u8> = Vec::with_capacity(end - start);
    let mut i: usize = start;
    while i < end
        invariant
            start <= i <= end,
            end <= line@.len(),
            r@ == line@.subrange(start as int, i as int),
        decreases end - i,
    {
        r.push(line[i]);
        i = i + 1;
        proof {
            assert(r@ =~= line@.subrange(start as int, i as int));
        }
    }
    r
}

/// The byte strings of a sample.
pub open spec fn sample_views(s: Seq<Vec<u8>>) -> Seq<Seq<u8>> {
    s.map_values(|v: Vec<u8>| v@)
}

/// The first non-empty line at or after `start`, wrapping around, among the
/// lines tried from the `j`-th on.
pub open spec fn first_nonempty(text: Seq<&[u8]>, start: int, j: int) -> Option<int>
    decreases text.len() - j,
{
    if j < 0 || j >= text.len() {
        None
    } else {
        let cand = if j < text.len() - start {
            start + j
        } else {
            j - (text.len() - start)
        };
        if text[cand]@.len() > 0 {
            Some(cand)
        } else {
            first_nonempty(text, start, j + 1)
        }
    }
}

/// The pieces that the sampler takes from generator state `rnd` on, once
/// `offset` bytes are taken: it draws a line (going on to the next non-empty
/// one), then one of its 512-byte chunks, and stops at the target or when
/// every line is empty.
pub open spec fn sample_from(text: Seq<&[u8]>, rnd: u64, offset: int) -> Seq<Seq<u8>>
    decreases FSST_SAMPLETARGET + FSST_SAMPLELINE - offset,
{
    if offset >= FSST_SAMPLETARGET || text.len() == 0 {
        Seq::empty()
    } else {
        let r1 = hash_spec(rnd);
        let line_nr = (r1 % (text.len() as u64)) as int;
        match first_nonempty(text, line_nr, 0) {
            None => Seq::empty(),
            Some(li) => {
                let line = text[li]@;
                let l = line.len() as int;
                let chunks = 1 + (l - 1) / 512;
                let r2 = hash_spec(r1);
                let chunk = 512 * ((r2 % (chunks as u64)) as int);
                let len = if 512 < l - chunk {
                    512
                } else {
                    l - chunk
                };
                if 1 <= len {
                    seq![line.subrange(chunk, chunk + len)] + sample_from(text, r2, offset + len)
                } else {
                    seq![line.subrange(chunk, chunk + len)]
                }
            },
        }
    }
}

/// The training sample of a corpus: the corpus itself when it is shorter
/// than the target, else the pieces that the generator picks.
pub closed spec fn sample_of(text: Seq<&[u8]>) -> Seq<Seq<u8>> {
    if corpus_len(text) < FSST_SAMPLETARGET {
        text.map_values(|l: &[u8]| l@)
    } else {
        sample_from(text, hash_spec(SAMPLE_SEED), 0)
    }
}

/// The training sample: the whole corpus when it is shorter than the
/// target, else pieces of at most 512 bytes of lines picked by a
/// deterministic generator until the target is reached.
pub(crate) fn make_sample(text: &[&[u8]]) -> (r: Vec<Vec<u8>>)
    ensures
        sample_len(r@) < FSST_SAMPLETARGET + FSST_SAMPLELINE,
        corpus_len(text@) < FSST_SAMPLETARGET ==> r@.len() == text@.len() && forall|i: int|
            0 <= i < text@.len() ==> (#[trigger] r@[i])@ == text@[i]@,
        sample_views(r@) == sample_of(text@),
{
    let n = text.len();
    let mut total: usize = 0;
    let mut i: usize = 0;
    while i < n && total < FSST_SAMPLETARGET
        invariant
            n == text@.len(),
            i <= n,
            total <= FSST_SAMPLETARGET,
            total < FSST_SAMPLETARGET ==> total == corpus_len(text@.take(i as int)),
            total == FSST_SAMPLETARGET ==> corpus_len(text@.take(i as int)) >= FSST_SAMPLETARGET,
        decreases n - i,
    {
        let l = text[i].len();
        proof {
            assert(text@.take(i + 1).drop_last() =~= text@.take(i as int));
        }
        if l >= FSST_SAMPLETARGET - total {
            total = FSST_SAMPLETARGET;
        } else {
            total = total + l;
        }
        i = i + 1;
    }
    let mut sample: Vec<Vec<u8>> = Vec::new();
    if total < FSST_SAMPLETARGET {
        proof {
            assert(text@.take(n as int) =~= text@);
        }
        let mut j: usize = 0;
        while j < n
            invariant
                n == text@.len(),
                j <= n,
                total == corpus_len(text@),
                total < FSST_SAMPLETARGET,
                sample@.len() == j,
                sample_len(sample@) == corpus_len(text@.take(j as int)),
                forall|k: int| 0 <= k < j ==> (#[trigger] sample@[k])@ == text@[k]@,
            decreases n - j,
        {
            let line = copy_range(text[j], 0, text[j].len());
            proof {
                assert(text[j as int]@.subrange(0, text[j as int]@.len() as int) =~= text[j as int]@);
            }
            let ghost before = sample@;
            sample.push(line);
            proof {
                assert(sample@.drop_last() =~= before);
                assert(text@.take(j + 1).drop_last() =~= text@.take(j as int));
            }
            j = j + 1;
        }
        proof {
            assert(text@.take(n as int) =~= text@);
            assert(sample_views(sample@) =~= text@.map_values(|l: &[u8]| l@));
        }
        return sample;
    }
    proof {
        lemma_corpus_len_prefix(text@, i as int);
        if n == 0 {
            assert(text@.take(0) =~= Seq::<&[u8]>::empty());
        }
    }
    let mut sample_rnd = hash(SAMPLE_SEED);
    let mut offset: usize = 0;
    proof {
        assert(sample_views(sample@) =~= Seq::<Seq<u8>>::empty());
        assert(Seq::<Seq<u8>>::empty() + sample_from(text@, sample_rnd, 0) =~= sample_from(
            text@,
            sample_rnd,
            0,
        ));
    }
    while offset < FSST_SAMPLETARGET
        invariant
            n == text@.len(),
            n > 0,
            corpus_len(text@) >= FSST_SAMPLETARGET,
            offset < FSST_SAMPLETARGET + FSST_SAMPLELINE,
            sample_len(sample@) == offset,
            sample_views(sample@) + sample_from(text@, sample_rnd, offset as int) == sample_from(
                text@,
                hash_spec(SAMPLE_SEED),
                0,
            ),
        decreases FSST_SAMPLETARGET + FSST_SAMPLELINE - offset,
    {
        let ghost rnd0 = sample_rnd;
        let ghost before = sample@;
        sample_rnd = hash(sample_rnd);
        let line_nr = (sample_rnd % (n as u64)) as usize;
        let mut j: usize = 0;
        let mut found = false;
        let mut li: usize = 0;
        while j < n && !found
            invariant
                n == text@.len(),
                line_nr < n,
                j <= n,
                found ==> li < n && text@[li as int]@.len() > 0,
                found ==> first_nonempty(text@, line_nr as int, 0) == Some(li as int),
                !found ==> first_nonempty(text@, line_nr as int, 0) == first_nonempty(
                    text@,
                    line_nr as int,
                    j as int,
                ),
            decreases n - j + (if found {
                0int
            } else {
                1int
            }),
        {
            let cand = if j < n - line_nr {
                line_nr + j
            } else {
                j - (n - line_nr)
            };
            if text[cand].len() > 0 {
                found = true;
                li = cand;
            } else {
                j = j + 1;
            }
        }
        if !found {
            proof {
                assert(sample_from(text@, rnd0, offset as int) =~= Seq::<Seq<u8>>::empty());
                assert(sample_views(sample@) + Seq::<Seq<u8>>::empty() =~= sample_views(sample@));
            }
            return sample;
        }
        let line = text[li];
        let l = line.len();
        let chunks = 1 + (l - 1) / FSST_SAMPLELINE;
        sample_rnd = hash(sample_rnd);
        let k = (sample_rnd % (chunks as u64)) as usize;
        assert(FSST_SAMPLELINE * k <= l - 1) by (nonlinear_arith)
            requires
                k < chunks,
                chunks == 1 + (l - 1) / 512,
                l >= 1,
                FSST_SAMPLELINE == 512,
        ;
        let chunk = FSST_SAMPLELINE * k;
        let len = if FSST_SAMPLELINE < l - chunk {
            FSST_SAMPLELINE
        } else {
            l - chunk
        };
        assert(1 <= len <= FSST_SAMPLELINE);
        let piece = copy_range(line, chunk, chunk + len);
        sample.push(piece);
        proof {
            assert(sample@.drop_last() =~= before);
            let tail = sample_from(text@, sample_rnd, offset + len);
            assert(sample_from(text@, rnd0, offset as int) == seq![piece@] + tail);
            assert(sample_views(sample@) =~= sample_views(before).push(piece@));
            assert(sample_views(sample@) + tail =~= sample_views(before) + (seq![piece@] + tail));
        }
        offset = offset + len;
    }
    proof {
        assert(sample_from(text@, sample_rnd, offset as int) =~= Seq::<Seq<u8>>::empty());
        assert(sample_views(sample@) + Seq::<Seq<u8>>::empty() =~= sample_views(sample@));
    }
    sample
}

/// What the training sample of a corpus is.
pub proof fn lemma_sample_of_unfold(text: Seq<&[u8]>)
    ensures
        sample_of(text) == (if corpus_len(text) < FSST_SAMPLETARGET {
            text.map_values(|l: &[u8]| l@)
        } else {
            sample_from(text, hash_spec(SAMPLE_SEED), 0)
        }),
{
}

/// Corpora with the same bytes line by line.
pub open spec fn same_lines(a: Seq<&[u8]>, b: Seq<&[u8]>) -> bool {
    a.len() == b.len() && forall|i: int| 0 <= i < a.len() ==> #[trigger] a[i]@ == b[i]@
}

proof fn lemma_corpus_len_same_lines(a: Seq<&[u8]>, b: Seq<&[u8]>)
    requires
        same_lines(a, b),
    ensures
        corpus_len(a) == corpus_len(b),
    decreases a.len(),
{
    if a.len() > 0 {
        assert(same_lines(a.drop_last(), b.drop_last()));
        lemma_corpus_len_same_lines(a.drop_last(), b.drop_last());
        assert(a.last()@ == b.last()@);
    }
}

proof fn lemma_first_nonempty_same_lines(a: Seq<&[u8]>, b: Seq<&[u8]>, start: int, j: int)
    requires
        same_lines(a, b),
        0 <= start < a.len(),
    ensures
        first_nonempty(a, start, j) == first_nonempty(b, start, j),
        first_nonempty(a, start, j) matches Some(li) ==> 0 <= li < a.len(),
    decreases a.len() - j,
{
    if 0 <= j < a.len() {
        let cand = if j < a.len() - start {
            start + j
        } else {
            j - (a.len() - start)
        };
        if 0 <= cand < a.len() {
            assert(a[cand]@ == b[cand]@);
        }
        lemma_first_nonempty_same_lines(a, b, start, j + 1);
    }
}

#[verifier::spinoff_prover]
proof fn lemma_sample_from_same_lines(a: Seq<&[u8]>, b: Seq<&[u8]>, rnd: u64, offset: int)
    requires
        same_lines(a, b),
        a.len() <= usize::MAX,
    ensures
        sample_from(a, rnd, offset) == sample_from(b, rnd, offset),
    decreases FSST_SAMPLETARGET + FSST_SAMPLELINE - offset,
{
    if offset < FSST_SAMPLETARGET && a.len() != 0 {
        let r1 = hash_spec(rnd);
        let line_nr = (r1 % (a.len() as u64)) as int;
        assert(0 <= line_nr < a.len());
        lemma_first_nonempty_same_lines(a, b, line_nr, 0);
        match first_nonempty(a, line_nr, 0) {
            None => {},
            Some(li) => {
                if 0 <= li < a.len() {
                    assert(a[li]@ == b[li]@);
                }
                let l = a[li]@.len() as int;
                let chunks = 1 + (l - 1) / 512;
                let r2 = hash_spec(r1);
                let chunk = 512 * ((r2 % (chunks as u64)) as int);
                let len = if 512 < l - chunk {
                    512
                } else {
                    l - chunk
                };
                if 1 <= len {
                    lemma_sample_from_same_lines(a, b, r2, offset + len);
                }
            },
        }
    }
}

/// The sample depends on the bytes of the corpus alone.
pub proof fn lemma_sample_of_same_lines(a: Seq<&[u8]>, b: Seq<&[u8]>)
    requires
        same_lines(a, b),
        a.len() <= usize::MAX,
    ensures
        sample_of(a) == sample_of(b),
{
    lemma_corpus_len_same_lines(a, b);
    lemma_sample_from_same_lines(a, b, hash_spec(SAMPLE_SEED), 0);
    assert(a.map_values(|l: &[u8]| l@) =~= b.map_values(|l: &[u8]| l@));
}

} // verus!
