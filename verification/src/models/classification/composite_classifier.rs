//! An ensemble of machines whose scores are summed.
use crate::bits::bits_of;
use crate::encoder::{EncodedBatch, EncodedSample};
use crate::models::classification::vanilla_classifier::TsetlinMachine;
use crate::models::ranking::{count_correct, is_last_max, last_max, lemma_last_max};
use vstd::prelude::*;
use vstd::slice::slice_to_vec;

verus! {

/// An ensemble of machines with the same number of classes.
#[derive(Clone, Debug)]
pub struct TMCompositeClassifier {
    pub classifiers: Vec<TsetlinMachine>,
}

/// The score that machine `m` gives class `c` for a packed sample.
pub open spec fn machine_score(m: TsetlinMachine, lit: Seq<u64>, c: int) -> int {
    m.config.scores_of(m@, bits_of(lit, m.config.train.n()))[c]
}

/// The sum of the scores that the first `k` machines give class `c`.
pub open spec fn score_total(ms: Seq<TsetlinMachine>, lit: Seq<u64>, c: int, k: nat) -> int
    decreases k,
{
    if k == 0 {
        0
    } else {
        score_total(ms, lit, c, (k - 1) as nat) + machine_score(ms[k - 1], lit, c)
    }
}

/// The summed scores of all classes.
pub open spec fn combined_scores(ms: Seq<TsetlinMachine>, lit: Seq<u64>) -> Seq<int> {
    Seq::new(ms[0].config.n_classes as nat, |c: int| score_total(ms, lit, c, ms.len()))
}

/// The sum of the thresholds of the first `k` machines, which bounds the summed scores.
pub open spec fn threshold_total(ms: Seq<TsetlinMachine>, k: nat) -> int
    decreases k,
{
    if k == 0 {
        0
    } else {
        threshold_total(ms, (k - 1) as nat) + ms[k - 1].config.train.threshold
    }
}

impl TMCompositeClassifier {
    pub open spec fn wf(&self) -> bool {
        &&& forall|k: int| 0 <= k < self.classifiers@.len() ==> (#[trigger] self.classifiers@[k]).wf()
        &&& forall|k: int|
            0 <= k < self.classifiers@.len() ==> (#[trigger] self.classifiers@[k]).config.n_classes
                == self.classifiers@[0].config.n_classes
    }

    /// All machines take samples of `words` words.
    pub open spec fn takes(&self, words: int) -> bool {
        forall|k: int|
            0 <= k < self.classifiers@.len() ==> (#[trigger] self.classifiers@[k]).config.train.geom.words
                == words
    }

    /// The class predicted for a packed sample: the last with the largest summed score.
    pub open spec fn predict_of(&self, lit: Seq<u64>) -> int {
        last_max(combined_scores(self.classifiers@, lit))
    }

    /// The classes predicted for the samples of a batch.
    pub open spec fn predictions_of(&self, batch: &EncodedBatch) -> Seq<int> {
        Seq::new(batch.n as nat, |i: int| self.predict_of(batch.sample(i)))
    }

    /// An ensemble without machines.
    pub fn new() -> (r: Self)
        ensures
            r.wf(),
            r.classifiers@.len() == 0,
    {
        TMCompositeClassifier { classifiers: Vec::new() }
    }

    /// Adds a machine, which must have as many classes as those that are there.
    pub fn add(&mut self, model: TsetlinMachine) -> (r: &mut Self)
        requires
            old(self).wf(),
            model.wf(),
            old(self).classifiers@.len() > 0 ==> model.config.n_classes
                == old(self).classifiers@[0].config.n_classes,
        ensures
            r.wf(),
            r.classifiers@ == old(self).classifiers@.push(model),
            *final(self) == *final(r),
    {
        self.classifiers.push(model);
        self
    }

    /// The number of machines.
    pub fn len(&self) -> (r: usize)
        ensures
            r == self.classifiers@.len(),
    {
        self.classifiers.len()
    }

    /// Whether there are no machines.
    pub fn is_empty(&self) -> (r: bool)
        ensures
            r == (self.classifiers@.len() == 0),
    {
        self.classifiers.len() == 0
    }

    /// The number of classes; 0 without machines.
    pub fn n_classes(&self) -> (r: usize)
        ensures
            r == if self.classifiers@.len() == 0 {
                0
            } else {
                self.classifiers@[0].config.n_classes
            },
    {
        if self.classifiers.len() == 0 {
            0
        } else {
            self.classifiers[0].n_classes()
        }
    }

    /// The machines.
    pub fn classifiers(&self) -> (r: &[TsetlinMachine])
        ensures
            r@ == self.classifiers@,
    {
        self.classifiers.as_slice()
    }

    /// The machines, to be changed one by one.
    pub fn classifiers_mut(&mut self) -> (r: &mut [TsetlinMachine])
        ensures
            r@ == old(self).classifiers@,
            final(self).classifiers@ == final(r)@,
    {
        self.classifiers.as_mut_slice()
    }

    /// The summed scores of all classes for a packed sample.
    fn combined(&self, lit: &EncodedSample) -> (r: Vec<i128>)
        requires
            self.wf(),
            self.classifiers@.len() > 0,
            self.takes(lit.0@.len() as int),
        ensures
            r@.len() == self.classifiers@[0].config.n_classes,
            forall|c: int|
                0 <= c < r@.len() ==> #[trigger] r@[c] == combined_scores(self.classifiers@, lit.0@)[c],
            forall|c: int|
                0 <= c < r@.len() ==> -threshold_total(self.classifiers@, self.classifiers@.len())
                    <= #[trigger] r@[c] <= threshold_total(
                    self.classifiers@,
                    self.classifiers@.len(),
                ),
    {
        let n_classes: usize = self.n_classes();
        let mut sums: Vec<i128> = vec![0i128; n_classes];
        let mut buf: Vec<i32> = vec![0i32; n_classes];
        let mut k: usize = 0;
        while k < self.classifiers.len()
            invariant
                self.wf(),
                self.takes(lit.0@.len() as int),
                self.classifiers@.len() > 0,
                n_classes == self.classifiers@[0].config.n_classes,
                k <= self.classifiers@.len(),
                sums@.len() == n_classes,
                buf@.len() == n_classes,
                0 <= threshold_total(self.classifiers@, k as nat) <= 0x8000_0000 * k,
                forall|c: int|
                    0 <= c < n_classes ==> #[trigger] sums@[c] == score_total(
                        self.classifiers@,
                        lit.0@,
                        c,
                        k as nat,
                    ),
                forall|c: int|
                    0 <= c < n_classes ==> -threshold_total(self.classifiers@, k as nat)
                        <= #[trigger] sums@[c] <= threshold_total(self.classifiers@, k as nat),
            decreases self.classifiers@.len() - k,
        {
            let ghost m = self.classifiers@[k as int];
            proof {
                assert(m.wf());
            }
            self.classifiers[k].scores(lit, &mut buf);
            let ghost before = sums@;
            let mut c: usize = 0;
            while c < n_classes
                invariant
                    c <= n_classes,
                    k < self.classifiers@.len(),
                    m == self.classifiers@[k as int],
                    m.wf(),
                    m.config.n_classes == n_classes,
                    sums@.len() == n_classes,
                    before.len() == n_classes,
                    buf@.len() == n_classes,
                    threshold_total(self.classifiers@, k as nat) <= 0x8000_0000 * k,
                    forall|j: int|
                        0 <= j < n_classes ==> #[trigger] buf@[j] == machine_score(m, lit.0@, j),
                    forall|j: int|
                        0 <= j < n_classes ==> -threshold_total(self.classifiers@, k as nat)
                            <= #[trigger] before[j] <= threshold_total(
                            self.classifiers@,
                            k as nat,
                        ),
                    forall|j: int| c <= j < n_classes ==> #[trigger] sums@[j] == before[j],
                    forall|j: int|
                        0 <= j < c ==> #[trigger] sums@[j] == before[j] + buf@[j],
                decreases n_classes - c,
            {
                let s: i128 = sums[c];
                proof {
                    assert(sums@[c as int] == before[c as int]);
                    assert(-0x8000_0000 * k <= before[c as int] <= 0x8000_0000 * k);
                }
                sums.set(c, s + buf[c] as i128);
                c = c + 1;
            }
            proof {
                assert forall|j: int| 0 <= j < n_classes implies #[trigger] sums@[j] == score_total(
                    self.classifiers@,
                    lit.0@,
                    j,
                    (k + 1) as nat,
                ) && -threshold_total(self.classifiers@, (k + 1) as nat) <= sums@[j]
                    <= threshold_total(self.classifiers@, (k + 1) as nat) by {
                    assert(before[j] == score_total(self.classifiers@, lit.0@, j, k as nat));
                    assert(buf@[j] == machine_score(m, lit.0@, j));
                }
            }
            k = k + 1;
        }
        sums
    }

    /// The class predicted for a sample: the last with the largest summed score.
    pub fn predict(&self, sample: &EncodedSample) -> (r: usize)
        requires
            self.wf(),
            self.classifiers@.len() > 0,
            self.takes(sample.0@.len() as int),
        ensures
            r == self.predict_of(sample.0@),
            r < self.classifiers@[0].config.n_classes,
    {
        let sums: Vec<i128> = self.combined(sample);
        let ghost sc = combined_scores(self.classifiers@, sample.0@);
        proof {
            assert(self.classifiers@[0].wf());
        }
        let mut best: usize = 0;
        let mut c: usize = 1;
        while c < sums.len()
            invariant
                sc.len() == sums@.len(),
                forall|j: int| 0 <= j < sums@.len() ==> #[trigger] sums@[j] == sc[j],
                1 <= c <= sums@.len(),
                best < c,
                forall|j: int| 0 <= j < c ==> #[trigger] sc[j] <= sc[best as int],
                forall|j: int| best < j < c ==> #[trigger] sc[j] < sc[best as int],
            decreases sums@.len() - c,
        {
            proof {
                assert(sums@[c as int] == sc[c as int]);
                assert(sums@[best as int] == sc[best as int]);
            }
            if sums[c] >= sums[best] {
                best = c;
            }
            c = c + 1;
        }
        proof {
            assert(is_last_max(sc, best as int));
            lemma_last_max(sc, best as int);
        }
        best
    }

    /// Writes the summed score of each class for a sample.
    pub fn scores(&self, sample: &EncodedSample, out: &mut [i32])
        requires
            self.wf(),
            self.classifiers@.len() > 0,
            self.takes(sample.0@.len() as int),
            old(out)@.len() == self.classifiers@[0].config.n_classes,
            threshold_total(self.classifiers@, self.classifiers@.len()) <= i32::MAX,
        ensures
            final(out)@.len() == old(out)@.len(),
            forall|c: int|
                0 <= c < final(out)@.len() ==> #[trigger] final(out)@[c] == combined_scores(
                    self.classifiers@,
                    sample.0@,
                )[c],
    {
        let sums: Vec<i128> = self.combined(sample);
        let ghost sc = combined_scores(self.classifiers@, sample.0@);
        let ghost bound = threshold_total(self.classifiers@, self.classifiers@.len());
        let mut c: usize = 0;
        while c < sums.len()
            invariant
                c <= sums@.len(),
                out@.len() == sums@.len(),
                bound <= i32::MAX,
                forall|j: int| 0 <= j < sums@.len() ==> #[trigger] sums@[j] == sc[j],
                forall|j: int| 0 <= j < sums@.len() ==> -bound <= #[trigger] sums@[j] <= bound,
                forall|j: int| 0 <= j < c ==> #[trigger] out@[j] == sc[j],
            decreases sums@.len() - c,
        {
            proof {
                assert(sums@[c as int] == sc[c as int]);
                assert(-bound <= sums@[c as int] <= bound);
            }
            out[c] = sums[c] as i32;
            c = c + 1;
        }
    }

    /// The classes predicted for all samples of a batch.
    pub fn predict_batch(&self, batch: &EncodedBatch) -> (r: Vec<usize>)
        requires
            self.wf(),
            self.classifiers@.len() > 0,
            batch.wf(),
            self.takes(batch.words as int),
        ensures
            r@.len() == batch.n,
            forall|i: int| 0 <= i < batch.n ==> #[trigger] r@[i] == self.predictions_of(batch)[i],
            forall|i: int|
                0 <= i < batch.n ==> #[trigger] r@[i] < self.classifiers@[0].config.n_classes,
    {
        let mut r: Vec<usize> = Vec::with_capacity(batch.n);
        let mut i: usize = 0;
        while i < batch.n
            invariant
                self.wf(),
                self.classifiers@.len() > 0,
                batch.wf(),
                self.takes(batch.words as int),
                i <= batch.n,
                r@.len() == i,
                forall|k: int| 0 <= k < i ==> #[trigger] r@[k] == self.predictions_of(batch)[k],
                forall|k: int|
                    0 <= k < i ==> #[trigger] r@[k] < self.classifiers@[0].config.n_classes,
            decreases batch.n - i,
        {
            let sample: EncodedSample = EncodedSample(slice_to_vec(batch.row(i)));
            r.push(self.predict(&sample));
            i = i + 1;
        }
        r
    }

    /// Trains every machine for one epoch, each in an order of its own.
    pub fn fit_epoch(&mut self, batch: &EncodedBatch, ys: &[usize])
        requires
            old(self).wf(),
            old(self).classifiers@.len() > 0,
            batch.wf(),
            old(self).takes(batch.words as int),
            ys@.len() == batch.n,
            forall|i: int|
                0 <= i < ys@.len() ==> #[trigger] ys@[i] < old(self).classifiers@[0].config.n_classes,
        ensures
            final(self).wf(),
            final(self).classifiers@.len() == old(self).classifiers@.len(),
            forall|k: int|
                0 <= k < old(self).classifiers@.len() ==> {
                    let was = old(self).classifiers@[k];
                    let is = #[trigger] final(self).classifiers@[k];
                    is.config == was.config && is.hint_shown == was.hint_shown && is@ == was.config.fit_epoch_of(
                        was@,
                        was.config.batch_bits(batch),
                        ys@,
                    )
                },
    {
        let ghost before = self.classifiers@;
        let n: usize = self.classifiers.len();
        let mut k: usize = 0;
        while k < n
            invariant
                k <= n,
                n == before.len(),
                n == self.classifiers@.len(),
                n > 0,
                batch.wf(),
                ys@.len() == batch.n,
                forall|i: int| 0 <= i < n ==> (#[trigger] before[i]).wf(),
                forall|i: int|
                    0 <= i < n ==> (#[trigger] before[i]).config.n_classes == before[0].config.n_classes,
                forall|i: int|
                    0 <= i < n ==> (#[trigger] before[i]).config.train.geom.words == batch.words,
                forall|i: int|
                    0 <= i < ys@.len() ==> #[trigger] ys@[i] < before[0].config.n_classes,
                forall|i: int| k <= i < n ==> #[trigger] self.classifiers@[i] == before[i],
                forall|i: int|
                    0 <= i < k ==> {
                        let is = #[trigger] self.classifiers@[i];
                        is.wf() && is.config == before[i].config && is.hint_shown == before[i].hint_shown
                            && is@ == before[i].config.fit_epoch_of(
                            before[i]@,
                            before[i].config.batch_bits(batch),
                            ys@,
                        )
                    },
            decreases n - k,
        {
            proof {
                assert(before[k as int].wf());
                assert(before[k as int].config.train.geom.words == batch.words);
            }
            let m: &mut TsetlinMachine = &mut self.classifiers[k];
            m.fit_epoch(batch, ys);
            k = k + 1;
        }
        proof {
            assert forall|i: int| 0 <= i < n implies (#[trigger] self.classifiers@[i]).wf()
                && self.classifiers@[i].config.n_classes == self.classifiers@[0].config.n_classes by {
                assert(self.classifiers@[0].config == before[0].config);
                assert(before[i].config.n_classes == before[0].config.n_classes);
            }
        }
    }

    /// Trains every machine for one epoch when `threads` threads are available, each in an order of
    /// its own: exactly, unless a machine asks for approximate training and it pays off.
    pub fn fit_epoch_threads(&mut self, batch: &EncodedBatch, ys: &[usize], threads: usize)
        requires
            old(self).wf(),
            old(self).classifiers@.len() > 0,
            batch.wf(),
            old(self).takes(batch.words as int),
            ys@.len() == batch.n,
            forall|i: int|
                0 <= i < ys@.len() ==> #[trigger] ys@[i] < old(self).classifiers@[0].config.n_classes,
            forall|k: int|
                0 <= k < old(self).classifiers@.len() && (#[trigger] old(self).classifiers@[k]).is_data_parallel(
                    batch.n as int,
                    threads as int,
                ) ==> !old(self).classifiers@[k].config.train.rules.type_iii,
        ensures
            final(self).wf(),
            final(self).classifiers@.len() == old(self).classifiers@.len(),
            forall|k: int|
                0 <= k < old(self).classifiers@.len() ==> {
                    let was = old(self).classifiers@[k];
                    let is = #[trigger] final(self).classifiers@[k];
                    is.config == was.config && is.hint_shown == was.hint_shown && is@
                        == was.threads_epoch_of(was.config.batch_bits(batch), ys@, threads as int)
                },
    {
        let ghost before = self.classifiers@;
        let n: usize = self.classifiers.len();
        let mut k: usize = 0;
        while k < n
            invariant
                k <= n,
                n == before.len(),
                n == self.classifiers@.len(),
                n > 0,
                batch.wf(),
                ys@.len() == batch.n,
                forall|i: int| 0 <= i < n ==> (#[trigger] before[i]).wf(),
                forall|i: int|
                    0 <= i < n ==> (#[trigger] before[i]).config.n_classes == before[0].config.n_classes,
                forall|i: int|
                    0 <= i < n ==> (#[trigger] before[i]).config.train.geom.words == batch.words,
                forall|i: int|
                    0 <= i < ys@.len() ==> #[trigger] ys@[i] < before[0].config.n_classes,
                forall|i: int| k <= i < n ==> #[trigger] self.classifiers@[i] == before[i],
                forall|i: int|
                    0 <= i < k ==> {
                        let is = #[trigger] self.classifiers@[i];
                        is.wf() && is.config == before[i].config && is.hint_shown == before[i].hint_shown
                            && is@ == before[i].threads_epoch_of(
                            before[i].config.batch_bits(batch),
                            ys@,
                            threads as int,
                        )
                    },
                forall|i: int|
                    0 <= i < n && (#[trigger] before[i]).is_data_parallel(batch.n as int, threads as int)
                        ==> !before[i].config.train.rules.type_iii,
            decreases n - k,
        {
            proof {
                assert(before[k as int].wf());
                assert(before[k as int].config.train.geom.words == batch.words);
            }
            let m: &mut TsetlinMachine = &mut self.classifiers[k];
            m.fit_epoch_threads(batch, ys, threads);
            k = k + 1;
        }
        proof {
            assert forall|i: int| 0 <= i < n implies (#[trigger] self.classifiers@[i]).wf()
                && self.classifiers@[i].config.n_classes == self.classifiers@[0].config.n_classes by {
                assert(self.classifiers@[0].config == before[0].config);
                assert(before[i].config.n_classes == before[0].config.n_classes);
            }
        }
    }

    /// How many samples of a batch are predicted correctly, and how many labels there are.
    pub fn accuracy(&self, batch: &EncodedBatch, ys: &[usize]) -> (r: (usize, usize))
        requires
            self.wf(),
            self.classifiers@.len() > 0,
            batch.wf(),
            self.takes(batch.words as int),
        ensures
            r.0 == count_correct(
                self.predictions_of(batch),
                ys@,
                if ys@.len() < batch.n {
                    ys@.len()
                } else {
                    batch.n as nat
                },
            ),
            r.1 == ys@.len(),
    {
        let preds: Vec<usize> = self.predict_batch(batch);
        let ghost ps = self.predictions_of(batch);
        let n: usize = if ys.len() < batch.n {
            ys.len()
        } else {
            batch.n
        };
        let mut correct: usize = 0;
        let mut i: usize = 0;
        while i < n
            invariant
                i <= n,
                n <= ys@.len(),
                n <= batch.n,
                preds@.len() == batch.n,
                forall|k: int| 0 <= k < batch.n ==> #[trigger] preds@[k] == ps[k],
                correct <= i,
                correct == count_correct(ps, ys@, i as nat),
            decreases n - i,
        {
            if preds[i] == ys[i] {
                correct = correct + 1;
            }
            i = i + 1;
        }
        (correct, ys.len())
    }
}

impl Default for TMCompositeClassifier {
    fn default() -> (r: Self)
        ensures
            r.wf(),
            r.classifiers@.len() == 0,
    {
        Self::new()
    }
}

} // verus!
