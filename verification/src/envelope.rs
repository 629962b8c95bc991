//! The envelope of a decimated stream: the shape of its loudness.
//!
//! The envelope at a sample is the mean of the magnitudes of that sample and
//! the three before it, less the running mean of the envelope itself, so that
//! it lies near nothing between the beats. Where that stays below twice the
//! running root-mean-square level of the magnitudes, the envelope is cut to
//! nothing: only marked peaks are left.

use vstd::prelude::*;

verus! {

/// What the envelope follower remembers of the stream.
pub struct EnvState {
    /// The magnitude three samples back.
    pub h1: int,
    /// The magnitude two samples back.
    pub h2: int,
    /// The magnitude of the last sample.
    pub h3: int,
    /// Sixty-four times the running mean of the smoothed magnitudes.
    pub bias_acc: int,
    /// Two hundred and fifty-six times the running mean of the squared
    /// magnitudes.
    pub ms_acc: int,
}

/// The follower before the first sample of a stream.
pub open spec fn env_start() -> EnvState {
    EnvState { h1: 0, h2: 0, h3: 0, bias_acc: 0, ms_acc: 0 }
}

/// The magnitude of a sample, cut off at the largest positive sample.
pub open spec fn magnitude(x: i16) -> int {
    if x < -32767 {
        32767
    } else if x < 0 {
        -x
    } else {
        x as int
    }
}

/// The mean of the magnitude `v` and the three before it, rounded down.
pub open spec fn smooth_of(st: EnvState, v: int) -> int {
    (st.h1 + st.h2 + st.h3 + v) / 4
}

/// The follower after the sample `x`. Each running mean gives up one part in
/// sixty-four, or in two hundred and fifty-six, and takes the new value in.
pub open spec fn env_next(st: EnvState, x: i16) -> EnvState {
    let v = magnitude(x);
    EnvState {
        h1: st.h2,
        h2: st.h3,
        h3: v,
        bias_acc: st.bias_acc - st.bias_acc / 64 + smooth_of(st, v),
        ms_acc: st.ms_acc - st.ms_acc / 256 + v * v,
    }
}

/// The envelope at the sample `x`.
pub open spec fn env_value(st: EnvState, x: i16) -> int {
    let next = env_next(st, x);
    let centered = smooth_of(st, magnitude(x)) - next.bias_acc / 64;
    if centered > 0 && centered * centered >= 4 * (next.ms_acc / 256) {
        centered
    } else {
        0
    }
}

/// What holds of a follower: the magnitudes are magnitudes and the running
/// means lie in their range.
pub open spec fn env_ok(st: EnvState) -> bool {
    &&& 0 <= st.h1 <= 32767
    &&& 0 <= st.h2 <= 32767
    &&& 0 <= st.h3 <= 32767
    &&& 0 <= st.bias_acc <= 64 * 32767
    &&& 0 <= st.ms_acc <= 256 * 1073676289
}

/// The follower after the first `n` samples of `xs`.
pub open spec fn env_after(st: EnvState, xs: Seq<i16>, n: nat) -> EnvState
    decreases n,
{
    if n == 0 {
        st
    } else {
        env_next(env_after(st, xs, (n - 1) as nat), xs[n - 1])
    }
}

/// The envelope of the first `n` samples of `xs`.
pub open spec fn enveloped(st: EnvState, xs: Seq<i16>, n: nat) -> Seq<i16>
    decreases n,
{
    if n == 0 {
        Seq::empty()
    } else {
        enveloped(st, xs, (n - 1) as nat).push(
            env_value(env_after(st, xs, (n - 1) as nat), xs[n - 1]) as i16,
        )
    }
}

/// A sample keeps the follower in order, and the envelope at the sample is
/// no sample below nothing and none above the largest magnitude.
pub proof fn lemma_env_next(st: EnvState, x: i16)
    requires
        env_ok(st),
    ensures
        env_ok(env_next(st, x)),
        0 <= magnitude(x) <= 32767,
        0 <= smooth_of(st, magnitude(x)) <= 32767,
        0 <= env_value(st, x) <= 32767,
        0 <= magnitude(x) * magnitude(x) <= 1073676289,
{
    let v = magnitude(x);
    assert(0 <= v * v <= 32767 * 32767) by (nonlinear_arith)
        requires
            0 <= v <= 32767,
    ;
}

/// The envelope has as many samples as the stream.
pub proof fn lemma_enveloped_len(st: EnvState, xs: Seq<i16>, n: nat)
    requires
        env_ok(st),
    ensures
        enveloped(st, xs, n).len() == n,
        env_ok(env_after(st, xs, n)),
        forall|j: int| 0 <= j < n ==> 0 <= #[trigger] enveloped(st, xs, n)[j] <= 32767,
    decreases n,
{
    if n > 0 {
        lemma_enveloped_len(st, xs, (n - 1) as nat);
        lemma_env_next(env_after(st, xs, (n - 1) as nat), xs[n - 1]);
    }
}

/// Whether the follower has heard nothing but silence.
pub open spec fn env_silent(st: EnvState) -> bool {
    st == env_start()
}

/// The envelope of silence is nothing, and leaves the follower as it was
/// before the first sample.
pub proof fn lemma_enveloped_silence(st: EnvState, xs: Seq<i16>, n: nat)
    requires
        env_silent(st),
        forall|i: int| 0 <= i < n ==> xs[i] == 0,
    ensures
        env_silent(env_after(st, xs, n)),
        enveloped(st, xs, n).len() == n,
        forall|j: int| 0 <= j < n ==> enveloped(st, xs, n)[j] == 0,
    decreases n,
{
    if n > 0 {
        lemma_enveloped_silence(st, xs, (n - 1) as nat);
        let d = enveloped(st, xs, (n - 1) as nat);
        let s = env_after(st, xs, (n - 1) as nat);
        let x = xs[n - 1];
        assert(x == 0);
        assert(magnitude(x) == 0);
        assert(smooth_of(s, 0) == 0);
        assert(magnitude(x) * magnitude(x) == 0) by (nonlinear_arith)
            requires
                magnitude(x) == 0,
        ;
        assert(env_next(s, x) == env_start());
        assert(env_value(s, x) == 0);
        assert forall|j: int| 0 <= j < n implies enveloped(st, xs, n)[j] == 0 by {
            if j < n - 1 {
                assert(d[j] == 0);
            }
        }
    }
}

/// An envelope follower.
#[derive(Debug)]
pub struct EnvelopeFollower {
    h1: i32,
    h2: i32,
    h3: i32,
    bias_acc: u64,
    ms_acc: u64,
}

impl EnvelopeFollower {
    /// What the follower remembers of the stream.
    pub closed spec fn state(&self) -> EnvState {
        EnvState {
            h1: self.h1 as int,
            h2: self.h2 as int,
            h3: self.h3 as int,
            bias_acc: self.bias_acc as int,
            ms_acc: self.ms_acc as int,
        }
    }

    /// The follower is in order.
    pub open spec fn wf(&self) -> bool {
        env_ok(self.state())
    }

    /// A follower before the first sample of a stream.
    pub fn new() -> (r: EnvelopeFollower)
        ensures
            r.wf(),
            r.state() == env_start(),
    {
        EnvelopeFollower { h1: 0, h2: 0, h3: 0, bias_acc: 0, ms_acc: 0 }
    }

    /// Forgets the stream.
    pub fn clear(&mut self)
        requires
            old(self).wf(),
        ensures
            final(self).wf(),
            final(self).state() == env_start(),
    {
        self.h1 = 0;
        self.h2 = 0;
        self.h3 = 0;
        self.bias_acc = 0;
        self.ms_acc = 0;
    }

    /// Takes in one sample and returns the envelope at it.
    pub fn follow(&mut self, x: i16) -> (e: i16)
        requires
            old(self).wf(),
        ensures
            final(self).wf(),
            final(self).state() == env_next(old(self).state(), x),
            e == env_value(old(self).state(), x),
            0 <= e,
    {
        proof {
            lemma_env_next(self.state(), x);
        }
        let v: i32 = if x < -32767 {
            32767
        } else if x < 0 {
            -(x as i32)
        } else {
            x as i32
        };
        let smooth: i32 = (self.h1 + self.h2 + self.h3 + v) / 4;
        self.h1 = self.h2;
        self.h2 = self.h3;
        self.h3 = v;
        proof {
            assert(0 <= (v as int) * (v as int) <= 1073676289) by (nonlinear_arith)
                requires
                    0 <= v <= 32767,
            ;
        }
        self.bias_acc = self.bias_acc - self.bias_acc / 64 + smooth as u64;
        self.ms_acc = self.ms_acc - self.ms_acc / 256 + (v as u64) * (v as u64);
        let bias: i32 = (self.bias_acc / 64) as i32;
        let level: u64 = self.ms_acc / 256;
        let centered: i32 = smooth - bias;
        if centered > 0 {
            proof {
                assert(0 <= (centered as int) * (centered as int) <= 1073676289)
                    by (nonlinear_arith)
                    requires
                        0 < centered <= 32767,
                ;
            }
            let sq: u64 = (centered as u64) * (centered as u64);
            if sq >= 4 * level {
                return centered as i16;
            }
        }
        0
    }

    /// Turns the samples of a decimated stream into their envelope, in
    /// place.
    pub fn calc_envelope(&mut self, samples: &mut [i16])
        requires
            old(self).wf(),
        ensures
            final(self).wf(),
            final(samples)@ == enveloped(
                old(self).state(),
                old(samples)@,
                old(samples)@.len(),
            ),
            final(self).state() == env_after(
                old(self).state(),
                old(samples)@,
                old(samples)@.len(),
            ),
    {
        let ghost st = self.state();
        let ghost xs = samples@;
        let n: usize = samples.len();
        let mut i: usize = 0;
        while i < n
            invariant
                i <= n,
                n == xs.len(),
                samples@.len() == n,
                self.wf(),
                env_ok(st),
                self.state() == env_after(st, xs, i as nat),
                samples@ == enveloped(st, xs, i as nat) + xs.skip(i as int),
            decreases n - i,
        {
            proof {
                lemma_enveloped_len(st, xs, i as nat);
            }
            let x: i16 = samples[i];
            let e: i16 = self.follow(x);
            samples[i] = e;
            i += 1;
            proof {
                lemma_enveloped_len(st, xs, i as nat);
                assert(samples@ =~= enveloped(st, xs, i as nat) + xs.skip(i as int));
            }
        }
        proof {
            lemma_enveloped_len(st, xs, n as nat);
            assert(samples@ =~= enveloped(st, xs, n as nat));
        }
    }
}

} // verus!
