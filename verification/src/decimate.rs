//! Bringing a stream down to a low sample rate by taking the mean of each
//! block of frames.
//!
//! All channels of a frame go into the same mean. That is a poor filter, but
//! the beat of a piece lies far below what it lets through.

use vstd::prelude::*;

verus! {

/// The largest number of frames in a block.
pub const MAX_BLOCK: u32 = 1000000;

/// The largest channel count.
pub const MAX_BLOCK_CHANNELS: u32 = 16;

/// The sum of the first `k` samples of frame `f` of `src`.
pub open spec fn frame_sum(src: Seq<i16>, ch: int, f: int, k: nat) -> int
    decreases k,
{
    if k == 0 {
        0
    } else {
        frame_sum(src, ch, f, (k - 1) as nat) + src[f * ch + k - 1]
    }
}

/// The part of a block that has been taken in: the sum of its samples and the
/// number of its frames.
pub struct BlockState {
    pub sum: int,
    pub count: int,
}

/// The block after `n` more frames of `src`. A block that is full is sent
/// out and a new one begun.
pub open spec fn block_after(
    start: BlockState,
    by: int,
    ch: int,
    src: Seq<i16>,
    n: nat,
) -> BlockState
    decreases n,
{
    if n == 0 {
        start
    } else {
        let b = block_after(start, by, ch, src, (n - 1) as nat);
        if b.count + 1 >= by {
            BlockState { sum: 0, count: 0 }
        } else {
            BlockState { sum: b.sum + frame_sum(src, ch, n - 1, ch as nat), count: b.count + 1 }
        }
    }
}

/// The means of the blocks that `n` more frames of `src` fill, in order. A
/// mean is rounded down.
pub open spec fn decimated(start: BlockState, by: int, ch: int, src: Seq<i16>, n: nat) -> Seq<i16>
    decreases n,
{
    if n == 0 {
        Seq::empty()
    } else {
        let b = block_after(start, by, ch, src, (n - 1) as nat);
        let d = decimated(start, by, ch, src, (n - 1) as nat);
        if b.count + 1 >= by {
            d.push(((b.sum + frame_sum(src, ch, n - 1, ch as nat)) / (by * ch)) as i16)
        } else {
            d
        }
    }
}

/// What holds of a block that is being filled: it is not full, and its sum is
/// the sum of as many samples as it has taken in.
pub open spec fn block_ok(b: BlockState, by: int, ch: int) -> bool {
    &&& 0 <= b.count < by
    &&& -32768 * (b.count * ch) <= b.sum <= 32767 * (b.count * ch)
}

/// The sum of the samples of a frame lies in the range of as many samples.
pub proof fn lemma_frame_sum(src: Seq<i16>, ch: int, f: int, k: nat)
    ensures
        -32768 * k <= frame_sum(src, ch, f, k) <= 32767 * k,
    decreases k,
{
    if k > 0 {
        lemma_frame_sum(src, ch, f, (k - 1) as nat);
    }
}

/// The mean of a full block is a sample.
pub proof fn lemma_block_mean(total: int, by: int, ch: int)
    requires
        by >= 1,
        ch >= 1,
        -32768 * (by * ch) <= total <= 32767 * (by * ch),
    ensures
        -32768 <= total / (by * ch) <= 32767,
        by * ch >= 1,
{
    assert(by * ch >= 1) by (nonlinear_arith)
        requires
            by >= 1,
            ch >= 1,
    ;
    crate::overlap::lemma_floor_between(total, by * ch, -32768, 32767);
}

/// Filling a block keeps it in order, and no more blocks come out than
/// frames go in.
pub proof fn lemma_block_after(start: BlockState, by: int, ch: int, src: Seq<i16>, n: nat)
    requires
        by >= 1,
        ch >= 1,
        block_ok(start, by, ch),
    ensures
        block_ok(block_after(start, by, ch, src, n), by, ch),
        decimated(start, by, ch, src, n).len() <= n,
    decreases n,
{
    if n > 0 {
        lemma_block_after(start, by, ch, src, (n - 1) as nat);
        let b = block_after(start, by, ch, src, (n - 1) as nat);
        lemma_frame_sum(src, ch, n - 1, ch as nat);
        assert((b.count + 1) * ch == b.count * ch + ch) by (nonlinear_arith);
        assert(0 * ch == 0) by (nonlinear_arith);
    }
}

/// A block comes out for every `by` frames that go in: with `count` frames
/// waiting in the block, `n` more frames fill `(count + n) / by` blocks and
/// leave `(count + n) % by` frames waiting.
pub proof fn lemma_decimated_len(start: BlockState, by: int, ch: int, src: Seq<i16>, n: nat)
    requires
        by >= 1,
        0 <= start.count < by,
    ensures
        decimated(start, by, ch, src, n).len() == (start.count + n) / by,
        block_after(start, by, ch, src, n).count == (start.count + n) % by,
    decreases n,
{
    if n == 0 {
        vstd::arithmetic::div_mod::lemma_fundamental_div_mod_converse(
            start.count,
            by,
            0,
            start.count,
        );
    } else {
        lemma_decimated_len(start, by, ch, src, (n - 1) as nat);
        let t = start.count + n - 1;
        let q = t / by;
        let r = t % by;
        vstd::arithmetic::div_mod::lemma_fundamental_div_mod(t, by);
        vstd::arithmetic::div_mod::lemma_mod_bound(t, by);
        if r + 1 >= by {
            assert(t + 1 == (q + 1) * by + 0) by (nonlinear_arith)
                requires
                    t == by * q + r,
                    r + 1 == by,
            ;
            vstd::arithmetic::div_mod::lemma_fundamental_div_mod_converse(t + 1, by, q + 1, 0);
        } else {
            assert(t + 1 == q * by + (r + 1)) by (nonlinear_arith)
                requires
                    t == by * q + r,
            ;
            vstd::arithmetic::div_mod::lemma_fundamental_div_mod_converse(t + 1, by, q, r + 1);
        }
    }
}

/// Silence in, silence out: the blocks of a stream of zeros have the mean
/// zero, and an empty block stays empty of sound.
pub proof fn lemma_decimated_silence(start: BlockState, by: int, ch: int, src: Seq<i16>, n: nat)
    requires
        by >= 1,
        ch >= 1,
        start.sum == 0,
        forall|i: int| 0 <= i < n * ch ==> src[i] == 0,
    ensures
        block_after(start, by, ch, src, n).sum == 0,
        forall|j: int|
            0 <= j < decimated(start, by, ch, src, n).len() ==> decimated(
                start,
                by,
                ch,
                src,
                n,
            )[j] == 0,
    decreases n,
{
    if n > 0 {
        assert((n - 1) * ch + ch == n * ch) by (nonlinear_arith);
        assert(0 <= (n - 1) * ch) by (nonlinear_arith)
            requires
                n >= 1,
                ch >= 1,
        ;
        lemma_decimated_silence(start, by, ch, src, (n - 1) as nat);
        lemma_frame_zero(src, ch, n - 1, ch as nat);
        assert(by * ch >= 1) by (nonlinear_arith)
            requires
                by >= 1,
                ch >= 1,
        ;
        assert(0int / (by * ch) == 0) by {
            vstd::arithmetic::div_mod::lemma_div_basics_1(by * ch);
        }
        let b = block_after(start, by, ch, src, (n - 1) as nat);
        let d = decimated(start, by, ch, src, (n - 1) as nat);
        let total = b.sum + frame_sum(src, ch, n - 1, ch as nat);
        assert(total == 0);
        assert forall|j: int| 0 <= j < decimated(start, by, ch, src, n).len() implies decimated(
            start,
            by,
            ch,
            src,
            n,
        )[j] == 0 by {
            if j < d.len() {
                assert(d[j] == 0);
            }
        }
    }
}

/// The sum of a frame of zeros is zero.
pub proof fn lemma_frame_zero(src: Seq<i16>, ch: int, f: int, k: nat)
    requires
        forall|i: int| f * ch <= i < f * ch + k ==> src[i] == 0,
    ensures
        frame_sum(src, ch, f, k) == 0,
    decreases k,
{
    if k > 0 {
        lemma_frame_zero(src, ch, f, (k - 1) as nat);
    }
}

/// A decimator: the block that is being filled.
#[derive(Debug)]
pub struct Decimator {
    by: u32,
    channels: u32,
    sum: i64,
    count: u32,
}

impl Decimator {
    /// Frames in a block.
    pub closed spec fn block(&self) -> int {
        self.by as int
    }

    /// Samples in a frame.
    pub closed spec fn ch(&self) -> int {
        self.channels as int
    }

    /// The block that is being filled.
    pub closed spec fn state(&self) -> BlockState {
        BlockState { sum: self.sum as int, count: self.count as int }
    }

    /// The block sizes are in range and the block is in order.
    pub open spec fn wf(&self) -> bool {
        &&& 1 <= self.block() <= MAX_BLOCK
        &&& 1 <= self.ch() <= MAX_BLOCK_CHANNELS
        &&& block_ok(self.state(), self.block(), self.ch())
    }

    /// A decimator with an empty block, for blocks of `by` frames of
    /// `channels` samples; none where either is nothing or too large.
    pub fn new(by: u32, channels: u32) -> (r: Option<Decimator>)
        ensures
            r is Some <==> (1 <= by <= MAX_BLOCK && 1 <= channels <= MAX_BLOCK_CHANNELS),
            r matches Some(d) ==> d.wf() && d.block() == by && d.ch() == channels && d.state() == (
            BlockState { sum: 0, count: 0 }),
    {
        if 1 <= by && by <= MAX_BLOCK && 1 <= channels && channels <= MAX_BLOCK_CHANNELS {
            Some(Decimator::with_block(by, channels))
        } else {
            None
        }
    }

    /// A decimator with an empty block, for blocks of `by` frames of
    /// `channels` samples, both in range.
    pub fn with_block(by: u32, channels: u32) -> (d: Decimator)
        requires
            1 <= by <= MAX_BLOCK,
            1 <= channels <= MAX_BLOCK_CHANNELS,
        ensures
            d.wf(),
            d.block() == by,
            d.ch() == channels,
            d.state() == (BlockState { sum: 0, count: 0 }),
    {
        let d = Decimator { by, channels, sum: 0, count: 0 };
        assert(0 * (channels as int) == 0) by (nonlinear_arith);
        d
    }

    /// Empties the block.
    pub fn clear(&mut self)
        requires
            old(self).wf(),
        ensures
            final(self).wf(),
            final(self).block() == old(self).block(),
            final(self).ch() == old(self).ch(),
            final(self).state() == (BlockState { sum: 0, count: 0 }),
    {
        self.sum = 0;
        self.count = 0;
        assert(0 * (self.channels as int) == 0) by (nonlinear_arith);
    }

    /// Takes in the first `frames` frames of `src` and appends the mean of
    /// each block that they fill to `dest`. Returns the number of means
    /// appended.
    ///
    /// Where `src` holds fewer frames, the frames that it holds are taken in.
    pub fn decimate(&mut self, dest: &mut Vec<i16>, src: &[i16], frames: usize) -> (n: usize)
        requires
            old(self).wf(),
        ensures
            final(self).wf(),
            final(self).block() == old(self).block(),
            final(self).ch() == old(self).ch(),
            final(dest)@ == old(dest)@ + decimated(
                old(self).state(),
                old(self).block(),
                old(self).ch(),
                src@,
                min_frames(frames as int, src@.len() as int, old(self).ch()) as nat,
            ),
            n == final(dest)@.len() - old(dest)@.len(),
            final(self).state() == block_after(
                old(self).state(),
                old(self).block(),
                old(self).ch(),
                src@,
                min_frames(frames as int, src@.len() as int, old(self).ch()) as nat,
            ),
    {
        let ch: usize = self.channels as usize;
        let whole: usize = src.len() / ch;
        let take: usize = if frames < whole {
            frames
        } else {
            whole
        };
        let ghost start = self.state();
        let ghost by = self.by as int;
        let ghost c = self.channels as int;
        proof {
            vstd::arithmetic::div_mod::lemma_fundamental_div_mod(src@.len() as int, c);
            vstd::arithmetic::div_mod::lemma_mod_bound(src@.len() as int, c);
            assert(take * c <= whole * c) by (nonlinear_arith)
                requires
                    0 <= take <= whole,
                    c >= 1,
            ;
            assert(whole * c == c * whole) by (nonlinear_arith);
        }
        let mut n: usize = 0;
        let mut f: usize = 0;
        let limit: usize = src.len();
        while f < take
            invariant
                f <= take,
                take * c <= limit,
                limit == src@.len(),
                ch == c,
                ch == self.channels,
                by == self.by,
                1 <= by <= MAX_BLOCK,
                1 <= c <= MAX_BLOCK_CHANNELS,
                self.state() == block_after(start, by, c, src@, f as nat),
                block_ok(self.state(), by, c),
                block_ok(start, by, c),
                dest@ == old(dest)@ + decimated(start, by, c, src@, f as nat),
                n == decimated(start, by, c, src@, f as nat).len(),
                n <= f,
            decreases take - f,
        {
            let mut total: i64 = self.sum;
            let mut k: usize = 0;
            proof {
                assert((f + 1) * c <= take * c) by (nonlinear_arith)
                    requires
                        f + 1 <= take,
                        c >= 1,
                ;
                assert((f + 1) * c == f * c + c) by (nonlinear_arith);
                assert(0 <= f * c) by (nonlinear_arith)
                    requires
                        0 <= f,
                        c >= 1,
                ;
                assert(0 <= self.count * c <= 1000000 * 16) by (nonlinear_arith)
                    requires
                        0 <= self.count < 1000000,
                        1 <= c <= 16,
                ;
            }
            let base: usize = f * ch;
            while k < ch
                invariant
                    k <= ch,
                    ch == c,
                    base == f * c,
                    base + ch <= limit,
                    limit == src@.len(),
                    total == self.sum + frame_sum(src@, c, f as int, k as nat),
                    -32768 * 16000000 <= self.sum <= 32767 * 16000000,
                    1 <= c <= MAX_BLOCK_CHANNELS,
                decreases ch - k,
            {
                proof {
                    lemma_frame_sum(src@, c, f as int, k as nat);
                }
                total = total + src[base + k] as i64;
                k += 1;
            }
            proof {
                lemma_frame_sum(src@, c, f as int, c as nat);
                lemma_block_after(start, by, c, src@, (f + 1) as nat);
                assert((self.count + 1) * c == self.count * c + c) by (nonlinear_arith);
            }
            if self.count + 1 >= self.by {
                let cells: i64 = (self.by as i64) * (ch as i64);
                proof {
                    assert(self.count + 1 == by);
                    lemma_block_mean(total as int, by, c);
                    assert(1 <= by * c <= 1000000 * 16) by (nonlinear_arith)
                        requires
                            1 <= by <= 1000000,
                            1 <= c <= 16,
                    ;
                }
                // Lifted above zero, so that the machine's division rounds
                // down as the definition does.
                let lifted: u64 = (total + 32768 * cells) as u64;
                let q: u64 = lifted / (cells as u64);
                proof {
                    let t = total as int;
                    let m = cells as int;
                    vstd::arithmetic::div_mod::lemma_fundamental_div_mod(t, m);
                    vstd::arithmetic::div_mod::lemma_mod_bound(t, m);
                    let x = t / m;
                    assert(t + 32768 * m == m * (x + 32768) + t % m) by (nonlinear_arith)
                        requires
                            t == m * x + t % m,
                    ;
                    vstd::arithmetic::div_mod::lemma_fundamental_div_mod_converse(
                        t + 32768 * m,
                        m,
                        x + 32768,
                        t % m,
                    );
                }
                let mean: i16 = (q as i64 - 32768) as i16;
                dest.push(mean);
                n += 1;
                self.sum = 0;
                self.count = 0;
                proof {
                    assert(0 * c == 0) by (nonlinear_arith);
                }
            } else {
                self.sum = total;
                self.count = self.count + 1;
            }
            f += 1;
            assert(dest@ =~= old(dest)@ + decimated(start, by, c, src@, f as nat));
        }
        n
    }
}

/// The number of frames that are taken in: as many as asked for, but no more
/// than `len` samples hold.
pub open spec fn min_frames(frames: int, len: int, ch: int) -> int {
    if frames < len / ch {
        frames
    } else {
        len / ch
    }
}

} // verus!
