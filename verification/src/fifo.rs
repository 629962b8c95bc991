//! A first-in-first-out queue of interleaved multi-channel samples.
//!
//! The queue holds whole frames only. A frame is one sample for each channel,
//! stored side by side: `[ch0, ch1, ..]`. Samples are appended at the tail and
//! taken from the head; nothing is ever reordered.

use vstd::prelude::*;
use vstd::slice::slice_subrange;
use crate::arith::{lemma_add_frames, lemma_frames_to_samples, lemma_take_frames, min_int};

verus! {

/// `n` samples of silence.
pub open spec fn silence(n: nat) -> Seq<i16> {
    Seq::new(n, |i: int| 0i16)
}

/// A queue of interleaved 16-bit samples.
///
/// Its view is the flat sequence of the samples it holds, oldest first.
#[derive(Debug)]
pub struct SampleFifo {
    buf: Vec<i16>,
    head: usize,
    channels: usize,
}

impl View for SampleFifo {
    type V = Seq<i16>;

    closed spec fn view(&self) -> Seq<i16> {
        self.buf@.skip(self.head as int)
    }
}

impl SampleFifo {
    /// The number of samples in one frame.
    pub closed spec fn channel_count(&self) -> nat {
        self.channels as nat
    }

    /// What holds of the storage behind the view.
    pub closed spec fn storage_ok(&self) -> bool {
        self.head <= self.buf.len()
    }

    /// The number of samples that have left the queue and whose storage the
    /// queue still keeps.
    pub closed spec fn slack(&self) -> nat {
        self.head as nat
    }

    /// The queue holds whole frames of at least one channel, and keeps less
    /// storage of samples that have left it than it holds samples.
    pub open spec fn wf(&self) -> bool {
        &&& self.storage_ok()
        &&& self.channel_count() >= 1
        &&& self@.len() % self.channel_count() == 0
        &&& (self.slack() == 0 || self.slack() < self@.len())
    }

    /// The number of frames in the queue.
    pub open spec fn frames(&self) -> nat {
        self@.len() / self.channel_count()
    }

    /// An empty queue for frames of `channels` samples; none for zero channels.
    pub fn new(channels: usize) -> (r: Option<SampleFifo>)
        ensures
            channels == 0 <==> r is None,
            r matches Some(q) ==> q.wf() && q.channel_count() == channels && q@ == Seq::<
                i16,
            >::empty(),
    {
        if channels == 0 {
            None
        } else {
            Some(SampleFifo::with_channels(channels))
        }
    }

    /// An empty queue for frames of `channels` samples, of which there is at
    /// least one.
    pub fn with_channels(channels: usize) -> (q: SampleFifo)
        requires
            channels >= 1,
        ensures
            q.wf(),
            q.channel_count() == channels,
            q@ == Seq::<i16>::empty(),
    {
        let q = SampleFifo { buf: Vec::new(), head: 0, channels };
        assert(q@ =~= Seq::<i16>::empty());
        q
    }

    /// The number of samples in one frame.
    pub fn channels(&self) -> (r: usize)
        ensures
            r == self.channel_count(),
    {
        self.channels
    }

    /// The number of frames in the queue.
    pub fn available(&self) -> (r: usize)
        requires
            self.wf(),
        ensures
            r == self.frames(),
            r * self.channel_count() == self@.len(),
    {
        let r: usize = (self.buf.len() - self.head) / self.channels;
        proof {
            lemma_take_frames(self@.len() as int, self.channels as int, r as int);
        }
        r
    }

    /// The number of samples in the queue.
    pub fn len(&self) -> (r: usize)
        requires
            self.wf(),
        ensures
            r == self@.len(),
    {
        self.buf.len() - self.head
    }

    /// Whether the queue holds no frame.
    pub fn is_empty(&self) -> (r: bool)
        requires
            self.wf(),
        ensures
            r <==> self@.len() == 0,
    {
        self.buf.len() == self.head
    }

    /// All the samples in the queue, oldest first, without removing them.
    pub fn contents(&self) -> (r: &[i16])
        requires
            self.wf(),
        ensures
            r@ == self@,
    {
        slice_subrange(self.buf.as_slice(), self.head, self.buf.len())
    }

    /// Up to `count` frames from the head, without removing them.
    pub fn peek(&self, count: usize) -> (r: &[i16])
        requires
            self.wf(),
        ensures
            r@ == self@.take(min_int(count as int, self.frames() as int) * self.channel_count()),
    {
        let avail: usize = self.available();
        let n: usize = if count < avail {
            count
        } else {
            avail
        };
        proof {
            lemma_take_frames(self@.len() as int, self.channels as int, n as int);
        }
        let end: usize = self.head + n * self.channels;
        let r = slice_subrange(self.buf.as_slice(), self.head, end);
        assert(r@ =~= self@.take(n * self.channels));
        r
    }

    /// Appends the first `n` of `samples`, which must be whole frames.
    fn append(&mut self, samples: &[i16], n: usize)
        requires
            old(self).wf(),
            n <= samples@.len(),
            (n as nat) % old(self).channel_count() == 0,
        ensures
            final(self).wf(),
            final(self).channel_count() == old(self).channel_count(),
            final(self)@ == old(self)@ + samples@.take(n as int),
    {
        let ghost before = self.buf@;
        let mut i: usize = 0;
        while i < n
            invariant
                i <= n <= samples@.len(),
                self.head == old(self).head,
                self.channels == old(self).channels,
                self.head <= before.len(),
                self.head == 0 || self.head < before.len() - self.head,
                before == old(self).buf@,
                self.buf@ == before + samples@.take(i as int),
            decreases n - i,
        {
            self.buf.push(samples[i]);
            i += 1;
            assert(self.buf@ =~= before + samples@.take(i as int));
        }
        assert(self@ =~= old(self)@ + samples@.take(n as int));
        proof {
            lemma_add_frames(old(self)@.len() as int, n as int, self.channels as int);
        }
    }

    /// Appends a block of frames at the tail.
    ///
    /// A block that is not a whole number of frames is refused, and the queue
    /// stays as it was.
    pub fn put(&mut self, samples: &[i16]) -> (ok: bool)
        requires
            old(self).wf(),
        ensures
            final(self).wf(),
            final(self).channel_count() == old(self).channel_count(),
            ok <==> samples@.len() % old(self).channel_count() == 0,
            ok ==> final(self)@ == old(self)@ + samples@,
            !ok ==> final(self)@ == old(self)@,
    {
        if samples.len() % self.channels != 0 {
            return false;
        }
        self.append(samples, samples.len());
        assert(samples@.take(samples@.len() as int) =~= samples@);
        true
    }

    /// Appends the first `frames` frames of `samples` at the tail.
    ///
    /// Where `samples` holds fewer than `frames` frames nothing is appended.
    pub fn put_frames(&mut self, samples: &[i16], frames: usize) -> (ok: bool)
        requires
            old(self).wf(),
        ensures
            final(self).wf(),
            final(self).channel_count() == old(self).channel_count(),
            ok <==> frames * old(self).channel_count() <= samples@.len(),
            ok ==> final(self)@ == old(self)@ + samples@.take(
                frames * old(self).channel_count(),
            ),
            !ok ==> final(self)@ == old(self)@,
    {
        let whole: usize = samples.len() / self.channels;
        proof {
            let len = samples@.len() as int;
            let ch = self.channels as int;
            vstd::arithmetic::div_mod::lemma_fundamental_div_mod(len, ch);
            vstd::arithmetic::div_mod::lemma_mod_bound(len, ch);
            if frames <= whole {
                assert(frames * ch <= whole * ch) by (nonlinear_arith)
                    requires
                        0 <= frames <= whole,
                        ch >= 1,
                ;
                assert(whole * ch == ch * whole) by (nonlinear_arith);
            } else {
                assert(frames * ch >= (whole + 1) * ch) by (nonlinear_arith)
                    requires
                        frames >= whole + 1,
                        ch >= 1,
                ;
                assert((whole + 1) * ch == ch * whole + ch) by (nonlinear_arith);
            }
        }
        if frames > whole {
            return false;
        }
        let n: usize = frames * self.channels;
        proof {
            lemma_frames_to_samples(frames as int, whole as int, self.channels as int);
        }
        self.append(samples, n);
        true
    }

    /// Appends `frames` frames of silence at the tail.
    pub fn put_silence(&mut self, frames: usize)
        requires
            old(self).wf(),
        ensures
            final(self).wf(),
            final(self).channel_count() == old(self).channel_count(),
            final(self)@ == old(self)@ + silence((frames * old(self).channel_count()) as nat),
    {
        let ghost before = self.buf@;
        let mut f: usize = 0;
        proof {
            assert(0 * self.channels == 0) by (nonlinear_arith);
            assert(self.buf@ =~= before + silence(0));
        }
        while f < frames
            invariant
                f <= frames,
                self.head == old(self).head,
                self.channels == old(self).channels,
                self.channels >= 1,
                self.head <= before.len(),
                self.head == 0 || self.head < before.len() - self.head,
                before == old(self).buf@,
                self.buf@ == before + silence((f * self.channels) as nat),
            decreases frames - f,
        {
            let ghost row = self.buf@;
            let mut c: usize = 0;
            while c < self.channels
                invariant
                    c <= self.channels,
                    self.head == old(self).head,
                    self.channels == old(self).channels,
                    self.buf@ == row + silence(c as nat),
                decreases self.channels - c,
            {
                self.buf.push(0);
                c += 1;
                assert(self.buf@ =~= row + silence(c as nat));
            }
            f += 1;
            proof {
                assert(f * self.channels == (f - 1) * self.channels + self.channels)
                    by (nonlinear_arith);
                assert(0 <= (f - 1) * self.channels) by (nonlinear_arith)
                    requires
                        f >= 1,
                        self.channels >= 1,
                ;
                assert(self.buf@ =~= before + silence((f * self.channels) as nat));
            }
        }
        proof {
            let n = frames * self.channels;
            assert(0 <= n) by (nonlinear_arith)
                requires
                    n == frames * self.channels,
                    frames >= 0,
                    self.channels >= 1,
            ;
            assert(self@ =~= old(self)@ + silence(n as nat));
            lemma_frames_to_samples(frames as int, frames as int, self.channels as int);
            lemma_add_frames(old(self)@.len() as int, n, self.channels as int);
        }
    }

    /// Gives back the storage of the samples that have left the queue, once
    /// there are as many of them as the queue holds samples. The samples in
    /// the queue stay as they are.
    fn compact(&mut self)
        requires
            old(self).storage_ok(),
        ensures
            final(self).storage_ok(),
            final(self).channel_count() == old(self).channel_count(),
            final(self)@ == old(self)@,
            final(self).slack() == if old(self).slack() >= old(self)@.len() {
                0
            } else {
                old(self).slack()
            },
    {
        if self.head > 0 && self.head >= self.buf.len() - self.head {
            let tail = self.buf.split_off(self.head);
            self.buf = tail;
            self.head = 0;
            assert(self@ =~= old(self)@);
        }
    }

    /// Removes up to `count` frames from the head without copying them anywhere.
    pub fn discard(&mut self, count: usize) -> (n: usize)
        requires
            old(self).wf(),
        ensures
            final(self).wf(),
            final(self).channel_count() == old(self).channel_count(),
            n == min_int(count as int, old(self).frames() as int),
            final(self)@ == old(self)@.skip(n * old(self).channel_count()),
    {
        let avail: usize = self.available();
        let n: usize = if count < avail {
            count
        } else {
            avail
        };
        proof {
            lemma_take_frames(self@.len() as int, self.channels as int, n as int);
        }
        self.head = self.head + n * self.channels;
        assert(self@ =~= old(self)@.skip(n * self.channels));
        self.compact();
        n
    }

    /// Copies up to `count` frames from the head into `dst` and removes them.
    ///
    /// Fewer frames are handed out where the queue holds fewer or `dst` has room
    /// for fewer. The samples of `dst` behind the copied frames stay untouched.
    pub fn receive(&mut self, dst: &mut [i16], count: usize) -> (n: usize)
        requires
            old(self).wf(),
        ensures
            final(self).wf(),
            final(self).channel_count() == old(self).channel_count(),
            n == min_int(
                min_int(count as int, old(self).frames() as int),
                (old(dst)@.len() / old(self).channel_count()) as int,
            ),
            n * old(self).channel_count() <= old(dst)@.len(),
            final(dst)@ == old(self)@.take(n * old(self).channel_count()) + old(dst)@.skip(
                n * old(self).channel_count(),
            ),
            final(self)@ == old(self)@.skip(n * old(self).channel_count()),
    {
        let avail: usize = self.available();
        let room: usize = dst.len() / self.channels;
        let mut n: usize = if count < avail {
            count
        } else {
            avail
        };
        if room < n {
            n = room;
        }
        proof {
            lemma_take_frames(self@.len() as int, self.channels as int, n as int);
            let len = dst@.len() as int;
            let ch = self.channels as int;
            vstd::arithmetic::div_mod::lemma_fundamental_div_mod(len, ch);
            vstd::arithmetic::div_mod::lemma_mod_bound(len, ch);
            assert(n * ch <= room * ch) by (nonlinear_arith)
                requires
                    0 <= n <= room,
                    ch >= 1,
            ;
            assert(room * ch == ch * room) by (nonlinear_arith);
        }
        let total: usize = n * self.channels;
        let mut i: usize = 0;
        while i < total
            invariant
                i <= total,
                total <= dst@.len(),
                dst@.len() == old(dst)@.len(),
                self.head + total <= self.buf.len(),
                self.head == old(self).head,
                self.buf == old(self).buf,
                dst@ == old(self)@.take(i as int) + old(dst)@.skip(i as int),
            decreases total - i,
        {
            dst[i] = self.buf[self.head + i];
            i += 1;
            assert(dst@ =~= old(self)@.take(i as int) + old(dst)@.skip(i as int));
        }
        self.head = self.head + total;
        assert(self@ =~= old(self)@.skip(total as int));
        self.compact();
        n
    }

    /// Removes every frame. The channel count stays.
    pub fn clear(&mut self)
        requires
            old(self).wf(),
        ensures
            final(self).wf(),
            final(self).channel_count() == old(self).channel_count(),
            final(self)@ == Seq::<i16>::empty(),
    {
        self.buf.clear();
        self.head = 0;
        assert(self@ =~= Seq::<i16>::empty());
    }
}

} // verus!
