use vstd::prelude::*;

verus! {

/// Why the video writer refuses a format or a frame.
#[derive(Clone, Copy, Debug, PartialEq, Eq, Structural)]
pub enum WriterError {
    InvalidVideoFormat,
    InvalidVideoFrame,
}

/// A video format the encoder takes: positive, even sides and a positive frame rate.
pub open spec fn valid_format(width: int, height: int, fps: int) -> bool {
    width > 0 && height > 0 && fps > 0 && width % 2 == 0 && height % 2 == 0
}

/// Checks the size and frame rate of a video before anything is opened.
pub fn check_video_format(width: i32, height: i32, fps: i32) -> (r: Result<(), WriterError>)
    ensures
        r is Ok <==> valid_format(width as int, height as int, fps as int),
        r matches Err(e) ==> e == WriterError::InvalidVideoFormat,
{
    if width <= 0 || height <= 0 || fps <= 0 || width % 2 != 0 || height % 2 != 0 {
        Err(WriterError::InvalidVideoFormat)
    } else {
        Ok(())
    }
}

/// An RGBA frame of a `width` x `height` video: rows of at least `4 * width`
/// bytes, `stride` apart, and the buffer holds every row.
pub open spec fn valid_frame(stride: int, data_len: int, width: int, height: int) -> bool {
    stride >= width * 4 && data_len >= stride * height
}

/// Checks that an RGBA buffer holds a whole frame of the video.
pub fn check_rgba_frame(stride: i32, data_len: usize, width: i32, height: i32) -> (r: Result<(), WriterError>)
    requires
        width > 0,
        height > 0,
        width * 4 <= i32::MAX,
        stride >= width * 4 ==> stride * height <= usize::MAX,
    ensures
        r is Ok <==> valid_frame(stride as int, data_len as int, width as int, height as int),
        r matches Err(e) ==> e == WriterError::InvalidVideoFrame,
{
    if stride < width * 4 || data_len < stride as usize * height as usize {
        Err(WriterError::InvalidVideoFrame)
    } else {
        Ok(())
    }
}

/// The whole frames of `fs` samples that `s` fills, in order.
pub open spec fn frames_of<T>(s: Seq<T>, fs: nat) -> Seq<Seq<T>>
    decreases s.len(),
{
    if fs == 0 || s.len() < fs {
        seq![]
    } else {
        seq![s.take(fs as int)] + frames_of(s.skip(fs as int), fs)
    }
}

/// The samples of `s` after its whole frames of `fs`.
pub open spec fn rest_of<T>(s: Seq<T>, fs: nat) -> Seq<T>
    decreases s.len(),
{
    if fs == 0 || s.len() < fs {
        s
    } else {
        rest_of(s.skip(fs as int), fs)
    }
}

/// Frames laid end to end.
pub open spec fn flatten<T>(fs: Seq<Seq<T>>) -> Seq<T>
    decreases fs.len(),
{
    if fs.len() == 0 {
        seq![]
    } else {
        fs[0] + flatten(fs.drop_first())
    }
}

pub open spec fn vecs_view<T>(v: Seq<Vec<T>>) -> Seq<Seq<T>> {
    v.map_values(|x: Vec<T>| x@)
}

/// Cuts a stream of audio samples into the fixed-size frames the encoder takes,
/// keeping what does not fill a frame yet, and numbers the frames by the
/// position of their first sample.
pub struct AudioFramer<T> {
    pending: Vec<T>,
    frame_size: usize,
    pts: i64,
}

pub struct FramerModel<T> {
    pub pending: Seq<T>,
    pub frame_size: nat,
    pub pts: int,
}

impl<T> View for AudioFramer<T> {
    type V = FramerModel<T>;

    closed spec fn view(&self) -> FramerModel<T> {
        FramerModel { pending: self.pending@, frame_size: self.frame_size as nat, pts: self.pts as int }
    }
}

proof fn lemma_frames_step<T>(s: Seq<T>, fs: nat, used: int)
    requires
        fs > 0,
        0 <= used,
        used + fs <= s.len(),
    ensures
        frames_of(s.skip(used), fs) == seq![s.subrange(used, used + fs)] + frames_of(
            s.skip(used + fs),
            fs,
        ),
        rest_of(s.skip(used), fs) == rest_of(s.skip(used + fs), fs),
{
    assert(s.skip(used).take(fs as int) =~= s.subrange(used, used + fs));
    assert(s.skip(used).skip(fs as int) =~= s.skip(used + fs));
}

impl<T: Copy> AudioFramer<T> {
    /// Frames have a size, fewer samples than a frame wait, and positions are not negative.
    pub open spec fn wf(&self) -> bool {
        &&& self@.frame_size > 0
        &&& self@.pending.len() < self@.frame_size
        &&& self@.pts >= 0
    }

    /// An empty framer for frames of `frame_size` samples.
    pub fn new(frame_size: usize) -> (r: Self)
        requires
            frame_size > 0,
        ensures
            r.wf(),
            r@ == (FramerModel::<T> { pending: seq![], frame_size: frame_size as nat, pts: 0 }),
    {
        AudioFramer { pending: Vec::new(), frame_size, pts: 0 }
    }

    /// The position of the next frame's first sample.
    pub fn pts(&self) -> (r: i64)
        ensures
            r == self@.pts,
    {
        self.pts
    }

    /// Adds samples; gives the frames that are now full, in order, and keeps the rest.
    /// The first frame given starts at the position [`AudioFramer::pts`] had.
    pub fn write(&mut self, frames: &[T]) -> (r: Vec<Vec<T>>)
        requires
            old(self).wf(),
            old(self)@.pending.len() + frames@.len() <= usize::MAX,
            old(self)@.pts + old(self)@.pending.len() + frames@.len() <= i64::MAX,
        ensures
            final(self).wf(),
            final(self)@.frame_size == old(self)@.frame_size,
            vecs_view(r@) == frames_of(old(self)@.pending + frames@, old(self)@.frame_size),
            final(self)@.pending == rest_of(old(self)@.pending + frames@, old(self)@.frame_size),
            final(self)@.pts == old(self)@.pts + r@.len() * old(self)@.frame_size,
    {
        let ghost all = self.pending@ + frames@;
        let fs = self.frame_size;
        let m = frames.len();
        for i in 0..m
            invariant
                m == frames@.len(),
                self.pending@ == old(self).pending@ + frames@.take(i as int),
                self.frame_size == fs,
                self.pts == old(self).pts,
                all == old(self).pending@ + frames@,
                old(self).pending@.len() + m <= usize::MAX,
        {
            self.pending.push(frames[i]);
            proof {
                assert(frames@.take(i + 1) =~= frames@.take(i as int).push(frames@[i as int]));
            }
        }
        proof {
            assert(frames@.take(m as int) =~= frames@);
            assert(all.skip(0) =~= all);
        }
        let n = self.pending.len();
        let mut out: Vec<Vec<T>> = Vec::new();
        let mut used: usize = 0;
        let ghost p0 = self.pts as int;
        assert(out@.len() * fs == 0) by (nonlinear_arith)
            requires
                out@.len() == 0,
        ;
        while n - used >= fs
            invariant
                fs > 0,
                fs == self.frame_size,
                n == self.pending@.len(),
                self.pending@ == all,
                used <= n,
                self.pts == p0 + used,
                p0 >= 0,
                used == out@.len() * fs,
                p0 + n <= i64::MAX,
                frames_of(all, fs as nat) == vecs_view(out@) + frames_of(all.skip(used as int), fs as nat),
                rest_of(all, fs as nat) == rest_of(all.skip(used as int), fs as nat),
            decreases n - used,
        {
            let mut chunk: Vec<T> = Vec::new();
            let mut k: usize = 0;
            while k < fs
                invariant
                    k <= fs,
                    used + fs <= n,
                    n == self.pending@.len(),
                    chunk@ == self.pending@.subrange(used as int, used + k),
                    self.pts == p0 + used,
                    self.pending@ == all,
                    fs == self.frame_size,
                decreases fs - k,
            {
                chunk.push(self.pending[used + k]);
                proof {
                    assert(self.pending@.subrange(used as int, used + k + 1) =~= self.pending@.subrange(
                        used as int,
                        used + k,
                    ).push(self.pending@[used + k]));
                }
                k = k + 1;
            }
            proof {
                lemma_frames_step(all, fs as nat, used as int);
            }
            let ghost before = vecs_view(out@);
            let ghost cv = chunk@;
            out.push(chunk);
            proof {
                assert(vecs_view(out@) =~= before.push(cv));
                assert(before + (seq![cv] + frames_of(all.skip(used + fs), fs as nat)) =~= before.push(cv)
                    + frames_of(all.skip(used + fs), fs as nat));
                assert((out@.len() - 1) * fs + fs == out@.len() * fs) by (nonlinear_arith);
            }
            used = used + fs;
            self.pts = self.pts + fs as i64;
        }
        let mut rest: Vec<T> = Vec::new();
        let mut j = used;
        while j < n
            invariant
                used <= j <= n,
                n == self.pending@.len(),
                rest@ == self.pending@.subrange(used as int, j as int),
            decreases n - j,
        {
            rest.push(self.pending[j]);
            proof {
                assert(self.pending@.subrange(used as int, j + 1) =~= self.pending@.subrange(
                    used as int,
                    j as int,
                ).push(self.pending@[j as int]));
            }
            j = j + 1;
        }
        proof {
            assert(rest@ =~= all.skip(used as int));
            assert(frames_of(all.skip(used as int), fs as nat) =~= Seq::<Seq<T>>::empty());
            assert(vecs_view(out@) + Seq::<Seq<T>>::empty() =~= vecs_view(out@));
        }
        self.pending = rest;
        out
    }

    /// Ends the stream: the samples still pending, if any, padded with `pad` to a
    /// whole frame.
    pub fn finish(&mut self, pad: T) -> (r: Option<Vec<T>>)
        requires
            old(self).wf(),
            old(self)@.pts + old(self)@.frame_size <= i64::MAX,
        ensures
            final(self).wf(),
            final(self)@.pending.len() == 0,
            final(self)@.frame_size == old(self)@.frame_size,
            match r {
                Some(f) => old(self)@.pending.len() > 0 && f@ == old(self)@.pending + Seq::new(
                    (old(self)@.frame_size - old(self)@.pending.len()) as nat,
                    |i: int| pad,
                ) && final(self)@.pts == old(self)@.pts + old(self)@.frame_size,
                None => old(self)@.pending.len() == 0 && final(self)@.pts == old(self)@.pts,
            },
    {
        if self.pending.len() == 0 {
            return None;
        }
        let fs = self.frame_size;
        let mut f: Vec<T> = Vec::new();
        let n = self.pending.len();
        for i in 0..n
            invariant
                n == self.pending@.len(),
                f@ == self.pending@.take(i as int),
                self.pending@ == old(self).pending@,
                self.pts == old(self).pts,
                self.frame_size == fs,
        {
            f.push(self.pending[i]);
            proof {
                assert(self.pending@.take(i + 1) =~= self.pending@.take(i as int).push(self.pending@[i as int]));
            }
        }
        let ghost head = f@;
        let mut k = n;
        while k < fs
            invariant
                n <= k <= fs,
                f@ == head + Seq::new((k - n) as nat, |i: int| pad),
                head == self.pending@.take(n as int),
                self.pending@ == old(self).pending@,
                self.pts == old(self).pts,
                self.frame_size == fs,
            decreases fs - k,
        {
            f.push(pad);
            proof {
                assert(f@ =~= head + Seq::new((k + 1 - n) as nat, |i: int| pad));
            }
            k = k + 1;
        }
        proof {
            assert(self.pending@.take(n as int) =~= self.pending@);
        }
        self.pending = Vec::new();
        self.pts = self.pts + fs as i64;
        Some(f)
    }
}

/// Framing loses and repeats no sample: the frames given, laid end to end, then
/// the samples kept, are exactly the samples that came in.
pub proof fn law_framing_keeps_samples<T>(s: Seq<T>, fs: nat)
    requires
        fs > 0,
    ensures
        flatten(frames_of(s, fs)) + rest_of(s, fs) == s,
        rest_of(s, fs).len() < fs,
        forall|i: int| 0 <= i < frames_of(s, fs).len() ==> (#[trigger] frames_of(s, fs)[i]).len() == fs,
    decreases s.len(),
{
    if s.len() < fs {
        assert(flatten(Seq::<Seq<T>>::empty()) + s =~= s);
    } else {
        let t = s.skip(fs as int);
        law_framing_keeps_samples(t, fs);
        let fr = seq![s.take(fs as int)] + frames_of(t, fs);
        assert(fr.drop_first() =~= frames_of(t, fs));
        assert(fr[0] == s.take(fs as int));
        assert(s.take(fs as int) + (flatten(frames_of(t, fs)) + rest_of(t, fs)) =~= s);
        assert forall|i: int| 0 <= i < fr.len() implies (#[trigger] fr[i]).len() == fs by {
            if i > 0 {
                assert(fr[i] == frames_of(t, fs)[i - 1]);
            }
        }
    }
}

} // verus!
