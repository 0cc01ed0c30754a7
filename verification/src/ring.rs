use vstd::prelude::*;

verus! {

/// A bounded window over a stream of samples: the last `capacity` samples pushed,
/// and the stream position of the first of them.
pub struct RingBuffer<T> {
    data: Vec<T>,
    start_pos: u64,
    capacity: usize,
}

/// The abstract window.
pub struct WindowModel<T> {
    pub data: Seq<T>,
    pub start_pos: nat,
    pub capacity: nat,
}

impl<T> View for RingBuffer<T> {
    type V = WindowModel<T>;

    closed spec fn view(&self) -> WindowModel<T> {
        WindowModel { data: self.data@, start_pos: self.start_pos as nat, capacity: self.capacity as nat }
    }
}

/// The window after `samples` arrive: the oldest samples beyond the capacity
/// fall out and the start position moves past them.
pub open spec fn pushed<T>(w: WindowModel<T>, samples: Seq<T>) -> WindowModel<T> {
    let all = w.data + samples;
    if all.len() > w.capacity {
        WindowModel {
            data: all.skip(all.len() - w.capacity),
            start_pos: w.start_pos + (all.len() - w.capacity) as nat,
            capacity: w.capacity,
        }
    } else {
        WindowModel { data: all, ..w }
    }
}

/// The samples of the window from stream position `from` on, at most `len` of
/// them; positions that fell out of the window are skipped.
pub open spec fn range_of<T>(w: WindowModel<T>, from: nat, len: nat) -> Seq<T> {
    let end = w.start_pos + w.data.len();
    if from >= end {
        seq![]
    } else {
        let offset: int = if from < w.start_pos { 0 } else { from - w.start_pos };
        let available = w.data.len() - offset;
        let count = if len < available { len as int } else { available };
        w.data.subrange(offset, offset + count)
    }
}

/// The window holds the last samples of `stream`, no more than its capacity.
pub open spec fn represents<T>(w: WindowModel<T>, stream: Seq<T>) -> bool {
    &&& w.start_pos + w.data.len() == stream.len()
    &&& w.data == stream.skip(w.start_pos as int)
    &&& w.data.len() <= w.capacity
}

impl<T: Copy> RingBuffer<T> {
    /// The window holds no more than its capacity, and its end is a `u64` position.
    pub open spec fn wf(&self) -> bool {
        &&& self@.data.len() <= self@.capacity
        &&& self@.start_pos + self@.data.len() <= u64::MAX
    }

    /// An empty window at the start of the stream.
    pub fn new(capacity: usize) -> (r: Self)
        ensures
            r.wf(),
            r@ == (WindowModel::<T> { data: seq![], start_pos: 0, capacity: capacity as nat }),
    {
        RingBuffer { data: Vec::new(), start_pos: 0, capacity }
    }

    /// Adds samples at the end of the window, dropping the oldest beyond the capacity.
    pub fn push_samples(&mut self, samples: &[T])
        requires
            old(self).wf(),
            old(self)@.start_pos + old(self)@.data.len() + samples@.len() <= u64::MAX,
            old(self)@.data.len() + samples@.len() <= usize::MAX,
        ensures
            final(self).wf(),
            final(self)@ == pushed(old(self)@, samples@),
    {
        let ghost all = self.data@ + samples@;
        let m = samples.len();
        for i in 0..m
            invariant
                m == samples@.len(),
                self.data@ == old(self).data@ + samples@.take(i as int),
                self.capacity == old(self).capacity,
                self.start_pos == old(self).start_pos,
                all == old(self).data@ + samples@,
                old(self).data@.len() + m <= usize::MAX,
        {
            self.data.push(samples[i]);
            proof {
                assert(samples@.take(i + 1) =~= samples@.take(i as int).push(samples@[i as int]));
            }
        }
        proof {
            assert(samples@.take(m as int) =~= samples@);
        }
        let len = self.data.len();
        if len > self.capacity {
            let excess = len - self.capacity;
            let mut kept: Vec<T> = Vec::new();
            let mut j = excess;
            while j < len
                invariant
                    excess <= j <= len,
                    len == self.data@.len(),
                    kept@ == self.data@.subrange(excess as int, j as int),
                decreases len - j,
            {
                kept.push(self.data[j]);
                proof {
                    assert(self.data@.subrange(excess as int, j + 1) =~= self.data@.subrange(
                        excess as int,
                        j as int,
                    ).push(self.data@[j as int]));
                }
                j = j + 1;
            }
            self.data = kept;
            self.start_pos = self.start_pos + excess as u64;
            proof {
                assert(self.data@ =~= all.skip(all.len() - self.capacity));
            }
        }
    }

    /// At most `len` samples from stream position `from_pos` on; positions that
    /// fell out of the window are skipped, positions not reached yet give nothing.
    pub fn read_range(&self, from_pos: u64, len: usize) -> (r: Vec<T>)
        requires
            self.wf(),
        ensures
            r@ == range_of(self@, from_pos as nat, len as nat),
    {
        let end = self.start_pos + self.data.len() as u64;
        if from_pos >= end {
            return Vec::new();
        }
        let offset: usize = if from_pos < self.start_pos {
            0
        } else {
            (from_pos - self.start_pos) as usize
        };
        let available = self.data.len() - offset;
        let count = if len < available { len } else { available };
        let mut r: Vec<T> = Vec::new();
        let mut k: usize = 0;
        let dl = self.data.len();
        while k < count
            invariant
                k <= count,
                dl == self.data@.len(),
                offset + count <= self.data@.len(),
                r@ == self.data@.subrange(offset as int, offset + k),
            decreases count - k,
        {
            r.push(self.data[offset + k]);
            proof {
                assert(self.data@.subrange(offset as int, offset + k + 1) =~= self.data@.subrange(
                    offset as int,
                    offset + k,
                ).push(self.data@[offset + k]));
            }
            k = k + 1;
        }
        r
    }
}

/// A window that holds the end of a stream still does after more samples of
/// the stream arrive.
pub proof fn law_push_keeps_stream<T>(w: WindowModel<T>, stream: Seq<T>, samples: Seq<T>)
    requires
        represents(w, stream),
    ensures
        represents(pushed(w, samples), stream + samples),
{
    let all = w.data + samples;
    let s = stream + samples;
    assert(all =~= s.skip(w.start_pos as int));
    if all.len() > w.capacity {
        let k = all.len() - w.capacity;
        assert(all.skip(k) =~= s.skip(w.start_pos + k));
    }
}

/// Reading from a window that holds the end of a stream gives the samples of the
/// stream at the positions read, past those that fell out of the window.
pub proof fn law_read_is_stream<T>(w: WindowModel<T>, stream: Seq<T>, from: nat, len: nat)
    requires
        represents(w, stream),
        from < stream.len(),
    ensures
        ({
            let first = if from < w.start_pos { w.start_pos } else { from };
            let last = if first + len < stream.len() { first + len } else { stream.len() as nat };
            range_of(w, from, len) == stream.subrange(first as int, last as int)
        }),
{
    let first = if from < w.start_pos { w.start_pos } else { from };
    let last = if first + len < stream.len() { first + len } else { stream.len() as nat };
    assert(range_of(w, from, len) =~= stream.subrange(first as int, last as int));
}

} // verus!
