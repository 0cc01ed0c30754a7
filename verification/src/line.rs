use vstd::prelude::*;

verus! {

/// A piece of the in-game UI that a judge line can be attached to.
#[derive(Clone, Copy, Debug, PartialEq, Eq, Structural)]
pub enum UIElement {
    Pause,
    ComboNumber,
    Combo,
    Score,
    Bar,
    Name,
    Level,
}

impl UIElement {
    /// The wire code of each element (1 to 7, in declaration order).
    pub open spec fn code(self) -> u8 {
        match self {
            UIElement::Pause => 1,
            UIElement::ComboNumber => 2,
            UIElement::Combo => 3,
            UIElement::Score => 4,
            UIElement::Bar => 5,
            UIElement::Name => 6,
            UIElement::Level => 7,
        }
    }

    /// Decodes a wire code; codes outside 1..=7 name no element.
    pub fn from_u8(val: u8) -> (r: Option<UIElement>)
        ensures
            r is Some <==> 1 <= val <= 7,
            r matches Some(e) ==> e.code() == val,
    {
        match val {
            1 => Some(UIElement::Pause),
            2 => Some(UIElement::ComboNumber),
            3 => Some(UIElement::Combo),
            4 => Some(UIElement::Score),
            5 => Some(UIElement::Bar),
            6 => Some(UIElement::Name),
            7 => Some(UIElement::Level),
            _ => None,
        }
    }
}

} // verus!

verus! {

/// The durations of the frames of an animated texture, and their sum.
pub struct GifFrames {
    frames: Vec<u128>,
    total_time: u128,
}

/// The sum of the durations.
pub open spec fn total_of(d: Seq<u128>) -> nat
    decreases d.len(),
{
    if d.len() == 0 {
        0
    } else {
        total_of(d.drop_last()) + (d.last() as nat)
    }
}

/// The frame shown `t` into the animation, counting from frame `i`: the first
/// whose span holds `t`, or the last frame when none does.
pub open spec fn frame_from(d: Seq<u128>, t: nat, i: nat) -> nat
    decreases d.len() - i,
{
    if i >= d.len() {
        (d.len() - 1) as nat
    } else if t < d[i as int] {
        i
    } else {
        frame_from(d, (t - d[i as int]) as nat, i + 1)
    }
}

impl GifFrames {
    pub closed spec fn durations(&self) -> Seq<u128> {
        self.frames@
    }

    pub closed spec fn total(&self) -> nat {
        self.total_time as nat
    }

    /// The total is the sum of the durations.
    pub open spec fn wf(&self) -> bool {
        self.total() == total_of(self.durations())
    }

    /// The animation of the given frame durations.
    pub fn new(frames: Vec<u128>) -> (r: Self)
        requires
            total_of(frames@) <= u128::MAX,
        ensures
            r.wf(),
            r.durations() == frames@,
            r.total() == total_of(frames@),
    {
        let n = frames.len();
        let mut total: u128 = 0;
        for i in 0..n
            invariant
                n == frames@.len(),
                total == total_of(frames@.take(i as int)),
                total_of(frames@) <= u128::MAX,
        {
            proof {
                assert(frames@.take(i + 1).drop_last() =~= frames@.take(i as int));
                lemma_total_prefix(frames@, i + 1);
            }
            total = total + frames[i];
        }
        proof {
            assert(frames@.take(n as int) =~= frames@);
        }
        GifFrames { frames, total_time: total }
    }

    pub fn total_time(&self) -> (r: u128)
        ensures
            r == self.total(),
    {
        self.total_time
    }

    /// The frame shown at `time`, the animation looping.
    pub fn get_time_frame(&self, time: u128) -> (r: usize)
        requires
            self.wf(),
            self.total() > 0,
        ensures
            r == frame_from(self.durations(), (time as nat) % self.total(), 0),
            r < self.durations().len(),
    {
        let mut t = time % self.total_time;
        let n = self.frames.len();
        proof {
            if n == 0 {
                assert(total_of(self.frames@) == 0);
            }
        }
        let ghost t0 = t as nat;
        let mut i: usize = 0;
        while i < n
            invariant
                i <= n,
                n == self.frames@.len(),
                n > 0,
                t0 == (time as nat) % self.total(),
                frame_from(self.frames@, t0, 0) == frame_from(self.frames@, t as nat, i as nat),
            decreases n - i,
        {
            if t < self.frames[i] {
                return i;
            }
            t = t - self.frames[i];
            i = i + 1;
        }
        n - 1
    }
}

proof fn lemma_total_prefix(d: Seq<u128>, k: int)
    requires
        0 <= k <= d.len(),
    ensures
        total_of(d.take(k)) <= total_of(d),
    decreases d.len(),
{
    if k < d.len() {
        assert(d.drop_last().take(k) =~= d.take(k));
        lemma_total_prefix(d.drop_last(), k);
    } else {
        assert(d.take(k) =~= d);
    }
}

proof fn lemma_frame_from_spans(d: Seq<u128>, t: nat, i: nat, rest: nat)
    requires
        i <= d.len(),
        total_of(d.take(i as int)) + rest == t,
        t < total_of(d),
    ensures
        ({
            let r = frame_from(d, rest, i);
            &&& i <= r < d.len()
            &&& total_of(d.take(r as int)) <= t < total_of(d.take(r + 1int))
        }),
    decreases d.len() - i,
{
    if i == d.len() {
        assert(d.take(i as int) =~= d);
    } else {
        assert(d.take(i + 1int).drop_last() =~= d.take(i as int));
        if rest >= d[i as int] {
            lemma_frame_from_spans(d, t, i + 1, (rest - d[i as int]) as nat);
        }
    }
}

/// The frame shown at a time within the animation is the one whose span holds
/// that time: the frames before it end at or before the time, and it ends after it.
pub proof fn law_frame_spans_time(d: Seq<u128>, t: nat)
    requires
        t < total_of(d),
    ensures
        ({
            let r = frame_from(d, t, 0);
            &&& r < d.len()
            &&& total_of(d.take(r as int)) <= t < total_of(d.take(r + 1int))
        }),
{
    assert(d.take(0) =~= Seq::<u128>::empty());
    lemma_frame_from_spans(d, t, 0, t);
}

/// The order in which a line updates its notes, and where each run of notes of
/// one speed begins: first among the notes above the line, then among the rest.
pub struct JudgeLineCache {
    pub update_order: Vec<u32>,
    pub above_indices: Vec<usize>,
    pub below_indices: Vec<usize>,
}

/// How many notes from the front are above the line.
pub open spec fn above_run(above: Seq<bool>) -> nat
    decreases above.len(),
{
    if above.len() == 0 || !above[0] {
        0
    } else {
        1 + above_run(above.drop_first())
    }
}

/// Whether a run of one speed begins at `i`, within `lo..hi`.
pub open spec fn run_start(speed: Seq<u64>, lo: int, hi: int, i: int) -> bool {
    lo <= i < hi && (i == lo || speed[i] != speed[i - 1])
}

/// The positions in `lo..hi` that begin a run, in order.
pub open spec fn run_starts(speed: Seq<u64>, lo: int, hi: int) -> Seq<usize>
    decreases hi - lo,
{
    if hi <= lo {
        seq![]
    } else if run_start(speed, lo, hi, hi - 1) {
        run_starts(speed, lo, hi - 1).push((hi - 1) as usize)
    } else {
        run_starts(speed, lo, hi - 1)
    }
}

impl JudgeLineCache {
    /// Rebuilds the cache for notes sorted with those above the line first.
    /// `speed` tells the notes' speeds apart: equal numbers for equal speeds.
    pub fn reset(&mut self, above: &[bool], speed: &[u64])
        requires
            above@.len() == speed@.len(),
            above@.len() <= u32::MAX,
        ensures
            final(self).update_order@ == Seq::new(above@.len(), |i: int| i as u32),
            final(self).above_indices@ == run_starts(speed@, 0, above_run(above@) as int),
            final(self).below_indices@ == run_starts(
                speed@,
                above_run(above@) as int,
                above@.len() as int,
            ),
    {
        let n = above.len();
        let mut order: Vec<u32> = Vec::new();
        for i in 0..n
            invariant
                n == above@.len(),
                n <= u32::MAX,
                order@ == Seq::new(i as nat, |k: int| k as u32),
        {
            order.push(i as u32);
            proof {
                assert(order@ =~= Seq::new((i + 1) as nat, |k: int| k as u32));
            }
        }
        let mut a: usize = 0;
        while a < n && above[a]
            invariant
                a <= n,
                n == above@.len(),
                forall|k: int| 0 <= k < a ==> above@[k],
            decreases n - a,
        {
            a = a + 1;
        }
        proof {
            lemma_above_run(above@, a as int);
        }
        self.update_order = order;
        self.above_indices = collect_run_starts(speed, 0, a);
        self.below_indices = collect_run_starts(speed, a, n);
    }
}

proof fn lemma_above_run(above: Seq<bool>, a: int)
    requires
        0 <= a <= above.len(),
        forall|k: int| 0 <= k < a ==> above[k],
        a == above.len() || !above[a],
    ensures
        above_run(above) == a,
    decreases a,
{
    if a > 0 {
        let t = above.drop_first();
        assert forall|k: int| 0 <= k < a - 1 implies t[k] by {
            assert(t[k] == above[k + 1]);
        }
        if a - 1 < t.len() {
            assert(t[a - 1] == above[a]);
        }
        lemma_above_run(t, a - 1);
    }
}

fn collect_run_starts(speed: &[u64], lo: usize, hi: usize) -> (r: Vec<usize>)
    requires
        lo <= hi <= speed@.len(),
    ensures
        r@ == run_starts(speed@, lo as int, hi as int),
{
    let mut r: Vec<usize> = Vec::new();
    let mut i = lo;
    while i < hi
        invariant
            lo <= i <= hi,
            hi <= speed@.len(),
            r@ == run_starts(speed@, lo as int, i as int),
        decreases hi - i,
    {
        if i == lo || speed[i] != speed[i - 1] {
            r.push(i);
        }
        i = i + 1;
    }
    r
}

} // verus!
