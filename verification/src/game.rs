use vstd::prelude::*;
use crate::text::chars_of;

verus! {

/// The marks of a best record that compare without floating point.
#[derive(Clone, Copy, Debug, PartialEq, Eq, Structural)]
pub struct RecordMarks {
    pub score: u32,
    pub full_combo: bool,
    pub track_complete: bool,
}

/// The best of two records, mark by mark.
pub open spec fn merged(a: RecordMarks, b: RecordMarks) -> RecordMarks {
    RecordMarks {
        score: if b.score > a.score { b.score } else { a.score },
        full_combo: a.full_combo || b.full_combo,
        track_complete: a.track_complete || b.track_complete,
    }
}

impl RecordMarks {
    /// Keeps the better of each mark; `accuracy_improved` says whether the other
    /// record's accuracy is higher (the caller then keeps that accuracy). Whether
    /// anything improved is returned.
    pub fn update(&mut self, other: &RecordMarks, accuracy_improved: bool) -> (r: bool)
        ensures
            *final(self) == merged(*old(self), *other),
            r == (accuracy_improved || merged(*old(self), *other) != *old(self)),
    {
        let mut changed = false;
        if other.score > self.score {
            self.score = other.score;
            changed = true;
        }
        if accuracy_improved {
            changed = true;
        }
        if other.full_combo && !self.full_combo {
            self.full_combo = other.full_combo;
            changed = true;
        }
        if other.track_complete && !self.track_complete {
            self.track_complete = other.track_complete;
            changed = true;
        }
        changed
    }
}

/// Keeping the best marks twice changes nothing the second time, and the order in
/// which two records are merged does not matter.
pub proof fn law_merge_settles(a: RecordMarks, b: RecordMarks)
    ensures
        merged(merged(a, b), b) == merged(a, b),
        merged(a, b) == merged(b, a),
{
}

/// The formats a chart can be written in.
#[derive(Clone, Copy, Debug, PartialEq, Eq, Structural)]
pub enum ChartFormat {
    Rpe,
    Pgr,
    Pec,
    Pbc,
}

/// Whether `w` occurs in `s`.
pub open spec fn contains_word(s: Seq<char>, w: Seq<char>) -> bool {
    exists|i: int| 0 <= i <= s.len() - w.len() && #[trigger] s.subrange(i, i + w.len()) == w
}

/// The format of a chart: the declared one, else by its contents. Text that opens
/// with `{` is JSON, RPE when it mentions `"META"` and Phigros otherwise; other
/// text is PEC; bytes that are not UTF-8 text (`None`) are the binary format.
pub open spec fn format_of(declared: Option<ChartFormat>, text: Option<Seq<char>>) -> ChartFormat {
    match declared {
        Some(f) => f,
        None => match text {
            Some(t) => if t.len() > 0 && t[0] == '{' {
                if contains_word(t, seq!['"', 'M', 'E', 'T', 'A', '"']) {
                    ChartFormat::Rpe
                } else {
                    ChartFormat::Pgr
                }
            } else {
                ChartFormat::Pec
            },
            None => ChartFormat::Pbc,
        },
    }
}

fn has_word(s: &Vec<char>, w: &Vec<char>) -> (r: bool)
    ensures
        r == contains_word(s@, w@),
{
    let n = s.len();
    let m = w.len();
    if m > n {
        proof {
            assert forall|i: int| 0 <= i <= s@.len() - w@.len() implies #[trigger] s@.subrange(
                i,
                i + w@.len(),
            ) != w@ by {}
        }
        return false;
    }
    let mut i: usize = 0;
    while i <= n - m
        invariant
            m <= n,
            n == s@.len(),
            m == w@.len(),
            forall|k: int| 0 <= k < i ==> #[trigger] s@.subrange(k, k + m) != w@,
        decreases n - m + 1 - i,
    {
        let mut j: usize = 0;
        while j < m && s[i + j] == w[j]
            invariant
                j <= m,
                i + m <= n,
                n == s@.len(),
                m == w@.len(),
                forall|k: int| 0 <= k < j ==> s@[i + k] == w@[k],
            decreases m - j,
        {
            j = j + 1;
        }
        if j == m {
            proof {
                assert(s@.subrange(i as int, i + m) =~= w@);
            }
            return true;
        }
        proof {
            assert(s@.subrange(i as int, i + m)[j as int] != w@[j as int]);
        }
        i = i + 1;
    }
    false
}

/// The format of a chart, as [`format_of`] decides it.
pub fn detect_format(declared: Option<ChartFormat>, text: Option<&str>) -> (r: ChartFormat)
    ensures
        r == format_of(
            declared,
            match text {
                Some(t) => Some(t@),
                None => None,
            },
        ),
{
    match declared {
        Some(f) => f,
        None => match text {
            Some(t) => {
                let s = chars_of(t);
                if s.len() > 0 && s[0] == '{' {
                    let w = vec!['"', 'M', 'E', 'T', 'A', '"'];
                    assert(w@ =~= seq!['"', 'M', 'E', 'T', 'A', '"']);
                    if has_word(&s, &w) {
                        ChartFormat::Rpe
                    } else {
                        ChartFormat::Pgr
                    }
                } else {
                    ChartFormat::Pec
                }
            },
            None => ChartFormat::Pbc,
        },
    }
}

} // verus!

verus! {

/// How many elements of the run that element `i` belongs to come before it; a
/// run starts at the first element and wherever `new_run` says so.
pub open spec fn run_pos(new_run: Seq<bool>, i: int) -> nat
    decreases i,
{
    if i <= 0 || new_run[i] {
        0
    } else {
        run_pos(new_run, i - 1) + 1
    }
}

/// Which sound times to keep so that no instant plays more than `limit` of them:
/// within each run of times that fall on one instant, the first `limit`.
pub fn thin_runs(new_run: &[bool], limit: usize) -> (r: Vec<bool>)
    ensures
        r@.len() == new_run@.len(),
        forall|i: int| 0 <= i < r@.len() ==> r@[i] == (run_pos(new_run@, i) < limit),
{
    let n = new_run.len();
    let mut r: Vec<bool> = Vec::new();
    let mut count: usize = 0;
    for i in 0..n
        invariant
            n == new_run@.len(),
            r@.len() == i,
            forall|k: int| 0 <= k < i ==> r@[k] == (run_pos(new_run@, k) < limit),
            i > 0 ==> count == if run_pos(new_run@, i - 1) < limit {
                run_pos(new_run@, i - 1) + 1
            } else {
                limit as nat
            },
            count <= limit || (i == 0 && count == 0),
    {
        if i == 0 || new_run[i] {
            if limit > 0 {
                r.push(true);
                count = 1;
            } else {
                r.push(false);
                count = 0;
            }
        } else if count < limit {
            r.push(true);
            count = count + 1;
        } else {
            r.push(false);
        }
    }
    r
}

} // verus!
