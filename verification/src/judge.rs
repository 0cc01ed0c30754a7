use vstd::prelude::*;
use crate::input::TouchPhase;

verus! {

/// The verdict on one note.
#[derive(Clone, Copy, Debug, PartialEq, Eq, Structural)]
pub enum Judgement {
    Perfect,
    Good,
    Bad,
    Miss,
}

impl Judgement {
    /// Its slot in the count array (declaration order).
    pub open spec fn slot(self) -> int {
        match self {
            Judgement::Perfect => 0,
            Judgement::Good => 1,
            Judgement::Bad => 2,
            Judgement::Miss => 3,
        }
    }

    /// Whether it keeps the combo going.
    pub open spec fn is_hit(self) -> bool {
        self == Judgement::Perfect || self == Judgement::Good
    }

    pub fn index(&self) -> (r: usize)
        ensures
            r == self.slot(),
    {
        match self {
            Judgement::Perfect => 0,
            Judgement::Good => 1,
            Judgement::Bad => 2,
            Judgement::Miss => 3,
        }
    }
}

/// The running tally of a play: counts per judgement, the current and the
/// longest combo, and the timing offsets of the notes judged with one. The
/// offsets are carried as they come (`D`), for the statistics of the result screen.
pub struct JudgeInner<D> {
    perfect_diffs: Vec<D>,
    good_diffs: Vec<D>,
    bad_diffs: Vec<D>,
    combo: u32,
    max_combo: u32,
    counts: [u32; 4],
    num_of_notes: u32,
}

/// The abstract tally.
pub struct TallyModel<D> {
    pub perfect_diffs: Seq<D>,
    pub good_diffs: Seq<D>,
    pub bad_diffs: Seq<D>,
    pub combo: nat,
    pub max_combo: nat,
    pub counts: Seq<nat>,
    pub num_of_notes: nat,
}

impl<D> View for JudgeInner<D> {
    type V = TallyModel<D>;

    closed spec fn view(&self) -> TallyModel<D> {
        TallyModel {
            perfect_diffs: self.perfect_diffs@,
            good_diffs: self.good_diffs@,
            bad_diffs: self.bad_diffs@,
            combo: self.combo as nat,
            max_combo: self.max_combo as nat,
            counts: self.counts@.map_values(|c: u32| c as nat),
            num_of_notes: self.num_of_notes as nat,
        }
    }
}

/// A consistent tally: four counts, the combo never above the longest combo,
/// and no more recorded offsets of a kind than notes counted of that kind.
pub open spec fn tally_wf<D>(m: TallyModel<D>) -> bool {
    &&& m.counts.len() == 4
    &&& m.combo <= m.max_combo
    &&& m.perfect_diffs.len() <= m.counts[0]
    &&& m.good_diffs.len() <= m.counts[1]
    &&& m.bad_diffs.len() <= m.counts[2]
}

/// The tally after one more judgement, its offset not recorded.
pub open spec fn count_judgement<D>(m: TallyModel<D>, what: Judgement) -> TallyModel<D> {
    let combo = if what.is_hit() { m.combo + 1 } else { 0 };
    TallyModel {
        counts: m.counts.update(what.slot(), m.counts[what.slot()] + 1),
        combo: combo as nat,
        max_combo: if combo > m.max_combo { combo as nat } else { m.max_combo },
        ..m
    }
}

/// The tally after one more judgement whose offset `diff` is recorded (a miss
/// has no offset to record).
pub open spec fn record_judgement<D>(m: TallyModel<D>, what: Judgement, diff: D) -> TallyModel<D> {
    let c = count_judgement(m, what);
    TallyModel {
        perfect_diffs: if what == Judgement::Perfect { m.perfect_diffs.push(diff) } else { m.perfect_diffs },
        good_diffs: if what == Judgement::Good { m.good_diffs.push(diff) } else { m.good_diffs },
        bad_diffs: if what == Judgement::Bad { m.bad_diffs.push(diff) } else { m.bad_diffs },
        ..c
    }
}

/// Counting one more judgement stays within `u32`.
pub open spec fn can_count<D>(m: TallyModel<D>, what: Judgement) -> bool {
    &&& m.counts[what.slot()] < u32::MAX
    &&& m.combo < u32::MAX
}

impl<D> JudgeInner<D> {
    pub open spec fn wf(&self) -> bool {
        tally_wf(self@)
    }

    /// An empty tally for a chart of `num_of_notes` notes.
    pub fn new(num_of_notes: u32) -> (r: JudgeInner<D>)
        ensures
            r.wf(),
            r@.counts == seq![0nat, 0nat, 0nat, 0nat],
            r@.combo == 0,
            r@.max_combo == 0,
            r@.num_of_notes == num_of_notes,
            r@.perfect_diffs.len() == 0,
            r@.good_diffs.len() == 0,
            r@.bad_diffs.len() == 0,
    {
        let r = JudgeInner {
            perfect_diffs: Vec::new(),
            good_diffs: Vec::new(),
            bad_diffs: Vec::new(),
            combo: 0,
            max_combo: 0,
            counts: [0u32; 4],
            num_of_notes,
        };
        proof {
            assert(r@.counts =~= seq![0nat, 0nat, 0nat, 0nat]);
        }
        r
    }

    fn bump(&mut self, what: Judgement)
        requires
            old(self).wf(),
            can_count(old(self)@, what),
        ensures
            final(self).wf(),
            final(self)@ == count_judgement(old(self)@, what),
    {
        let i = what.index();
        let c = self.counts[i];
        self.counts[i] = c + 1;
        match what {
            Judgement::Perfect | Judgement::Good => {
                self.combo = self.combo + 1;
                if self.combo > self.max_combo {
                    self.max_combo = self.combo;
                }
            },
            _ => {
                self.combo = 0;
            },
        }
        proof {
            assert(self@.counts =~= old(self)@.counts.update(what.slot(), old(self)@.counts[what.slot()] + 1));
        }
    }

    /// Counts a judgement and records its timing offset.
    pub fn commit(&mut self, what: Judgement, diff: D)
        requires
            old(self).wf(),
            can_count(old(self)@, what),
        ensures
            final(self).wf(),
            final(self)@ == record_judgement(old(self)@, what, diff),
    {
        self.bump(what);
        match what {
            Judgement::Perfect => self.perfect_diffs.push(diff),
            Judgement::Good => self.good_diffs.push(diff),
            Judgement::Bad => self.bad_diffs.push(diff),
            Judgement::Miss => {},
        }
    }

    /// Counts a judgement without a timing offset.
    pub fn commit_diff(&mut self, what: Judgement)
        requires
            old(self).wf(),
            can_count(old(self)@, what),
        ensures
            final(self).wf(),
            final(self)@ == count_judgement(old(self)@, what),
    {
        self.bump(what);
    }

    /// Clears the tally; the number of notes stays.
    pub fn reset(&mut self)
        ensures
            final(self).wf(),
            final(self)@.counts == seq![0nat, 0nat, 0nat, 0nat],
            final(self)@.combo == 0,
            final(self)@.max_combo == 0,
            final(self)@.num_of_notes == old(self)@.num_of_notes,
            final(self)@.perfect_diffs.len() == 0,
            final(self)@.good_diffs.len() == 0,
            final(self)@.bad_diffs.len() == 0,
    {
        self.combo = 0;
        self.max_combo = 0;
        self.counts = [0u32; 4];
        self.perfect_diffs.clear();
        self.good_diffs.clear();
        self.bad_diffs.clear();
        proof {
            assert(self@.counts =~= seq![0nat, 0nat, 0nat, 0nat]);
        }
    }

    pub fn combo(&self) -> (r: u32)
        ensures
            r == self@.combo,
    {
        self.combo
    }

    pub fn max_combo(&self) -> (r: u32)
        ensures
            r == self@.max_combo,
    {
        self.max_combo
    }

    pub fn num_of_notes(&self) -> (r: u32)
        ensures
            r == self@.num_of_notes,
    {
        self.num_of_notes
    }

    /// The count of each judgement, in [`Judgement`] order.
    pub fn counts(&self) -> (r: [u32; 4])
        ensures
            r@.map_values(|c: u32| c as nat) == self@.counts,
    {
        self.counts
    }

    pub fn perfect_diffs(&self) -> (r: &Vec<D>)
        ensures
            r@ == self@.perfect_diffs,
    {
        &self.perfect_diffs
    }

    pub fn good_diffs(&self) -> (r: &Vec<D>)
        ensures
            r@ == self@.good_diffs,
    {
        &self.good_diffs
    }

    pub fn bad_diffs(&self) -> (r: &Vec<D>)
        ensures
            r@ == self@.bad_diffs,
    {
        &self.bad_diffs
    }

    /// A play is valid unless a combo stands that no recorded offset backs.
    pub fn is_vaild(&self) -> (r: bool)
        ensures
            r == (self@.combo == 0 || self@.perfect_diffs.len() + self@.good_diffs.len()
                + self@.bad_diffs.len() > 0),
    {
        self.combo == 0 || self.perfect_diffs.len() > 0 || self.good_diffs.len() > 0
            || self.bad_diffs.len() > 0
    }
}

} // verus!

verus! {

/// The tally after counting `js` in order.
pub open spec fn count_all<D>(m: TallyModel<D>, js: Seq<Judgement>) -> TallyModel<D>
    decreases js.len(),
{
    if js.len() == 0 {
        m
    } else {
        count_judgement(count_all(m, js.drop_last()), js.last())
    }
}

/// How many of `js` have the given slot.
pub open spec fn occurrences(js: Seq<Judgement>, slot: int) -> nat
    decreases js.len(),
{
    if js.len() == 0 {
        0
    } else {
        occurrences(js.drop_last(), slot) + if js.last().slot() == slot { 1nat } else { 0nat }
    }
}

/// `js[i..j]` is an unbroken run of Perfect and Good.
pub open spec fn hit_run(js: Seq<Judgement>, i: int, j: int) -> bool {
    &&& 0 <= i <= j <= js.len()
    &&& forall|k: int| i <= k < j ==> (#[trigger] js[k]).is_hit()
}

/// A fresh tally.
pub open spec fn fresh<D>(m: TallyModel<D>) -> bool {
    &&& m.counts == seq![0nat, 0nat, 0nat, 0nat]
    &&& m.combo == 0
    &&& m.max_combo == 0
}

/// Counting judgements from a fresh tally: each count is the number of its
/// judgements, the combo is the run of Perfect and Good at the end, and the
/// longest combo is the longest such run anywhere.
pub proof fn law_counts_and_combos<D>(m: TallyModel<D>, js: Seq<Judgement>)
    requires
        fresh(m),
    ensures
        ({
            let r = count_all(m, js);
            &&& r.counts.len() == 4
            &&& forall|s: int| 0 <= s < 4 ==> r.counts[s] == occurrences(js, s)
            &&& hit_run(js, js.len() - r.combo, js.len() as int)
            &&& (r.combo < js.len() ==> !js[js.len() - r.combo - 1].is_hit())
            &&& exists|i: int, j: int| #[trigger] hit_run(js, i, j) && j - i == r.max_combo
            &&& forall|i: int, j: int| hit_run(js, i, j) ==> j - i <= r.max_combo
        }),
    decreases js.len(),
{
    let r = count_all(m, js);
    if js.len() == 0 {
        assert(hit_run(js, 0, 0));
        assert forall|s: int| 0 <= s < 4 implies r.counts[s] == occurrences(js, s) by {
            if s == 0 {} else if s == 1 {} else if s == 2 {} else {}
        }
    } else {
        let d = js.drop_last();
        let x = js.last();
        let n = js.len() as int;
        law_counts_and_combos(m, d);
        let p = count_all(m, d);
        assert(r == count_judgement(p, x));
        assert forall|s: int| 0 <= s < 4 implies r.counts[s] == occurrences(js, s) by {
            assert(p.counts[s] == occurrences(d, s));
            assert(occurrences(js, s) == occurrences(d, s) + if x.slot() == s { 1nat } else { 0nat });
        }
        // the run at the end
        if x.is_hit() {
            assert forall|k: int| n - r.combo <= k < n implies (#[trigger] js[k]).is_hit() by {
                if k < n - 1 {
                    assert(js[k] == d[k]);
                }
            }
            if r.combo < n {
                assert(js[n - r.combo - 1] == d[(n - 1) - p.combo - 1]);
            }
        } else {
            assert(r.combo == 0);
        }
        assert(hit_run(js, n - r.combo, n));
        // a witness of the longest run
        if r.max_combo == r.combo {
            assert(hit_run(js, n - r.combo, n));
        } else {
            let (i, j) = choose|i: int, j: int| #[trigger] hit_run(d, i, j) && j - i == p.max_combo;
            assert(r.max_combo == p.max_combo);
            assert forall|k: int| i <= k < j implies (#[trigger] js[k]).is_hit() by {
                assert(js[k] == d[k]);
            }
            assert(hit_run(js, i, j));
        }
        // no run is longer
        assert forall|i: int, j: int| hit_run(js, i, j) implies j - i <= r.max_combo by {
            if j < n {
                assert forall|k: int| i <= k < j implies (#[trigger] d[k]).is_hit() by {
                    assert(js[k] == d[k]);
                }
                assert(hit_run(d, i, j));
            } else {
                if i < n - r.combo {
                    let k = n - r.combo - 1;
                    assert(js[k].is_hit());
                }
            }
        }
    }
}

} // verus!

verus! {

/// The rank icon shown for a result: 0 is a perfect score, 1 a full combo,
/// 2 to 6 the score bands from 960000 down to 700000, and 7 a failed or
/// unfinished play.
pub open spec fn icon_for(score: u32, full_combo: bool, track_complete: bool) -> int {
    if !track_complete {
        7
    } else if score >= 1000000 {
        0
    } else if full_combo {
        1
    } else if score < 700000 {
        7
    } else if score < 820000 {
        6
    } else if score < 880000 {
        5
    } else if score < 920000 {
        4
    } else if score < 960000 {
        3
    } else {
        2
    }
}

pub fn icon_index(score: u32, full_combo: bool, track_complete: bool) -> (r: usize)
    ensures
        r == icon_for(score, full_combo, track_complete),
{
    if !track_complete {
        7
    } else if score >= 1000000 {
        0
    } else if full_combo {
        1
    } else if score < 700000 {
        7
    } else if score < 820000 {
        6
    } else if score < 880000 {
        5
    } else if score < 920000 {
        4
    } else if score < 960000 {
        3
    } else {
        2
    }
}

/// A better score never earns a worse icon.
pub proof fn law_icon_monotone(s1: u32, s2: u32, full_combo: bool, track_complete: bool)
    requires
        s1 <= s2,
    ensures
        icon_for(s2, full_combo, track_complete) <= icon_for(s1, full_combo, track_complete),
{
}

/// A completed full combo earns the full-combo icon or the perfect one.
pub proof fn law_icon_full_combo(score: u32)
    ensures
        icon_for(score, true, true) <= 1,
{
}

/// What a note sounds like when hit.
#[derive(Clone, Debug)]
pub enum HitSound {
    Silent,
    Click,
    Flick,
    Drag,
    Custom(String),
}

/// The kind of a note.
#[derive(Clone, Copy, Debug, PartialEq, Eq, Structural)]
pub enum NoteKind {
    Click,
    Hold,
    Flick,
    Drag,
}

impl HitSound {
    /// The sound each note kind makes unless the chart says otherwise.
    pub open spec fn default_for(kind: NoteKind) -> HitSound {
        match kind {
            NoteKind::Click => HitSound::Click,
            NoteKind::Flick => HitSound::Flick,
            NoteKind::Drag => HitSound::Drag,
            NoteKind::Hold => HitSound::Click,
        }
    }

    pub fn default_from_kind(kind: &NoteKind) -> (r: HitSound)
        ensures
            r == HitSound::default_for(*kind),
    {
        match kind {
            NoteKind::Click => HitSound::Click,
            NoteKind::Flick => HitSound::Flick,
            NoteKind::Drag => HitSound::Drag,
            NoteKind::Hold => HitSound::Click,
        }
    }
}

/// The sound name that a replay records for one judgement log entry: a hold
/// start (`Err`) always clicks; bad and missed notes, holds, fake notes and
/// silent notes record nothing; otherwise the note's own sound.
pub open spec fn hit_kind(
    fake: bool,
    outcome: Result<Judgement, bool>,
    is_hold: bool,
    hitsound: HitSound,
) -> Option<Seq<char>> {
    if fake {
        None
    } else {
        match outcome {
            Err(_) => Some("click"@),
            Ok(j) => if j == Judgement::Bad || j == Judgement::Miss || is_hold {
                None
            } else {
                match hitsound {
                    HitSound::Click => Some("click"@),
                    HitSound::Drag => Some("drag"@),
                    HitSound::Flick => Some("flick"@),
                    HitSound::Custom(name) => Some(name@),
                    HitSound::Silent => None,
                }
            },
        }
    }
}

pub fn replay_hit_kind(
    fake: bool,
    outcome: Result<Judgement, bool>,
    is_hold: bool,
    hitsound: &HitSound,
) -> (r: Option<String>)
    ensures
        r matches Some(s) ==> hit_kind(fake, outcome, is_hold, *hitsound) == Some(s@),
        r is None ==> hit_kind(fake, outcome, is_hold, *hitsound) is None,
{
    if fake {
        return None;
    }
    match outcome {
        Err(_) => Some(String::from_str("click")),
        Ok(Judgement::Bad) | Ok(Judgement::Miss) => None,
        Ok(_) => {
            if is_hold {
                return None;
            }
            match hitsound {
                HitSound::Click => Some(String::from_str("click")),
                HitSound::Drag => Some(String::from_str("drag")),
                HitSound::Flick => Some(String::from_str("flick")),
                HitSound::Custom(name) => Some(name.clone()),
                HitSound::Silent => None,
            }
        },
    }
}

/// The replay format version this library writes and reads.
pub const REPLAY_VERSION: u32 = 1;

/// A replay written in a format version that this library does not read.
#[derive(Clone, Copy, Debug, PartialEq, Eq, Structural)]
pub struct UnsupportedReplayVersion {
    pub version: u32,
}

/// Accepts exactly the current replay version.
pub fn check_replay_version(version: u32) -> (r: Result<(), UnsupportedReplayVersion>)
    ensures
        r is Ok <==> version == REPLAY_VERSION,
        r matches Err(e) ==> e.version == version,
{
    if version != REPLAY_VERSION {
        Err(UnsupportedReplayVersion { version })
    } else {
        Ok(())
    }
}

/// The phase of a recorded touch.
#[derive(Clone, Copy, Debug, PartialEq, Eq, Structural)]
pub enum ReplayPhase {
    Started,
    Moved,
    Stationary,
    Ended,
    Cancelled,
}

} // verus!

verus! {

pub open spec fn replay_phase_of(p: TouchPhase) -> ReplayPhase {
    match p {
        TouchPhase::Started => ReplayPhase::Started,
        TouchPhase::Moved => ReplayPhase::Moved,
        TouchPhase::Stationary => ReplayPhase::Stationary,
        TouchPhase::Ended => ReplayPhase::Ended,
        TouchPhase::Cancelled => ReplayPhase::Cancelled,
    }
}

pub open spec fn touch_phase_of(p: ReplayPhase) -> TouchPhase {
    match p {
        ReplayPhase::Started => TouchPhase::Started,
        ReplayPhase::Moved => TouchPhase::Moved,
        ReplayPhase::Stationary => TouchPhase::Stationary,
        ReplayPhase::Ended => TouchPhase::Ended,
        ReplayPhase::Cancelled => TouchPhase::Cancelled,
    }
}

impl From<TouchPhase> for ReplayPhase {
    fn from(value: TouchPhase) -> (r: ReplayPhase) {
        match value {
            TouchPhase::Started => ReplayPhase::Started,
            TouchPhase::Moved => ReplayPhase::Moved,
            TouchPhase::Stationary => ReplayPhase::Stationary,
            TouchPhase::Ended => ReplayPhase::Ended,
            TouchPhase::Cancelled => ReplayPhase::Cancelled,
        }
    }
}

impl vstd::std_specs::convert::FromSpecImpl<TouchPhase> for ReplayPhase {
    open spec fn obeys_from_spec() -> bool {
        true
    }

    open spec fn from_spec(v: TouchPhase) -> ReplayPhase {
        replay_phase_of(v)
    }
}

impl From<ReplayPhase> for TouchPhase {
    fn from(value: ReplayPhase) -> (r: TouchPhase) {
        match value {
            ReplayPhase::Started => TouchPhase::Started,
            ReplayPhase::Moved => TouchPhase::Moved,
            ReplayPhase::Stationary => TouchPhase::Stationary,
            ReplayPhase::Ended => TouchPhase::Ended,
            ReplayPhase::Cancelled => TouchPhase::Cancelled,
        }
    }
}

impl vstd::std_specs::convert::FromSpecImpl<ReplayPhase> for TouchPhase {
    open spec fn obeys_from_spec() -> bool {
        true
    }

    open spec fn from_spec(v: ReplayPhase) -> TouchPhase {
        touch_phase_of(v)
    }
}

/// Recording a touch phase and playing it back gives the same phase, and back.
pub proof fn law_phase_round_trip(t: TouchPhase, r: ReplayPhase)
    ensures
        touch_phase_of(replay_phase_of(t)) == t,
        replay_phase_of(touch_phase_of(r)) == r,
{
}

} // verus!

verus! {

/// How far a note has been judged (the timing of a held note is kept elsewhere).
#[derive(Clone, Copy, Debug, PartialEq, Eq, Structural)]
pub enum NoteStatus {
    NotJudged,
    PreJudge,
    Hold,
    Judged,
}

pub open spec fn is_pending(fake: bool, status: NoteStatus) -> bool {
    !fake && (status == NoteStatus::NotJudged || status == NoteStatus::PreJudge)
}

/// How many notes are real and not judged yet.
pub open spec fn pending(fake: Seq<bool>, status: Seq<NoteStatus>) -> nat
    decreases fake.len(),
{
    if fake.len() == 0 {
        0
    } else {
        pending(fake.drop_last(), status.take(fake.len() - 1)) + if is_pending(
            fake.last(),
            status[fake.len() - 1],
        ) {
            1nat
        } else {
            0nat
        }
    }
}

/// The number of real notes that are neither judged nor being held.
pub fn count_pending(fake: &[bool], status: &[NoteStatus]) -> (r: usize)
    requires
        fake@.len() == status@.len(),
    ensures
        r == pending(fake@, status@),
{
    let n = fake.len();
    let mut c: usize = 0;
    for i in 0..n
        invariant
            n == fake@.len(),
            n == status@.len(),
            c == pending(fake@.take(i as int), status@.take(i as int)),
            c <= i,
    {
        proof {
            let f = fake@.take(i + 1);
            assert(f.drop_last() =~= fake@.take(i as int));
            assert(status@.take(i + 1).take(i as int) =~= status@.take(i as int));
            assert(f.last() == fake@[i as int]);
            assert(status@.take(i + 1)[i as int] == status@[i as int]);
        }
        if !fake[i] && (status[i] == NoteStatus::NotJudged || status[i] == NoteStatus::PreJudge) {
            c = c + 1;
        }
    }
    proof {
        assert(fake@.take(n as int) =~= fake@);
        assert(status@.take(n as int) =~= status@);
    }
    c
}

/// `n` perfect judgements.
pub open spec fn perfects(n: nat) -> Seq<Judgement> {
    Seq::new(n, |i: int| Judgement::Perfect)
}

impl<D> JudgeInner<D> {
    /// Counts every real note that is not judged yet as a perfect, as when a
    /// play is finished at once.
    pub fn commit_all(&mut self, fake: &[bool], status: &[NoteStatus])
        requires
            old(self).wf(),
            fake@.len() == status@.len(),
            old(self)@.counts[0] + pending(fake@, status@) <= u32::MAX,
            old(self)@.combo + pending(fake@, status@) <= u32::MAX,
        ensures
            final(self).wf(),
            final(self)@ == count_all(old(self)@, perfects(pending(fake@, status@))),
    {
        let n = count_pending(fake, status);
        let ghost start = self@;
        let mut k: usize = 0;
        assert(perfects(0) =~= Seq::<Judgement>::empty());
        while k < n
            invariant
                k <= n,
                n == pending(fake@, status@),
                self.wf(),
                self@ == count_all(start, perfects(k as nat)),
                self@.counts.len() == 4,
                self@.counts[0] == start.counts[0] + k,
                self@.combo == start.combo + k,
                start.counts[0] + n <= u32::MAX,
                start.combo + n <= u32::MAX,
            decreases n - k,
        {
            self.commit_diff(Judgement::Perfect);
            proof {
                assert(perfects((k + 1) as nat).drop_last() =~= perfects(k as nat));
                assert(perfects((k + 1) as nat).last() == Judgement::Perfect);
            }
            k = k + 1;
        }
    }
}

/// The first position from `start` on whose note is not judged yet (or the end):
/// the notes before it, in time order, need no more checks.
pub fn skip_judged(order: &[u32], start: usize, judged: &[bool]) -> (r: usize)
    requires
        start <= order@.len(),
        forall|i: int| 0 <= i < order@.len() ==> (#[trigger] order@[i]) < judged@.len(),
    ensures
        start <= r <= order@.len(),
        forall|i: int| start <= i < r ==> judged@[order@[i] as int],
        r < order@.len() ==> !judged@[order@[r as int] as int],
{
    let mut st = start;
    while st < order.len() && judged[order[st] as usize]
        invariant
            start <= st <= order@.len(),
            forall|i: int| 0 <= i < order@.len() ==> (#[trigger] order@[i]) < judged@.len(),
            forall|i: int| start <= i < st ==> judged@[order@[i] as int],
        decreases order@.len() - st,
    {
        st = st + 1;
    }
    st
}

/// Sorted by key, each index once.
pub open spec fn keyed_sorted(r: Seq<u32>, keys: Seq<i64>) -> bool {
    forall|a: int, b: int| 0 <= a < b < r.len() ==> keys[r[a] as int] <= keys[r[b] as int]
}

/// Notes of equal key keep the order of their indices.
pub open spec fn ties_in_index_order(r: Seq<u32>, keys: Seq<i64>) -> bool {
    forall|a: int, b: int|
        0 <= a < b < r.len() && keys[r[a] as int] == keys[r[b] as int] ==> r[a] < r[b]
}

pub open spec fn no_repeats(r: Seq<u32>) -> bool {
    forall|a: int, b: int| 0 <= a < b < r.len() ==> r[a] != r[b]
}

/// The judging order of the notes of one line: the indices of its real notes,
/// each once, ordered by time. `keys` orders the notes as their times do.
pub fn line_note_order(fake: &[bool], keys: &[i64]) -> (r: Vec<u32>)
    requires
        fake@.len() == keys@.len(),
        fake@.len() <= u32::MAX,
    ensures
        no_repeats(r@),
        keyed_sorted(r@, keys@),
        ties_in_index_order(r@, keys@),
        forall|i: int| 0 <= i < r@.len() ==> (#[trigger] r@[i]) < fake@.len() && !fake@[r@[i] as int],
        forall|j: int| 0 <= j < fake@.len() && !fake@[j] ==> r@.contains(j as u32),
{
    let n = fake.len();
    let mut r: Vec<u32> = Vec::new();
    for i in 0..n
        invariant
            n == fake@.len(),
            n == keys@.len(),
            n <= u32::MAX,
            no_repeats(r@),
            keyed_sorted(r@, keys@),
            ties_in_index_order(r@, keys@),
            forall|a: int| 0 <= a < r@.len() ==> (#[trigger] r@[a]) < i && !fake@[r@[a] as int],
            forall|j: int| 0 <= j < i && !fake@[j] ==> r@.contains(j as u32),
    {
        if !fake[i] {
            let key = keys[i];
            let mut p: usize = 0;
            while p < r.len() && keys[r[p] as usize] <= key
                invariant
                    p <= r@.len(),
                    n == keys@.len(),
                    forall|a: int| 0 <= a < r@.len() ==> (#[trigger] r@[a]) < i,
                    i < n,
                    forall|a: int| 0 <= a < p ==> keys@[(#[trigger] r@[a]) as int] <= key,
                decreases r@.len() - p,
            {
                p = p + 1;
            }
            let ghost before = r@;
            let x = i as u32;
            r.insert(p, x);
            proof {
                assert(r@ == before.insert(p as int, x));
                assert forall|a: int| 0 <= a < r@.len() implies (#[trigger] r@[a]) < i + 1 && !fake@[r@[a] as int] by {
                    if a < p {
                        assert(r@[a] == before[a]);
                    } else if a > p {
                        assert(r@[a] == before[a - 1]);
                    }
                }
                assert forall|a: int, b: int| 0 <= a < b < r@.len() implies r@[a] != r@[b] by {
                    if a < p && b < p {
                    } else if a < p && b == p {
                        assert(before[a] < i);
                    } else if a < p {
                        assert(r@[b] == before[b - 1]);
                    } else if a == p {
                        assert(r@[b] == before[b - 1]);
                        assert(before[b - 1] < i);
                    } else {
                        assert(r@[a] == before[a - 1]);
                        assert(r@[b] == before[b - 1]);
                    }
                }
                assert forall|a: int, b: int| 0 <= a < b < r@.len() implies keys@[r@[a] as int]
                    <= keys@[r@[b] as int] by {
                    if b < p {
                    } else if b == p {
                        assert(keys@[before[a] as int] <= key);
                    } else if a < p {
                        assert(r@[b] == before[b - 1]);
                        if p < before.len() {
                            assert(keys@[before[p as int] as int] > key);
                            assert(keys@[before[p as int] as int] <= keys@[before[b - 1] as int]);
                        }
                    } else if a == p {
                        assert(r@[b] == before[b - 1]);
                        assert(keys@[before[p as int] as int] > key);
                        if b - 1 > p {
                            assert(keys@[before[p as int] as int] <= keys@[before[b - 1] as int]);
                        }
                    } else {
                        assert(r@[a] == before[a - 1]);
                        assert(r@[b] == before[b - 1]);
                    }
                }
                assert forall|a: int, b: int|
                    0 <= a < b < r@.len() && keys@[r@[a] as int] == keys@[r@[b] as int] implies r@[a]
                    < r@[b] by {
                    if b < p {
                    } else if b == p {
                        assert(before[a] < i);
                    } else if a < p {
                        assert(r@[b] == before[b - 1]);
                    } else if a == p {
                        assert(r@[b] == before[b - 1]);
                        assert(keys@[before[p as int] as int] > key);
                        if b - 1 > p {
                            assert(keys@[before[p as int] as int] <= keys@[before[b - 1] as int]);
                        }
                    } else {
                        assert(r@[a] == before[a - 1]);
                        assert(r@[b] == before[b - 1]);
                    }
                }
                assert forall|j: int| 0 <= j < i + 1 && !fake@[j] implies r@.contains(j as u32) by {
                    if j == i {
                        assert(r@[p as int] == x);
                    } else {
                        assert(before.contains(j as u32));
                        let q = choose|q: int| 0 <= q < before.len() && before[q] == j as u32;
                        if q < p {
                            assert(r@[q] == before[q]);
                        } else {
                            assert(r@[q + 1] == before[q]);
                        }
                    }
                }
            }
        }
    }
    r
}

} // verus!

verus! {

/// The judgements that autoplay gives to taps and to holds: all bad (holds good),
/// all good, or all perfect.
pub fn autoplay_judgements(all_bad: bool, all_good: bool) -> (r: (Judgement, Judgement))
    ensures
        r == if all_bad {
            (Judgement::Bad, Judgement::Good)
        } else if all_good {
            (Judgement::Good, Judgement::Good)
        } else {
            (Judgement::Perfect, Judgement::Perfect)
        },
{
    if all_bad {
        (Judgement::Bad, Judgement::Good)
    } else if all_good {
        (Judgement::Good, Judgement::Good)
    } else {
        (Judgement::Perfect, Judgement::Perfect)
    }
}

} // verus!

verus! {

/// The notes of each judge line in judging order, and how many of them from the
/// front are already done with.
pub struct NoteQueues {
    pub lines: Vec<(Vec<u32>, usize)>,
}

/// The number of real notes of a line.
pub open spec fn real_notes(fake: Seq<bool>) -> nat
    decreases fake.len(),
{
    if fake.len() == 0 {
        0
    } else {
        real_notes(fake.drop_last()) + if fake.last() { 0nat } else { 1nat }
    }
}

/// The number of real notes of all lines.
pub open spec fn all_real_notes(fake: Seq<Vec<bool>>) -> nat
    decreases fake.len(),
{
    if fake.len() == 0 {
        0
    } else {
        all_real_notes(fake.drop_last()) + real_notes(fake.last()@)
    }
}

proof fn lemma_real_notes_bound(fake: Seq<bool>)
    ensures
        real_notes(fake) <= fake.len(),
    decreases fake.len(),
{
    if fake.len() > 0 {
        lemma_real_notes_bound(fake.drop_last());
    }
}

proof fn lemma_all_real_prefix(fake: Seq<Vec<bool>>, k: int)
    requires
        0 <= k <= fake.len(),
    ensures
        all_real_notes(fake.take(k)) <= all_real_notes(fake),
    decreases fake.len(),
{
    if k < fake.len() {
        assert(fake.drop_last().take(k) =~= fake.take(k));
        lemma_all_real_prefix(fake.drop_last(), k);
    } else {
        assert(fake.take(k) =~= fake);
    }
}

/// How many real notes a chart has, which is what a play is scored against.
pub fn real_note_count(fake: &Vec<Vec<bool>>) -> (r: u32)
    requires
        all_real_notes(fake@) <= u32::MAX,
    ensures
        r == all_real_notes(fake@),
{
    let n = fake.len();
    let mut total: u32 = 0;
    for i in 0..n
        invariant
            n == fake@.len(),
            total == all_real_notes(fake@.take(i as int)),
            all_real_notes(fake@) <= u32::MAX,
    {
        let line = &fake[i];
        let m = line.len();
        let mut c: u32 = 0;
        proof {
            assert(fake@.take(i + 1).drop_last() =~= fake@.take(i as int));
            lemma_all_real_prefix(fake@, i + 1);
        }
        for j in 0..m
            invariant
                m == line@.len(),
                c == real_notes(line@.take(j as int)),
                total + real_notes(line@) <= u32::MAX,
        {
            proof {
                assert(line@.take(j + 1).drop_last() =~= line@.take(j as int));
                lemma_real_notes_bound(line@.take(j + 1));
                assert(real_notes(line@.take(j + 1)) <= real_notes(line@)) by {
                    lemma_real_prefix(line@, j + 1);
                }
            }
            if !line[j] {
                c = c + 1;
            }
        }
        proof {
            assert(line@.take(m as int) =~= line@);
        }
        total = total + c;
    }
    proof {
        assert(fake@.take(n as int) =~= fake@);
    }
    total
}

proof fn lemma_real_prefix(fake: Seq<bool>, k: int)
    requires
        0 <= k <= fake.len(),
    ensures
        real_notes(fake.take(k)) <= real_notes(fake),
    decreases fake.len(),
{
    if k < fake.len() {
        assert(fake.drop_last().take(k) =~= fake.take(k));
        lemma_real_prefix(fake.drop_last(), k);
    } else {
        assert(fake.take(k) =~= fake);
    }
}

impl NoteQueues {
    /// The judging order of every line (see [`line_note_order`]), none done yet.
    pub fn new(fake: &Vec<Vec<bool>>, keys: &Vec<Vec<i64>>) -> (r: NoteQueues)
        requires
            fake@.len() == keys@.len(),
            forall|i: int|
                0 <= i < fake@.len() ==> (#[trigger] fake@[i])@.len() == keys@[i]@.len() && fake@[i]@.len()
                    <= u32::MAX,
        ensures
            r.lines@.len() == fake@.len(),
            forall|i: int|
                0 <= i < r.lines@.len() ==> {
                    let q = #[trigger] r.lines@[i];
                    &&& q.1 == 0
                    &&& no_repeats(q.0@)
                    &&& keyed_sorted(q.0@, keys@[i]@)
                    &&& ties_in_index_order(q.0@, keys@[i]@)
                    &&& forall|a: int|
                        0 <= a < q.0@.len() ==> (#[trigger] q.0@[a]) < fake@[i]@.len() && !fake@[i]@[q.0@[a] as int]
                    &&& forall|j: int|
                        0 <= j < fake@[i]@.len() && !fake@[i]@[j] ==> q.0@.contains(j as u32)
                },
    {
        let n = fake.len();
        let mut lines: Vec<(Vec<u32>, usize)> = Vec::new();
        for i in 0..n
            invariant
                n == fake@.len(),
                n == keys@.len(),
                forall|k: int|
                    0 <= k < fake@.len() ==> (#[trigger] fake@[k])@.len() == keys@[k]@.len() && fake@[k]@.len()
                        <= u32::MAX,
                lines@.len() == i,
                forall|k: int|
                    0 <= k < i ==> {
                        let q = #[trigger] lines@[k];
                        &&& q.1 == 0
                        &&& no_repeats(q.0@)
                        &&& keyed_sorted(q.0@, keys@[k]@)
                        &&& ties_in_index_order(q.0@, keys@[k]@)
                        &&& forall|a: int|
                            0 <= a < q.0@.len() ==> (#[trigger] q.0@[a]) < fake@[k]@.len() && !fake@[k]@[q.0@[a] as int]
                        &&& forall|j: int|
                            0 <= j < fake@[k]@.len() && !fake@[k]@[j] ==> q.0@.contains(j as u32)
                    },
        {
            let order = line_note_order(fake[i].as_slice(), keys[i].as_slice());
            lines.push((order, 0));
        }
        NoteQueues { lines }
    }

    /// Starts every line over from its first note.
    pub fn reset(&mut self)
        ensures
            final(self).lines@.len() == old(self).lines@.len(),
            forall|i: int|
                0 <= i < final(self).lines@.len() ==> (#[trigger] final(self).lines@[i]).1 == 0
                    && final(self).lines@[i].0@ == old(self).lines@[i].0@,
    {
        let n = self.lines.len();
        let mut fresh: Vec<(Vec<u32>, usize)> = Vec::new();
        let mut i: usize = 0;
        while i < n
            invariant
                i <= n,
                n == self.lines@.len(),
                self.lines == old(self).lines,
                fresh@.len() == i,
                forall|k: int| 0 <= k < i ==> (#[trigger] fresh@[k]).1 == 0 && fresh@[k].0@ == old(self).lines@[k].0@,
            decreases n - i,
        {
            let order = copy_order(&self.lines[i].0);
            fresh.push((order, 0));
            i = i + 1;
        }
        self.lines = fresh;
    }

    /// Moves line `line` past the notes at the front of its queue that are judged.
    pub fn advance(&mut self, line: usize, judged: &[bool])
        requires
            line < old(self).lines@.len(),
            old(self).lines@[line as int].1 <= old(self).lines@[line as int].0@.len(),
            forall|a: int|
                0 <= a < old(self).lines@[line as int].0@.len() ==> (#[trigger] old(self).lines@[line as int].0@[a])
                    < judged@.len(),
        ensures
            final(self).lines@.len() == old(self).lines@.len(),
            forall|i: int| 0 <= i < final(self).lines@.len() && i != line ==> #[trigger] final(self).lines@[i] == old(self).lines@[i],
            ({
                let (order, st) = old(self).lines@[line as int];
                let r = final(self).lines@[line as int].1;
                &&& final(self).lines@[line as int].0 == order
                &&& st <= r <= order@.len()
                &&& forall|i: int| st <= i < r ==> judged@[order@[i] as int]
                &&& r < order@.len() ==> !judged@[order@[r as int] as int]
            }),
    {
        let st = self.lines[line].1;
        let r = skip_judged(self.lines[line].0.as_slice(), st, judged);
        self.lines[line].1 = r;
    }
}

fn copy_order(v: &Vec<u32>) -> (r: Vec<u32>)
    ensures
        r@ == v@,
{
    let mut r: Vec<u32> = Vec::new();
    let n = v.len();
    for i in 0..n
        invariant
            n == v@.len(),
            r@ == v@.take(i as int),
    {
        r.push(v[i]);
        proof {
            assert(v@.take(i + 1) =~= v@.take(i as int).push(v@[i as int]));
        }
    }
    proof {
        assert(v@.take(n as int) =~= v@);
    }
    r
}

} // verus!

verus! {

/// How often each hit sound has played this frame; a sound plays at most five
/// times a frame.
pub struct HitsoundBudget {
    counts: Vec<(String, u8)>,
}

/// The counts of a list of names, later entries over earlier ones.
pub open spec fn counts_map(v: Seq<(String, u8)>) -> Map<Seq<char>, nat>
    decreases v.len(),
{
    if v.len() == 0 {
        Map::empty()
    } else {
        counts_map(v.drop_last()).insert(v.last().0@, v.last().1 as nat)
    }
}

pub open spec fn distinct_names(v: Seq<(String, u8)>) -> bool {
    forall|i: int, j: int| 0 <= i < j < v.len() ==> (#[trigger] v[i]).0@ != (#[trigger] v[j]).0@
}

/// The count a name has so far.
pub open spec fn count_of(m: Map<Seq<char>, nat>, name: Seq<char>) -> nat {
    if m.contains_key(name) {
        m[name]
    } else {
        0
    }
}

/// One request to play `name`: whether it may play, and the counts after.
pub open spec fn budget_step(m: Map<Seq<char>, nat>, name: Seq<char>) -> (Map<Seq<char>, nat>, bool) {
    let c = count_of(m, name);
    if c < 5 {
        (m.insert(name, c + 1), true)
    } else {
        (m.insert(name, c), false)
    }
}

proof fn lemma_counts_map_index(v: Seq<(String, u8)>, i: int)
    requires
        distinct_names(v),
        0 <= i < v.len(),
    ensures
        counts_map(v).contains_key(v[i].0@),
        counts_map(v)[v[i].0@] == v[i].1 as nat,
    decreases v.len(),
{
    if i < v.len() - 1 {
        assert(distinct_names(v.drop_last()));
        assert(v.drop_last()[i] == v[i]);
        lemma_counts_map_index(v.drop_last(), i);
        assert(v[i].0@ != v[v.len() - 1].0@);
    }
}

proof fn lemma_counts_map_absent(v: Seq<(String, u8)>, name: Seq<char>)
    requires
        forall|i: int| 0 <= i < v.len() ==> (#[trigger] v[i]).0@ != name,
    ensures
        !counts_map(v).contains_key(name),
    decreases v.len(),
{
    if v.len() > 0 {
        assert(v[v.len() - 1].0@ != name);
        lemma_counts_map_absent(v.drop_last(), name);
    }
}

proof fn lemma_counts_map_update(v: Seq<(String, u8)>, i: int, e: (String, u8))
    requires
        distinct_names(v),
        0 <= i < v.len(),
        e.0@ == v[i].0@,
    ensures
        counts_map(v.update(i, e)) == counts_map(v).insert(e.0@, e.1 as nat),
        distinct_names(v.update(i, e)),
    decreases v.len(),
{
    let w = v.update(i, e);
    assert forall|a: int, b: int| 0 <= a < b < w.len() implies (#[trigger] w[a]).0@ != (#[trigger] w[b]).0@ by {
        assert(v[a].0@ != v[b].0@);
    }
    if i == v.len() - 1 {
        assert(w.drop_last() =~= v.drop_last());
        assert(counts_map(v) == counts_map(v.drop_last()).insert(v.last().0@, v.last().1 as nat));
        assert(counts_map(w) =~= counts_map(v).insert(e.0@, e.1 as nat));
    } else {
        assert(distinct_names(v.drop_last()));
        assert(w.drop_last() =~= v.drop_last().update(i, e));
        lemma_counts_map_update(v.drop_last(), i, e);
        assert(v.last().0@ != e.0@) by {
            assert(v[i].0@ != v[v.len() - 1].0@);
        }
        assert(counts_map(w) =~= counts_map(v).insert(e.0@, e.1 as nat));
    }
}

impl HitsoundBudget {
    pub closed spec fn view_map(&self) -> Map<Seq<char>, nat> {
        counts_map(self.counts@)
    }

    pub closed spec fn wf(&self) -> bool {
        &&& distinct_names(self.counts@)
        &&& forall|i: int| 0 <= i < self.counts@.len() ==> (#[trigger] self.counts@[i]).1 <= 5
    }

    /// No sound has played yet.
    pub fn new() -> (r: Self)
        ensures
            r.wf(),
            r.view_map() == Map::<Seq<char>, nat>::empty(),
    {
        HitsoundBudget { counts: Vec::new() }
    }

    /// A new frame: every sound may play again.
    pub fn clear(&mut self)
        ensures
            final(self).wf(),
            final(self).view_map() == Map::<Seq<char>, nat>::empty(),
    {
        self.counts = Vec::new();
    }

    /// Asks to play `sfx`: granted while it has played fewer than five times this
    /// frame, and then counted.
    pub fn check(&mut self, sfx: &str) -> (r: bool)
        requires
            old(self).wf(),
        ensures
            final(self).wf(),
            (final(self).view_map(), r) == budget_step(old(self).view_map(), sfx@),
    {
        let n = self.counts.len();
        let mut i: usize = 0;
        while i < n
            invariant
                i <= n,
                n == self.counts@.len(),
                *self == *old(self),
                forall|j: int| 0 <= j < i ==> (#[trigger] self.counts@[j]).0@ != sfx@,
            ensures
                i <= n,
                *self == *old(self),
                forall|j: int| 0 <= j < i ==> (#[trigger] self.counts@[j]).0@ != sfx@,
                i < n ==> self.counts@[i as int].0@ == sfx@,
            decreases n - i,
        {
            if crate::character::same_text(self.counts[i].0.as_str(), sfx) {
                break;
            }
            i = i + 1;
        }
        if i < n {
            proof {
                lemma_counts_map_index(self.counts@, i as int);
            }
            let c = self.counts[i].1;
            if c < 5 {
                let ghost before = self.counts@;
                let name = copy_string(&self.counts[i].0);
                self.counts[i] = (name, c + 1);
                proof {
                    lemma_counts_map_update(before, i as int, (name, (c + 1) as u8));
                }
                true
            } else {
                proof {
                    assert(counts_map(self.counts@).insert(sfx@, c as nat) =~= counts_map(self.counts@));
                }
                false
            }
        } else {
            proof {
                lemma_counts_map_absent(self.counts@, sfx@);
            }
            let ghost before = self.counts@;
            let name = copy_str(sfx);
            self.counts.push((name, 1));
            proof {
                assert(self.counts@.drop_last() =~= before);
                assert forall|a: int, b: int| 0 <= a < b < self.counts@.len() implies (#[trigger] self.counts@[a]).0@
                    != (#[trigger] self.counts@[b]).0@ by {
                    if b == self.counts@.len() - 1 {
                        assert(before[a].0@ != sfx@);
                    } else {
                        assert(before[a].0@ != before[b].0@);
                    }
                }
            }
            true
        }
    }
}

fn copy_string(s: &String) -> (r: String)
    ensures
        r@ == s@,
{
    copy_str(s.as_str())
}

fn copy_str(s: &str) -> (r: String)
    ensures
        r@ == s@,
{
    let v = crate::text::chars_of(s);
    crate::text::string_from_chars(v.as_slice())
}

/// The counts and the answers after requests for `names`, in order.
pub open spec fn budget_run(m: Map<Seq<char>, nat>, names: Seq<Seq<char>>) -> (Map<Seq<char>, nat>, Seq<bool>)
    decreases names.len(),
{
    if names.len() == 0 {
        (m, seq![])
    } else {
        let p = budget_run(m, names.drop_last());
        let s = budget_step(p.0, names.last());
        (s.0, p.1.push(s.1))
    }
}

/// How many of the first answers granted a request for `name`.
pub open spec fn granted(names: Seq<Seq<char>>, answers: Seq<bool>, name: Seq<char>) -> nat
    decreases names.len(),
{
    if names.len() == 0 || answers.len() == 0 {
        0
    } else {
        granted(names.drop_last(), answers.drop_last(), name) + if names.last() == name && answers.last() {
            1nat
        } else {
            0nat
        }
    }
}

/// How many requests name `name`.
pub open spec fn requested(names: Seq<Seq<char>>, name: Seq<char>) -> nat
    decreases names.len(),
{
    if names.len() == 0 {
        0
    } else {
        requested(names.drop_last(), name) + if names.last() == name { 1nat } else { 0nat }
    }
}

/// Within one frame, a sound plays as often as it is asked for, up to five times.
pub proof fn law_five_per_frame(names: Seq<Seq<char>>, name: Seq<char>)
    ensures
        ({
            let r = budget_run(Map::empty(), names);
            &&& r.1.len() == names.len()
            &&& count_of(r.0, name) == if requested(names, name) < 5 { requested(names, name) } else { 5 }
            &&& granted(names, r.1, name) == count_of(r.0, name)
        }),
    decreases names.len(),
{
    if names.len() > 0 {
        law_five_per_frame(names.drop_last(), name);
        let p = budget_run(Map::empty(), names.drop_last());
        let r = budget_run(Map::empty(), names);
        assert(r.1.drop_last() =~= p.1);
    }
}

} // verus!

verus! {

/// The sound a note asks to play, by name: a silent note none; the built-in sounds
/// none while autoplay hands them to the precise player; a custom sound only when
/// it was loaded.
pub open spec fn sound_of(h: HitSound, precise_autoplay: bool, custom_loaded: bool) -> Option<Seq<char>> {
    match h {
        HitSound::Silent => None,
        HitSound::Click => if precise_autoplay { None } else { Some("click"@) },
        HitSound::Flick => if precise_autoplay { None } else { Some("flick"@) },
        HitSound::Drag => if precise_autoplay { None } else { Some("drag"@) },
        HitSound::Custom(name) => if custom_loaded { Some(name@) } else { None },
    }
}

pub fn sound_to_play(h: &HitSound, precise_autoplay: bool, custom_loaded: bool) -> (r: Option<String>)
    ensures
        r matches Some(s) ==> sound_of(*h, precise_autoplay, custom_loaded) == Some(s@),
        r is None ==> sound_of(*h, precise_autoplay, custom_loaded) is None,
{
    match h {
        HitSound::Silent => None,
        HitSound::Click => if precise_autoplay { None } else { Some(String::from_str("click")) },
        HitSound::Flick => if precise_autoplay { None } else { Some(String::from_str("flick")) },
        HitSound::Drag => if precise_autoplay { None } else { Some(String::from_str("drag")) },
        HitSound::Custom(name) => if custom_loaded { Some(copy_string(name)) } else { None },
    }
}

} // verus!

verus! {

/// The offsets recorded for a kind of judgement.
pub open spec fn offsets_of<D>(m: TallyModel<D>, what: Judgement) -> Seq<D> {
    if what == Judgement::Perfect {
        m.perfect_diffs
    } else if what == Judgement::Good {
        m.good_diffs
    } else {
        m.bad_diffs
    }
}

/// Committing a perfect, good or bad judgement with an offset appends that offset
/// to the offsets of its kind and leaves the other kinds' offsets alone, so one
/// more offset is recorded in all; a miss records none.
pub proof fn law_commit_records_offset<D>(m: TallyModel<D>, what: Judgement, diff: D)
    ensures
        ({
            let r = record_judgement(m, what, diff);
            let total = |t: TallyModel<D>| t.perfect_diffs.len() + t.good_diffs.len() + t.bad_diffs.len();
            &&& total(r) == total(m) + if what == Judgement::Miss { 0int } else { 1int }
            &&& what != Judgement::Miss ==> offsets_of(r, what) == offsets_of(m, what).push(diff)
            &&& forall|k: Judgement|
                k != what && k != Judgement::Miss ==> offsets_of(r, k) == offsets_of(m, k)
        }),
{
}

} // verus!
