use vstd::prelude::*;
use crate::text::{chars_of, split_lines, split_tokens, parse_usize, lines, tokens, parse_unsigned, seqs_of};

verus! {

/// How many events of each kind, and how many notes, one judge line of a PEC
/// chart holds.
#[derive(Clone, Copy, Debug, PartialEq, Eq, Structural)]
pub struct EventCounts {
    pub speed_events: usize,
    pub alpha_events: usize,
    pub move_x_events: usize,
    pub move_y_events: usize,
    pub rotate_events: usize,
    pub notes: usize,
}

/// The mathematical value of [`EventCounts`].
pub struct CountsModel {
    pub speed: nat,
    pub alpha: nat,
    pub move_x: nat,
    pub move_y: nat,
    pub rotate: nat,
    pub notes: nat,
}

impl View for EventCounts {
    type V = CountsModel;

    open spec fn view(&self) -> CountsModel {
        CountsModel {
            speed: self.speed_events as nat,
            alpha: self.alpha_events as nat,
            move_x: self.move_x_events as nat,
            move_y: self.move_y_events as nat,
            rotate: self.rotate_events as nat,
            notes: self.notes as nat,
        }
    }
}

pub open spec fn zero_counts() -> CountsModel {
    CountsModel { speed: 0, alpha: 0, move_x: 0, move_y: 0, rotate: 0, notes: 0 }
}

impl Default for EventCounts {
    fn default() -> (r: EventCounts)
        ensures
            r@ == zero_counts(),
    {
        EventCounts {
            speed_events: 0,
            alpha_events: 0,
            move_x_events: 0,
            move_y_events: 0,
            rotate_events: 0,
            notes: 0,
        }
    }
}

/// The models of a sequence of counts.
pub open spec fn models(v: Seq<EventCounts>) -> Seq<CountsModel> {
    v.map_values(|c: EventCounts| c@)
}

/// `counts` grown with zero entries so that `id` indexes it.
pub open spec fn ensured(counts: Seq<CountsModel>, id: nat) -> Seq<CountsModel> {
    if counts.len() <= id {
        counts + Seq::new((id + 1 - counts.len()) as nat, |i: int| zero_counts())
    } else {
        counts
    }
}

/// Grows `counts` with zeroed entries until `id` indexes it, and hands out that entry.
pub fn ensure_counts(counts: &mut Vec<EventCounts>, id: usize) -> (r: &mut EventCounts)
    requires
        id < usize::MAX,
    ensures
        models(final(counts)@) == ensured(models(old(counts)@), id as nat).update(
            id as int,
            final(r)@,
        ),
        final(counts)@.len() == ensured(models(old(counts)@), id as nat).len(),
        r@ == ensured(models(old(counts)@), id as nat)[id as int],
{
    let ghost old_models = models(counts@);
    if counts.len() <= id {
        let ghost start = counts@.len();
        while counts.len() <= id
            invariant
                start <= counts@.len() <= id + 1,
                models(counts@) =~= old_models + Seq::new(
                    (counts@.len() - start) as nat,
                    |i: int| zero_counts(),
                ),
            decreases id + 1 - counts@.len(),
        {
            let ghost prev = models(counts@);
            counts.push(EventCounts::default());
            proof {
                assert(models(counts@) =~= prev.push(zero_counts()));
            }
        }
    }
    proof {
        assert(models(counts@) =~= ensured(old_models, id as nat));
    }
    &mut counts[id]
}

/// The command word of a line (its first whitespace-separated token).
pub open spec fn is_bp(cmd: Seq<char>) -> bool {
    cmd =~= seq!['b', 'p']
}

pub open spec fn is_note_cmd(cmd: Seq<char>) -> bool {
    cmd.len() == 2 && cmd[0] == 'n' && 49 <= (cmd[1] as u32) <= 52
}

/// `c` followed by one ASCII character: a line event command.
pub open spec fn is_event_cmd(cmd: Seq<char>) -> bool {
    cmd.len() == 2 && cmd[0] == 'c' && (cmd[1] as u32) < 128
}

/// The judge line that a counted line names: its second token as a `usize`.
pub open spec fn line_target(line: Seq<char>) -> Option<nat> {
    let t = tokens(line);
    if t.len() >= 2 {
        parse_unsigned(t[1], usize::MAX as nat)
    } else {
        None
    }
}

/// Whether a line is a note or event command that names a judge line.
pub open spec fn targets_line(line: Seq<char>) -> bool {
    let t = tokens(line);
    t.len() >= 2 && (is_note_cmd(t[0]) || is_event_cmd(t[0])) && line_target(line) is Some
}

pub open spec fn bump_kind(c: CountsModel, kind: char) -> CountsModel {
    if kind == 'v' {
        CountsModel { speed: c.speed + 1, ..c }
    } else if kind == 'p' || kind == 'm' {
        CountsModel { move_x: c.move_x + 1, move_y: c.move_y + 1, ..c }
    } else if kind == 'd' || kind == 'r' {
        CountsModel { rotate: c.rotate + 1, ..c }
    } else if kind == 'a' || kind == 'f' {
        CountsModel { alpha: c.alpha + 1, ..c }
    } else {
        c
    }
}

/// The effect of one line on the counts and on the number of BPM lines.
pub open spec fn count_line(
    state: (Seq<CountsModel>, nat),
    line: Seq<char>,
) -> (Seq<CountsModel>, nat) {
    let t = tokens(line);
    if t.len() == 0 {
        state
    } else if is_bp(t[0]) {
        (state.0, state.1 + 1)
    } else if targets_line(line) {
        let id = line_target(line)->0;
        let e = ensured(state.0, id);
        if is_note_cmd(t[0]) {
            (e.update(id as int, CountsModel { notes: e[id as int].notes + 1, ..e[id as int] }), state.1)
        } else {
            (e.update(id as int, bump_kind(e[id as int], t[0][1])), state.1)
        }
    } else {
        state
    }
}

/// The counts after the given lines, in order.
pub open spec fn count_lines(ls: Seq<Seq<char>>) -> (Seq<CountsModel>, nat)
    decreases ls.len(),
{
    if ls.len() == 0 {
        (seq![], 0)
    } else {
        count_line(count_lines(ls.drop_last()), ls.last())
    }
}

/// The counts of a whole PEC source: its first line (the offset) is skipped.
pub open spec fn count_source(source: Seq<char>) -> (Seq<CountsModel>, nat) {
    let ls = lines(source);
    if ls.len() == 0 {
        (seq![], 0)
    } else {
        count_lines(ls.drop_first())
    }
}

/// Lines past the first whose named judge line is `usize::MAX` cannot be counted.
pub open spec fn countable(source: Seq<char>) -> bool {
    let ls = lines(source);
    forall|i: int|
        1 <= i < ls.len() && #[trigger] targets_line(ls[i]) ==> line_target(ls[i])->0
            < usize::MAX
}

/// Every count is below `k`.
pub open spec fn all_below(cs: Seq<CountsModel>, k: nat) -> bool {
    forall|j: int|
        0 <= j < cs.len() ==> {
            &&& (#[trigger] cs[j]).speed < k
            &&& cs[j].alpha < k
            &&& cs[j].move_x < k
            &&& cs[j].move_y < k
            &&& cs[j].rotate < k
            &&& cs[j].notes < k
        }
}

proof fn lemma_count_line_bound(prev: (Seq<CountsModel>, nat), line: Seq<char>, k: nat)
    requires
        all_below(prev.0, k),
        k >= 1,
    ensures
        all_below(count_line(prev, line).0, k + 1),
{
    let t = tokens(line);
    if t.len() > 0 && !is_bp(t[0]) && targets_line(line) {
        let id = line_target(line)->0;
        let e = ensured(prev.0, id);
        assert forall|j: int| 0 <= j < e.len() implies {
            &&& (#[trigger] e[j]).speed < k
            &&& e[j].alpha < k
            &&& e[j].move_x < k
            &&& e[j].move_y < k
            &&& e[j].rotate < k
            &&& e[j].notes < k
        } by {
            if j >= prev.0.len() {
                assert(e[j] == zero_counts());
            } else {
                assert(e[j] == prev.0[j]);
            }
        }
        assert(all_below(e, k));
    }
}

fn is_two(cmd: &Vec<char>, a: char, b: char) -> (r: bool)
    ensures
        r == (cmd@ =~= seq![a, b]),
{
    cmd.len() == 2 && cmd[0] == a && cmd[1] == b
}

/// Counts, per judge line, the events and notes that a PEC source declares, and
/// the number of BPM lines, so that the parser can reserve room for them.
pub fn count_events(source: &str) -> (r: (Vec<EventCounts>, usize))
    requires
        countable(source@),
    ensures
        models(r.0@) == count_source(source@).0,
        r.1 == count_source(source@).1,
{
    let chars = chars_of(source);
    let ls = split_lines(chars.as_slice());
    let ghost sl = lines(source@);
    let mut counts: Vec<EventCounts> = Vec::new();
    let mut bpm_count: usize = 0;
    let n = ls.len();
    if n == 0 {
        return (counts, bpm_count);
    }
    let mut i: usize = 1;
    while i < n
        invariant
            1 <= i <= n,
            n == ls@.len(),
            seqs_of(ls@) == sl,
            sl == lines(source@),
            countable(source@),
            models(counts@) == count_lines(sl.subrange(1, i as int)).0,
            bpm_count == count_lines(sl.subrange(1, i as int)).1,
            bpm_count < i,
            all_below(models(counts@), i as nat),
        decreases n - i,
    {
        let ghost line = sl[i as int];
        let ghost prev = (models(counts@), bpm_count as nat);
        proof {
            assert(sl.subrange(1, i + 1).drop_last() =~= sl.subrange(1, i as int));
            assert(sl.subrange(1, i + 1).last() == line);
            assert(ls@[i as int]@ == line);
        }
        let t = split_tokens(ls[i].as_slice());
        proof {
            assert(seqs_of(t@) == tokens(line));
        }
        if t.len() == 0 {
        } else if is_two(&t[0], 'b', 'p') {
            bpm_count = bpm_count + 1;
        } else if t.len() >= 2 && t[0].len() == 2 && ((t[0][0] == 'n' && t[0][1] as u32 >= 49 && t[0][1] as u32 <= 52) || (t[0][0] == 'c' && (t[0][1] as u32) < 128)) {
            proof {
                assert(t@[0]@ == tokens(line)[0]);
                assert(t@[1]@ == tokens(line)[1]);
            }
            match parse_usize(t[1].as_slice()) {
                Some(id) => {
                    proof {
                        assert(targets_line(line));
                        assert(targets_line(sl[i as int]));
                    }
                    let ghost e = ensured(prev.0, id as nat);
                    let kind = t[0][1];
                    let is_note = t[0][0] == 'n';
                    let c = ensure_counts(&mut counts, id);
                    if is_note {
                        c.notes = c.notes + 1;
                    } else if kind == 'v' {
                        c.speed_events = c.speed_events + 1;
                    } else if kind == 'p' || kind == 'm' {
                        c.move_x_events = c.move_x_events + 1;
                        c.move_y_events = c.move_y_events + 1;
                    } else if kind == 'd' || kind == 'r' {
                        c.rotate_events = c.rotate_events + 1;
                    } else if kind == 'a' || kind == 'f' {
                        c.alpha_events = c.alpha_events + 1;
                    }
                    proof {
                        assert(models(counts@) =~= count_line(prev, line).0);
                    }
                },
                None => {},
            }
        }
        proof {
            assert(models(counts@) =~= count_line(prev, line).0);
            lemma_count_line_bound(prev, line, i as nat);
        }
        i = i + 1;
    }
    proof {
        assert(sl.subrange(1, n as int) =~= sl.drop_first());
    }
    (counts, bpm_count)
}

} // verus!

verus! {

/// What an event of kind `kind` adds to field `k` of a count (see
/// [`crate::pec_parse::field`]).
pub open spec fn kind_adds(kind: char, k: int) -> nat {
    if (k == 0 && kind == 'v') || (k == 1 && (kind == 'a' || kind == 'f')) || ((k == 2 || k == 3)
        && (kind == 'p' || kind == 'm')) || (k == 4 && (kind == 'd' || kind == 'r')) {
        1
    } else {
        0
    }
}

/// What one line adds to field `k` of the counts of judge line `id`: a note line
/// adds a note, an event line an event of its kind, to the line it names.
pub open spec fn line_adds(line: Seq<char>, id: nat, k: int) -> nat {
    let t = tokens(line);
    if t.len() > 0 && targets_line(line) && line_target(line)->0 == id {
        if is_note_cmd(t[0]) {
            if k == 5 { 1 } else { 0 }
        } else {
            kind_adds(t[0][1], k)
        }
    } else {
        0
    }
}

/// What the lines add to field `k` of judge line `id`.
pub open spec fn lines_add(ls: Seq<Seq<char>>, id: nat, k: int) -> nat
    decreases ls.len(),
{
    if ls.len() == 0 {
        0
    } else {
        lines_add(ls.drop_last(), id, k) + line_adds(ls.last(), id, k)
    }
}

/// How many of the lines are `bp` lines.
pub open spec fn bp_lines(ls: Seq<Seq<char>>) -> nat
    decreases ls.len(),
{
    if ls.len() == 0 {
        0
    } else {
        bp_lines(ls.drop_last()) + if tokens(ls.last()).len() > 0 && is_bp(tokens(ls.last())[0]) {
            1nat
        } else {
            0nat
        }
    }
}

/// One more than the largest judge line the lines name, or 0 when they name none.
pub open spec fn span(ls: Seq<Seq<char>>) -> nat
    decreases ls.len(),
{
    if ls.len() == 0 {
        0
    } else {
        let s = span(ls.drop_last());
        if targets_line(ls.last()) && line_target(ls.last())->0 + 1 > s {
            line_target(ls.last())->0 + 1
        } else {
            s
        }
    }
}

proof fn lemma_count_lines_tally(ls: Seq<Seq<char>>, id: nat, k: int)
    requires
        0 <= k < 6,
    ensures
        crate::pec_parse::field_at(count_lines(ls).0, id, k) == lines_add(ls, id, k),
        count_lines(ls).1 == bp_lines(ls),
        count_lines(ls).0.len() == span(ls),
    decreases ls.len(),
{
    if ls.len() > 0 {
        let d = ls.drop_last();
        let line = ls.last();
        lemma_count_lines_tally(d, id, k);
        let st = count_lines(d);
        let t = tokens(line);
        if t.len() > 0 && !is_bp(t[0]) && targets_line(line) {
            let tid = line_target(line)->0;
            let e = ensured(st.0, tid);
            assert(crate::pec_parse::field_at(e, id, k) == crate::pec_parse::field_at(st.0, id, k));
        }
    }
}

/// The counts of a chart, entry by entry: each judge line's notes and events of
/// each kind are the note and event lines past the first that name it, the BPM
/// count is the number of `bp` lines, and there is one entry for every judge line
/// up to the largest one named.
pub proof fn law_counts_per_line(source: Seq<char>, id: nat, k: int)
    requires
        lines(source).len() > 0,
        0 <= k < 6,
    ensures
        ({
            let body = lines(source).drop_first();
            let c = count_source(source);
            &&& crate::pec_parse::field_at(c.0, id, k) == lines_add(body, id, k)
            &&& c.1 == bp_lines(body)
            &&& c.0.len() == span(body)
        }),
{
    lemma_count_lines_tally(lines(source).drop_first(), id, k);
}

} // verus!
