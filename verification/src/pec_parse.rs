use vstd::prelude::*;
use crate::text::{
    chars_of, split_lines, split_tokens, parse_usize, parse_unsigned_bounded, lines, tokens,
    parse_unsigned, seqs_of, is_float_literal, is_float_token, string_from_chars,
};
use crate::pec::{is_bp, is_note_cmd, is_event_cmd};

verus! {

/// What an argument of a PEC command has to be.
#[derive(Clone, Copy, Debug, PartialEq, Eq, Structural)]
pub enum ArgKind {
    F32,
    F64,
    Usize,
    Tween,
}

/// Why a PEC chart was refused.
#[derive(Clone, Copy, Debug, PartialEq, Eq, Structural)]
pub enum PecErrorKind {
    /// The line ended where an argument of this kind was expected.
    Missing(ArgKind),
    /// An argument does not read as this kind.
    Malformed(ArgKind),
    /// A `bp` line after the first note or event.
    BpmAfterNotes,
    /// A `#` or `&` line before any note.
    NoNotesInserted,
    /// The fake flag of a note is neither 0 nor 1.
    Expected01,
    /// The command word is not known; the error's token holds it.
    UnknownCommand,
    /// A line holds more than its command reads; the error's token is the first such word.
    UnexpectedExtra,
}

/// A refused PEC chart: the line (counted from 1) and the reason.
#[derive(Debug)]
pub struct PecError {
    pub line: usize,
    pub kind: PecErrorKind,
    /// The unknown command or the extra word; empty for the other kinds.
    pub token: String,
}

/// The command of one line of a PEC chart.
#[derive(Clone, Copy, Debug, PartialEq, Eq, Structural)]
pub enum PecOp {
    /// `bp beat bpm`
    Bpm,
    /// `n1 line time x above fake`
    Click,
    /// `n2 line time end x above fake`
    Hold,
    /// `n3 line time x above fake`
    Flick,
    /// `n4 line time x above fake`
    Drag,
    /// `# speed`: the speed of the last note.
    NoteSpeed,
    /// `& size`: the size of the last note.
    NoteSize,
    /// `cv line time speed`
    SetSpeed,
    /// `cp line time x y`
    SetPosition,
    /// `cd line time angle`
    SetRotation,
    /// `ca line time alpha`
    SetAlpha,
    /// `cm line time end x y tween`
    MovePosition,
    /// `cr line time end angle tween`
    MoveRotation,
    /// `cf line time end alpha`
    MoveAlpha,
}

/// One command of a PEC chart. Numbers that the chart gives as floating-point
/// values are kept as their text, which is known to read as such a value.
#[derive(Debug)]
pub struct PecCommand {
    pub op: PecOp,
    /// The judge line that a note or event command names; 0 for the others.
    pub line: usize,
    /// The floating-point arguments, in the order of the line (see [`PecOp`]).
    pub args: Vec<String>,
    /// Whether a note falls from above the line.
    pub above: bool,
    /// Whether a note is fake.
    pub fake: bool,
    /// The entry of the RPE easing table for `cm` and `cr`; 0 (linear) otherwise.
    pub tween: u8,
    /// The speed that a note line sets with a trailing `# speed`.
    pub speed: Option<String>,
    /// The size that a note line sets with a trailing `& size`.
    pub size: Option<String>,
}

/// A PEC chart read into commands: the offset line and the command lines in order.
#[derive(Debug)]
pub struct PecScript {
    pub offset: String,
    pub commands: Vec<PecCommand>,
}

/// The mathematical value of a [`PecCommand`].
pub struct CommandModel {
    pub op: PecOp,
    pub line: nat,
    pub args: Seq<Seq<char>>,
    pub above: bool,
    pub fake: bool,
    pub tween: nat,
    pub speed: Option<Seq<char>>,
    pub size: Option<Seq<char>>,
}

pub open spec fn opt_view(o: Option<String>) -> Option<Seq<char>> {
    match o {
        Some(s) => Some(s@),
        None => None,
    }
}

pub open spec fn strings_view(v: Seq<String>) -> Seq<Seq<char>> {
    v.map_values(|s: String| s@)
}

impl View for PecCommand {
    type V = CommandModel;

    open spec fn view(&self) -> CommandModel {
        CommandModel {
            op: self.op,
            line: self.line as nat,
            args: strings_view(self.args@),
            above: self.above,
            fake: self.fake,
            tween: self.tween as nat,
            speed: opt_view(self.speed),
            size: opt_view(self.size),
        }
    }
}

pub open spec fn commands_view(v: Seq<PecCommand>) -> Seq<CommandModel> {
    v.map_values(|c: PecCommand| c@)
}

/// What one line of a PEC chart (past the first) amounts to.
pub enum LineModel {
    /// A blank line.
    Skip,
    Cmd(CommandModel),
    /// A refused line: the reason and the token that the error names.
    Fail(PecErrorKind, Seq<char>),
}

pub open spec fn arg_ok(t: Seq<char>, k: ArgKind) -> bool {
    match k {
        ArgKind::F32 => is_float_literal(t),
        ArgKind::F64 => is_float_literal(t),
        ArgKind::Usize => parse_unsigned(t, usize::MAX as nat) is Some,
        ArgKind::Tween => parse_unsigned(t, 255) is Some,
    }
}

/// The first of the arguments `sig`, read from `ts[start..]` in order, that is
/// missing or malformed.
pub open spec fn sig_error(ts: Seq<Seq<char>>, start: int, sig: Seq<ArgKind>) -> Option<PecErrorKind>
    decreases sig.len(),
{
    if sig.len() == 0 {
        None
    } else if start >= ts.len() {
        Some(PecErrorKind::Missing(sig[0]))
    } else if !arg_ok(ts[start], sig[0]) {
        Some(PecErrorKind::Malformed(sig[0]))
    } else {
        sig_error(ts, start + 1, sig.drop_first())
    }
}

pub open spec fn usize_of(t: Seq<char>) -> nat {
    parse_unsigned(t, usize::MAX as nat)->0
}

/// The entry of the RPE easing table that a tween number selects: numbers past
/// the table select its first entry.
pub open spec fn tween_index(t: Seq<char>) -> nat {
    let v = parse_unsigned(t, 255)->0;
    if v < 30 {
        v
    } else {
        0
    }
}

pub open spec fn note_sig(hold: bool) -> Seq<ArgKind> {
    if hold {
        seq![ArgKind::Usize, ArgKind::F64, ArgKind::F64, ArgKind::F32, ArgKind::Usize, ArgKind::Usize]
    } else {
        seq![ArgKind::Usize, ArgKind::F64, ArgKind::F32, ArgKind::Usize, ArgKind::Usize]
    }
}

pub open spec fn note_op(digit: char) -> PecOp {
    if digit == '1' {
        PecOp::Click
    } else if digit == '2' {
        PecOp::Hold
    } else if digit == '3' {
        PecOp::Flick
    } else {
        PecOp::Drag
    }
}

/// The command and the further arguments of an event line `c<kind> line time ...`.
pub open spec fn event_sig(kind: char) -> Option<(PecOp, Seq<ArgKind>)> {
    if kind == 'v' {
        Some((PecOp::SetSpeed, seq![ArgKind::F64]))
    } else if kind == 'p' {
        Some((PecOp::SetPosition, seq![ArgKind::F32, ArgKind::F32]))
    } else if kind == 'd' {
        Some((PecOp::SetRotation, seq![ArgKind::F32]))
    } else if kind == 'a' {
        Some((PecOp::SetAlpha, seq![ArgKind::F32]))
    } else if kind == 'm' {
        Some((PecOp::MovePosition, seq![ArgKind::F64, ArgKind::F32, ArgKind::F32, ArgKind::Tween]))
    } else if kind == 'r' {
        Some((PecOp::MoveRotation, seq![ArgKind::F64, ArgKind::F32, ArgKind::Tween]))
    } else if kind == 'f' {
        Some((PecOp::MoveAlpha, seq![ArgKind::F64, ArgKind::F32]))
    } else {
        None
    }
}

pub open spec fn has_tween(op: PecOp) -> bool {
    op == PecOp::MovePosition || op == PecOp::MoveRotation
}

/// Nothing may follow position `k`.
pub open spec fn no_extra<T>(ts: Seq<Seq<char>>, k: int, v: T) -> Result<T, (PecErrorKind, Seq<char>)> {
    if k < ts.len() {
        Err((PecErrorKind::UnexpectedExtra, ts[k]))
    } else {
        Ok(v)
    }
}

/// The optional `& size` of a note line at position `k`. A word there other than
/// `&` is passed over.
pub open spec fn size_tail(ts: Seq<Seq<char>>, k: int, speed: Option<Seq<char>>) -> Result<
    (Option<Seq<char>>, Option<Seq<char>>),
    (PecErrorKind, Seq<char>),
> {
    if k < ts.len() && ts[k] == seq!['&'] {
        match sig_error(ts, k + 1, seq![ArgKind::F32]) {
            Some(e) => Err((e, Seq::empty())),
            None => no_extra(ts, k + 2, (speed, Some(ts[k + 1]))),
        }
    } else if k < ts.len() {
        no_extra(ts, k + 1, (speed, None))
    } else {
        Ok((speed, None))
    }
}

/// The optional `# speed` of a note line at position `k`, then the rest. A word
/// there other than `#` is passed over.
pub open spec fn note_tail(ts: Seq<Seq<char>>, k: int) -> Result<
    (Option<Seq<char>>, Option<Seq<char>>),
    (PecErrorKind, Seq<char>),
> {
    if k < ts.len() && ts[k] == seq!['#'] {
        match sig_error(ts, k + 1, seq![ArgKind::F64]) {
            Some(e) => Err((e, Seq::empty())),
            None => size_tail(ts, k + 2, Some(ts[k + 1])),
        }
    } else if k < ts.len() {
        size_tail(ts, k + 1, None)
    } else {
        Ok((None, None))
    }
}

pub open spec fn plain_cmd(op: PecOp, line: nat, args: Seq<Seq<char>>, tween: nat) -> CommandModel {
    CommandModel { op, line, args, above: false, fake: false, tween, speed: None, size: None }
}

pub open spec fn bpm_line(ts: Seq<Seq<char>>, locked: bool) -> LineModel {
    if locked {
        LineModel::Fail(PecErrorKind::BpmAfterNotes, Seq::empty())
    } else {
        match sig_error(ts, 1, seq![ArgKind::F64, ArgKind::F64]) {
            Some(e) => LineModel::Fail(e, Seq::empty()),
            None => match no_extra(ts, 3, ()) {
                Err((e, t)) => LineModel::Fail(e, t),
                Ok(_) => LineModel::Cmd(plain_cmd(PecOp::Bpm, 0, ts.subrange(1, 3), 0)),
            },
        }
    }
}

pub open spec fn note_line(ts: Seq<Seq<char>>) -> LineModel {
    let digit = ts[0][1];
    let hold = digit == '2';
    let s: int = if hold { 1 } else { 0 };
    match sig_error(ts, 1, note_sig(hold)) {
        Some(e) => LineModel::Fail(e, Seq::empty()),
        None => {
            let fake = usize_of(ts[5 + s]);
            if fake > 1 {
                LineModel::Fail(PecErrorKind::Expected01, Seq::empty())
            } else {
                match note_tail(ts, 6 + s) {
                    Err((e, t)) => LineModel::Fail(e, t),
                    Ok((speed, size)) => LineModel::Cmd(
                        CommandModel {
                            op: note_op(digit),
                            line: usize_of(ts[1]),
                            args: ts.subrange(2, 4 + s),
                            above: usize_of(ts[4 + s]) == 1,
                            fake: fake == 1,
                            tween: 0,
                            speed,
                            size,
                        },
                    ),
                }
            }
        },
    }
}

pub open spec fn speed_line(ts: Seq<Seq<char>>, has_note: bool) -> LineModel {
    match sig_error(ts, 1, seq![ArgKind::F64]) {
        Some(e) => LineModel::Fail(e, Seq::empty()),
        None => if !has_note {
            LineModel::Fail(PecErrorKind::NoNotesInserted, Seq::empty())
        } else {
            match no_extra(ts, 2, ()) {
                Err((e, t)) => LineModel::Fail(e, t),
                Ok(_) => LineModel::Cmd(plain_cmd(PecOp::NoteSpeed, 0, ts.subrange(1, 2), 0)),
            }
        },
    }
}

pub open spec fn size_line(ts: Seq<Seq<char>>, has_note: bool) -> LineModel {
    if !has_note {
        LineModel::Fail(PecErrorKind::NoNotesInserted, Seq::empty())
    } else {
        match sig_error(ts, 1, seq![ArgKind::F32]) {
            Some(e) => LineModel::Fail(e, Seq::empty()),
            None => match no_extra(ts, 2, ()) {
                Err((e, t)) => LineModel::Fail(e, t),
                Ok(_) => LineModel::Cmd(plain_cmd(PecOp::NoteSize, 0, ts.subrange(1, 2), 0)),
            },
        }
    }
}

pub open spec fn event_line(ts: Seq<Seq<char>>) -> LineModel {
    match sig_error(ts, 1, seq![ArgKind::Usize, ArgKind::F64]) {
        Some(e) => LineModel::Fail(e, Seq::empty()),
        None => match event_sig(ts[0][1]) {
            None => LineModel::Fail(PecErrorKind::UnknownCommand, ts[0]),
            Some((op, ks)) => match sig_error(ts, 3, ks) {
                Some(e) => LineModel::Fail(e, Seq::empty()),
                None => match no_extra(ts, 3 + ks.len() as int, ()) {
                    Err((e, t)) => LineModel::Fail(e, t),
                    Ok(_) => {
                        let nf: int = if has_tween(op) { ks.len() - 1 } else { ks.len() as int };
                        LineModel::Cmd(
                            plain_cmd(
                                op,
                                usize_of(ts[1]),
                                ts.subrange(2, 3 + nf),
                                if has_tween(op) { tween_index(ts[3 + nf]) } else { 0 },
                            ),
                        )
                    },
                },
            },
        },
    }
}

/// What a line past the first amounts to, given whether a note or event came
/// before (which closes the BPM list) and whether a note came before.
#[verifier::opaque]
pub open spec fn parse_line(ts: Seq<Seq<char>>, locked: bool, has_note: bool) -> LineModel {
    if ts.len() == 0 {
        LineModel::Skip
    } else if is_bp(ts[0]) {
        bpm_line(ts, locked)
    } else if is_note_cmd(ts[0]) {
        note_line(ts)
    } else if ts[0] == seq!['#'] {
        speed_line(ts, has_note)
    } else if ts[0] == seq!['&'] {
        size_line(ts, has_note)
    } else if is_event_cmd(ts[0]) {
        event_line(ts)
    } else {
        LineModel::Fail(PecErrorKind::UnknownCommand, ts[0])
    }
}

pub open spec fn is_note_op(op: PecOp) -> bool {
    op == PecOp::Click || op == PecOp::Hold || op == PecOp::Flick || op == PecOp::Drag
}

/// Whether a command closes the BPM list.
pub open spec fn locks_bpm(op: PecOp) -> bool {
    op != PecOp::Bpm && op != PecOp::NoteSpeed && op != PecOp::NoteSize
}

/// The commands of lines `i..` of a chart, or the first refusal among them with
/// its line number counted from 1.
pub open spec fn parse_from(ls: Seq<Seq<char>>, i: int, locked: bool, has_note: bool) -> Result<
    Seq<CommandModel>,
    (int, PecErrorKind, Seq<char>),
>
    decreases ls.len() - i,
{
    if i < 0 || i >= ls.len() {
        Ok(seq![])
    } else {
        match parse_line(tokens(ls[i]), locked, has_note) {
            LineModel::Skip => parse_from(ls, i + 1, locked, has_note),
            LineModel::Fail(e, t) => Err((i + 1, e, t)),
            LineModel::Cmd(c) => match parse_from(
                ls,
                i + 1,
                locked || locks_bpm(c.op),
                has_note || is_note_op(c.op),
            ) {
                Ok(cs) => Ok(seq![c] + cs),
                Err(e) => Err(e),
            },
        }
    }
}

/// The first line of a chart: its offset, alone.
pub open spec fn offset_line(ts: Seq<Seq<char>>) -> Result<Seq<char>, (PecErrorKind, Seq<char>)> {
    match sig_error(ts, 0, seq![ArgKind::F64]) {
        Some(e) => Err((e, Seq::empty())),
        None => no_extra(ts, 1, ts[0]),
    }
}

/// A whole PEC chart: the offset and the commands, or the first refusal.
pub open spec fn pec_script(source: Seq<char>) -> Result<
    (Seq<char>, Seq<CommandModel>),
    (int, PecErrorKind, Seq<char>),
> {
    let ls = lines(source);
    match offset_line(tokens(ls[0])) {
        Err((e, t)) => Err((1, e, t)),
        Ok(offset) => match parse_from(ls, 1, false, false) {
            Ok(cs) => Ok((offset, cs)),
            Err(e) => Err(e),
        },
    }
}

} // verus!

verus! {

/// What one line read to.
enum LineOutcome {
    Skip,
    Cmd(PecCommand),
    Fail(PecErrorKind, Vec<char>),
}

spec fn outcome_view(o: LineOutcome) -> LineModel {
    match o {
        LineOutcome::Skip => LineModel::Skip,
        LineOutcome::Cmd(c) => LineModel::Cmd(c@),
        LineOutcome::Fail(e, t) => LineModel::Fail(e, t@),
    }
}

spec fn tail_view(r: Result<(Option<String>, Option<String>), (PecErrorKind, Vec<char>)>) -> Result<
    (Option<Seq<char>>, Option<Seq<char>>),
    (PecErrorKind, Seq<char>),
> {
    match r {
        Ok((a, b)) => Ok((opt_view(a), opt_view(b))),
        Err((e, t)) => Err((e, t@)),
    }
}

fn arg_check(ts: &Vec<Vec<char>>, i: usize, k: ArgKind) -> (r: Option<PecErrorKind>)
    ensures
        r == (if i >= ts@.len() {
            Some(PecErrorKind::Missing(k))
        } else if !arg_ok(ts@[i as int]@, k) {
            Some(PecErrorKind::Malformed(k))
        } else {
            None::<PecErrorKind>
        }),
{
    if i >= ts.len() {
        return Some(PecErrorKind::Missing(k));
    }
    let t = ts[i].as_slice();
    let ok = match k {
        ArgKind::F32 => is_float_token(t),
        ArgKind::F64 => is_float_token(t),
        ArgKind::Usize => parse_usize(t).is_some(),
        ArgKind::Tween => parse_unsigned_bounded(t, 255).is_some(),
    };
    if ok {
        None
    } else {
        Some(PecErrorKind::Malformed(k))
    }
}

fn sig_check(ts: &Vec<Vec<char>>, start: usize, sig: &Vec<ArgKind>) -> (r: Option<PecErrorKind>)
    requires
        start <= ts@.len(),
    ensures
        r == sig_error(seqs_of(ts@), start as int, sig@),
{
    let ghost tv = seqs_of(ts@);
    let n = sig.len();
    let tl = ts.len();
    let mut j: usize = 0;
    assert(sig@.skip(0) =~= sig@);
    while j < n
        invariant
            j <= n,
            tl == ts@.len(),
            n == sig@.len(),
            start + j <= ts@.len(),
            tv == seqs_of(ts@),
            sig_error(tv, start as int, sig@) == sig_error(tv, start + j, sig@.skip(j as int)),
        decreases n - j,
    {
        let e = arg_check(ts, start + j, sig[j]);
        proof {
            let rest = sig@.skip(j as int);
            assert(rest[0] == sig@[j as int]);
            assert(rest.drop_first() =~= sig@.skip(j + 1));
        }
        match e {
            Some(k) => {
                return Some(k);
            },
            None => {},
        }
        j = j + 1;
    }
    proof {
        assert(sig@.skip(n as int) =~= Seq::<ArgKind>::empty());
    }
    None
}

fn tok_is(t: &Vec<char>, c: char) -> (r: bool)
    ensures
        r == (t@ == seq![c]),
{
    let r = t.len() == 1 && t[0] == c;
    proof {
        if t@.len() == 1 && t@[0] == c {
            assert(t@ =~= seq![c]);
        }
    }
    r
}

fn copy_token(t: &Vec<char>) -> (r: Vec<char>)
    ensures
        r@ == t@,
{
    let r = crate::text::slice_vec(t.as_slice(), 0, t.len());
    proof {
        assert(t@.subrange(0, t@.len() as int) =~= t@);
    }
    r
}

fn string_of(t: &Vec<char>) -> (r: String)
    ensures
        r@ == t@,
{
    string_from_chars(t.as_slice())
}

/// The tokens `ts[s..e]` as strings.
fn strings_of(ts: &Vec<Vec<char>>, s: usize, e: usize) -> (r: Vec<String>)
    requires
        s <= e <= ts@.len(),
    ensures
        strings_view(r@) == seqs_of(ts@).subrange(s as int, e as int),
{
    let mut r: Vec<String> = Vec::new();
    let mut i = s;
    while i < e
        invariant
            s <= i <= e,
            e <= ts@.len(),
            strings_view(r@) == seqs_of(ts@).subrange(s as int, i as int),
        decreases e - i,
    {
        let x = string_of(&ts[i]);
        let ghost before = r@;
        r.push(x);
        proof {
            assert(r@ =~= before.push(x));
            assert(strings_view(r@) =~= strings_view(before).push(x@));
            assert(seqs_of(ts@).subrange(s as int, i + 1) =~= seqs_of(ts@).subrange(
                s as int,
                i as int,
            ).push(ts@[i as int]@));
        }
        i = i + 1;
    }
    r
}

fn usize_value(t: &Vec<char>) -> (r: usize)
    requires
        parse_unsigned(t@, usize::MAX as nat) is Some,
    ensures
        r as nat == usize_of(t@),
{
    parse_usize(t.as_slice()).unwrap()
}

fn tween_value(t: &Vec<char>) -> (r: u8)
    requires
        parse_unsigned(t@, 255) is Some,
    ensures
        r as nat == tween_index(t@),
{
    let v = parse_unsigned_bounded(t.as_slice(), 255).unwrap();
    if v < 30 {
        v as u8
    } else {
        0
    }
}

fn extra_check(ts: &Vec<Vec<char>>, k: usize) -> (r: Option<Vec<char>>)
    ensures
        match r {
            Some(t) => k < ts@.len() && t@ == ts@[k as int]@,
            None => k >= ts@.len(),
        },
{
    if k < ts.len() {
        Some(copy_token(&ts[k]))
    } else {
        None
    }
}

fn size_tail_exec(ts: &Vec<Vec<char>>, k: usize, speed: Option<String>) -> (r: Result<
    (Option<String>, Option<String>),
    (PecErrorKind, Vec<char>),
>)
    requires
        k <= ts@.len(),
    ensures
        tail_view(r) == size_tail(seqs_of(ts@), k as int, opt_view(speed)),
{
    let n = ts.len();
    if k < n && tok_is(&ts[k], '&') {
        let sig = vec![ArgKind::F32];
        assert(sig@ =~= seq![ArgKind::F32]);
        match sig_check(ts, k + 1, &sig) {
            Some(e) => {
                return Err((e, Vec::new()));
            },
            None => {},
        }
        proof {
            lemma_sig_ok(seqs_of(ts@), k + 1, sig@);
        }
        let size = string_of(&ts[k + 1]);
        match extra_check(ts, k + 2) {
            Some(t) => Err((PecErrorKind::UnexpectedExtra, t)),
            None => Ok((speed, Some(size))),
        }
    } else if k < n {
        match extra_check(ts, k + 1) {
            Some(t) => Err((PecErrorKind::UnexpectedExtra, t)),
            None => Ok((speed, None)),
        }
    } else {
        Ok((speed, None))
    }
}

fn note_tail_exec(ts: &Vec<Vec<char>>, k: usize) -> (r: Result<
    (Option<String>, Option<String>),
    (PecErrorKind, Vec<char>),
>)
    requires
        k <= ts@.len(),
    ensures
        tail_view(r) == note_tail(seqs_of(ts@), k as int),
{
    let n = ts.len();
    if k < n && tok_is(&ts[k], '#') {
        let sig = vec![ArgKind::F64];
        assert(sig@ =~= seq![ArgKind::F64]);
        match sig_check(ts, k + 1, &sig) {
            Some(e) => {
                return Err((e, Vec::new()));
            },
            None => {},
        }
        proof {
            lemma_sig_ok(seqs_of(ts@), k + 1, sig@);
        }
        let speed = string_of(&ts[k + 1]);
        size_tail_exec(ts, k + 2, Some(speed))
    } else if k < n {
        size_tail_exec(ts, k + 1, None)
    } else {
        Ok((None, None))
    }
}

fn plain_command(op: PecOp, line: usize, args: Vec<String>, tween: u8) -> (r: PecCommand)
    ensures
        r@ == plain_cmd(op, line as nat, strings_view(args@), tween as nat),
{
    PecCommand { op, line, args, above: false, fake: false, tween, speed: None, size: None }
}

fn bpm_line_exec(ts: &Vec<Vec<char>>, locked: bool) -> (r: LineOutcome)
    requires
        ts@.len() > 0,
    ensures
        outcome_view(r) == bpm_line(seqs_of(ts@), locked),
{
    if locked {
        return LineOutcome::Fail(PecErrorKind::BpmAfterNotes, Vec::new());
    }
    let sig = vec![ArgKind::F64, ArgKind::F64];
    assert(sig@ =~= seq![ArgKind::F64, ArgKind::F64]);
    let e = sig_check(ts, 1, &sig);
    proof {
        if e is None {
            lemma_sig_ok(seqs_of(ts@), 1, sig@);
        }
    }
    match e {
        Some(e) => LineOutcome::Fail(e, Vec::new()),
        None => match extra_check(ts, 3) {
            Some(t) => LineOutcome::Fail(PecErrorKind::UnexpectedExtra, t),
            None => LineOutcome::Cmd(plain_command(PecOp::Bpm, 0, strings_of(ts, 1, 3), 0)),
        },
    }
}

fn note_line_exec(ts: &Vec<Vec<char>>) -> (r: LineOutcome)
    requires
        ts@.len() > 0,
        is_note_cmd(ts@[0]@),
    ensures
        outcome_view(r) == note_line(seqs_of(ts@)),
{
    let ghost tv = seqs_of(ts@);
    let digit = ts[0][1];
    let hold = digit == '2';
    let s: usize = if hold { 1 } else { 0 };
    let sig = if hold {
        vec![ArgKind::Usize, ArgKind::F64, ArgKind::F64, ArgKind::F32, ArgKind::Usize, ArgKind::Usize]
    } else {
        vec![ArgKind::Usize, ArgKind::F64, ArgKind::F32, ArgKind::Usize, ArgKind::Usize]
    };
    assert(sig@ == note_sig(hold));
    match sig_check(ts, 1, &sig) {
        Some(e) => {
            return LineOutcome::Fail(e, Vec::new());
        },
        None => {},
    }
    proof {
        lemma_sig_ok(tv, 1, sig@);
    }
    let fake = usize_value(&ts[5 + s]);
    if fake > 1 {
        return LineOutcome::Fail(PecErrorKind::Expected01, Vec::new());
    }
    let line = usize_value(&ts[1]);
    let above = usize_value(&ts[4 + s]) == 1;
    let op = if digit == '1' {
        PecOp::Click
    } else if digit == '2' {
        PecOp::Hold
    } else if digit == '3' {
        PecOp::Flick
    } else {
        PecOp::Drag
    };
    match note_tail_exec(ts, 6 + s) {
        Err((e, t)) => LineOutcome::Fail(e, t),
        Ok((speed, size)) => {
            let args = strings_of(ts, 2, 4 + s);
            LineOutcome::Cmd(
                PecCommand { op, line, args, above, fake: fake == 1, tween: 0, speed, size },
            )
        },
    }
}

/// When no argument of `sig` fails, each is there and reads as its kind.
proof fn lemma_sig_ok(ts: Seq<Seq<char>>, start: int, sig: Seq<ArgKind>)
    requires
        sig_error(ts, start, sig) is None,
    ensures
        start + sig.len() <= ts.len() || sig.len() == 0,
        forall|j: int| 0 <= j < sig.len() ==> arg_ok(ts[start + j], #[trigger] sig[j]),
    decreases sig.len(),
{
    if sig.len() > 0 {
        lemma_sig_ok(ts, start + 1, sig.drop_first());
        assert forall|j: int| 0 <= j < sig.len() implies arg_ok(ts[start + j], #[trigger] sig[j]) by {
            if j > 0 {
                assert(sig[j] == sig.drop_first()[j - 1]);
            }
        }
    }
}

fn speed_line_exec(ts: &Vec<Vec<char>>, has_note: bool) -> (r: LineOutcome)
    requires
        ts@.len() > 0,
    ensures
        outcome_view(r) == speed_line(seqs_of(ts@), has_note),
{
    let sig = vec![ArgKind::F64];
    assert(sig@ =~= seq![ArgKind::F64]);
    let e = sig_check(ts, 1, &sig);
    proof {
        if e is None {
            lemma_sig_ok(seqs_of(ts@), 1, sig@);
        }
    }
    match e {
        Some(e) => LineOutcome::Fail(e, Vec::new()),
        None => if !has_note {
            LineOutcome::Fail(PecErrorKind::NoNotesInserted, Vec::new())
        } else {
            match extra_check(ts, 2) {
                Some(t) => LineOutcome::Fail(PecErrorKind::UnexpectedExtra, t),
                None => LineOutcome::Cmd(
                    plain_command(PecOp::NoteSpeed, 0, strings_of(ts, 1, 2), 0),
                ),
            }
        },
    }
}

fn size_line_exec(ts: &Vec<Vec<char>>, has_note: bool) -> (r: LineOutcome)
    requires
        ts@.len() > 0,
    ensures
        outcome_view(r) == size_line(seqs_of(ts@), has_note),
{
    if !has_note {
        return LineOutcome::Fail(PecErrorKind::NoNotesInserted, Vec::new());
    }
    let sig = vec![ArgKind::F32];
    assert(sig@ =~= seq![ArgKind::F32]);
    let e = sig_check(ts, 1, &sig);
    proof {
        if e is None {
            lemma_sig_ok(seqs_of(ts@), 1, sig@);
        }
    }
    match e {
        Some(e) => LineOutcome::Fail(e, Vec::new()),
        None => match extra_check(ts, 2) {
            Some(t) => LineOutcome::Fail(PecErrorKind::UnexpectedExtra, t),
            None => LineOutcome::Cmd(plain_command(PecOp::NoteSize, 0, strings_of(ts, 1, 2), 0)),
        },
    }
}

fn event_sig_exec(kind: char) -> (r: Option<(PecOp, Vec<ArgKind>)>)
    ensures
        match r {
            Some((op, ks)) => event_sig(kind) == Some((op, ks@)),
            None => event_sig(kind) is None,
        },
{
    if kind == 'v' {
        Some((PecOp::SetSpeed, vec![ArgKind::F64]))
    } else if kind == 'p' {
        Some((PecOp::SetPosition, vec![ArgKind::F32, ArgKind::F32]))
    } else if kind == 'd' {
        Some((PecOp::SetRotation, vec![ArgKind::F32]))
    } else if kind == 'a' {
        Some((PecOp::SetAlpha, vec![ArgKind::F32]))
    } else if kind == 'm' {
        Some((PecOp::MovePosition, vec![ArgKind::F64, ArgKind::F32, ArgKind::F32, ArgKind::Tween]))
    } else if kind == 'r' {
        Some((PecOp::MoveRotation, vec![ArgKind::F64, ArgKind::F32, ArgKind::Tween]))
    } else if kind == 'f' {
        Some((PecOp::MoveAlpha, vec![ArgKind::F64, ArgKind::F32]))
    } else {
        None
    }
}

fn event_line_exec(ts: &Vec<Vec<char>>) -> (r: LineOutcome)
    requires
        ts@.len() > 0,
        is_event_cmd(ts@[0]@),
    ensures
        outcome_view(r) == event_line(seqs_of(ts@)),
{
    let ghost tv = seqs_of(ts@);
    let head = vec![ArgKind::Usize, ArgKind::F64];
    assert(head@ =~= seq![ArgKind::Usize, ArgKind::F64]);
    match sig_check(ts, 1, &head) {
        Some(e) => {
            return LineOutcome::Fail(e, Vec::new());
        },
        None => {},
    }
    proof {
        lemma_sig_ok(tv, 1, head@);
    }
    let (op, ks) = match event_sig_exec(ts[0][1]) {
        None => {
            return LineOutcome::Fail(PecErrorKind::UnknownCommand, copy_token(&ts[0]));
        },
        Some(x) => x,
    };
    match sig_check(ts, 3, &ks) {
        Some(e) => {
            return LineOutcome::Fail(e, Vec::new());
        },
        None => {},
    }
    proof {
        lemma_sig_ok(tv, 3, ks@);
    }
    match extra_check(ts, 3 + ks.len()) {
        Some(t) => {
            return LineOutcome::Fail(PecErrorKind::UnexpectedExtra, t);
        },
        None => {},
    }
    let line = usize_value(&ts[1]);
    let tween = op == PecOp::MovePosition || op == PecOp::MoveRotation;
    let nf: usize = if tween { ks.len() - 1 } else { ks.len() };
    let tw: u8 = if tween {
        proof {
            assert(ks@[nf as int] == ArgKind::Tween);
        }
        tween_value(&ts[3 + nf])
    } else {
        0
    };
    LineOutcome::Cmd(plain_command(op, line, strings_of(ts, 2, 3 + nf), tw))
}

fn parse_line_exec(ts: &Vec<Vec<char>>, locked: bool, has_note: bool) -> (r: LineOutcome)
    ensures
        outcome_view(r) == parse_line(seqs_of(ts@), locked, has_note),
{
    proof {
        reveal(parse_line);
    }
    if ts.len() == 0 {
        return LineOutcome::Skip;
    }
    let cmd = &ts[0];
    let c0 = if cmd.len() > 0 { cmd[0] } else { ' ' };
    let c1 = if cmd.len() > 1 { cmd[1] } else { ' ' };
    proof {
        assert(seqs_of(ts@)[0] == cmd@);
    }
    if cmd.len() == 2 && c0 == 'b' && c1 == 'p' {
        proof {
            assert(cmd@ =~= seq!['b', 'p']);
        }
        bpm_line_exec(ts, locked)
    } else if cmd.len() == 2 && c0 == 'n' && 49 <= c1 as u32 && c1 as u32 <= 52 {
        note_line_exec(ts)
    } else if tok_is(cmd, '#') {
        speed_line_exec(ts, has_note)
    } else if tok_is(cmd, '&') {
        size_line_exec(ts, has_note)
    } else if cmd.len() == 2 && c0 == 'c' && (c1 as u32) < 128 {
        event_line_exec(ts)
    } else {
        proof {
            assert(!(cmd@ =~= seq!['b', 'p']));
        }
        LineOutcome::Fail(PecErrorKind::UnknownCommand, copy_token(cmd))
    }
}

} // verus!

verus! {

/// `done` followed by the commands of `rest`, or the refusal in `rest`.
pub open spec fn join(
    done: Seq<CommandModel>,
    rest: Result<Seq<CommandModel>, (int, PecErrorKind, Seq<char>)>,
) -> Result<Seq<CommandModel>, (int, PecErrorKind, Seq<char>)> {
    match rest {
        Ok(cs) => Ok(done + cs),
        Err(e) => Err(e),
    }
}

/// Reads a PEC chart into its offset and commands, or gives the first line that
/// is refused and why. A chart that has no line at all is not accepted.
pub fn parse_pec(source: &str) -> (r: Result<PecScript, PecError>)
    requires
        lines(source@).len() > 0,
    ensures
        match r {
            Ok(s) => pec_script(source@) == Ok::<_, (int, PecErrorKind, Seq<char>)>(
                (s.offset@, commands_view(s.commands@)),
            ),
            Err(e) => pec_script(source@) == Err::<(Seq<char>, Seq<CommandModel>), _>(
                (e.line as int, e.kind, e.token@),
            ),
        },
{
    let chars = chars_of(source);
    let ls = split_lines(chars.as_slice());
    let ghost sl = lines(source@);
    let n = ls.len();
    let t0 = split_tokens(ls[0].as_slice());
    proof {
        assert(seqs_of(t0@) == tokens(sl[0]));
    }
    let sig = vec![ArgKind::F64];
    assert(sig@ =~= seq![ArgKind::F64]);
    match sig_check(&t0, 0, &sig) {
        Some(e) => {
            return Err(PecError { line: 1, kind: e, token: String::new() });
        },
        None => {},
    }
    proof {
        lemma_sig_ok(seqs_of(t0@), 0, sig@);
    }
    match extra_check(&t0, 1) {
        Some(t) => {
            return Err(
                PecError { line: 1, kind: PecErrorKind::UnexpectedExtra, token: string_of(&t) },
            );
        },
        None => {},
    }
    let offset = string_of(&t0[0]);
    assert(offset_line(tokens(sl[0])) == Ok::<_, (PecErrorKind, Seq<char>)>(offset@));
    assert(parse_from(sl, 1, false, false) == join(Seq::empty(), parse_from(sl, 1, false, false))) by {
        match parse_from(sl, 1, false, false) {
            Ok(cs) => {
                assert(Seq::<CommandModel>::empty() + cs =~= cs);
            },
            Err(_) => {},
        }
    }
    let mut commands: Vec<PecCommand> = Vec::new();
    let mut locked = false;
    let mut has_note = false;
    let mut i: usize = 1;
    while i < n
        invariant
            1 <= i <= n,
            n == ls@.len(),
            seqs_of(ls@) == sl,
            sl == lines(source@),
            offset_line(tokens(sl[0])) == Ok::<_, (PecErrorKind, Seq<char>)>(offset@),
            parse_from(sl, 1, false, false) == join(
                commands_view(commands@),
                parse_from(sl, i as int, locked, has_note),
            ),
        decreases n - i,
    {
        let ts = split_tokens(ls[i].as_slice());
        proof {
            assert(seqs_of(ts@) == tokens(sl[i as int]));
        }
        let ghost done = commands_view(commands@);
        match parse_line_exec(&ts, locked, has_note) {
            LineOutcome::Skip => {},
            LineOutcome::Fail(e, t) => {
                return Err(PecError { line: i + 1, kind: e, token: string_of(&t) });
            },
            LineOutcome::Cmd(c) => {
                let ghost cv = c@;
                let op = c.op;
                commands.push(c);
                proof {
                    assert(commands_view(commands@) =~= done.push(cv));
                    let rest = parse_from(
                        sl,
                        i + 1,
                        locked || locks_bpm(op),
                        has_note || is_note_op(op),
                    );
                    match rest {
                        Ok(cs) => {
                            assert(done + (seq![cv] + cs) =~= done.push(cv) + cs);
                        },
                        Err(_) => {},
                    }
                }
                locked = locked || (op != PecOp::Bpm && op != PecOp::NoteSpeed && op
                    != PecOp::NoteSize);
                has_note = has_note || op == PecOp::Click || op == PecOp::Hold || op
                    == PecOp::Flick || op == PecOp::Drag;
            },
        }
        i = i + 1;
    }
    proof {
        assert(commands_view(commands@) + seq![] =~= commands_view(commands@));
    }
    Ok(PecScript { offset, commands })
}

} // verus!

verus! {

/// Field `k` of a count: speed, alpha, move X, move Y, rotate events, then notes.
pub open spec fn field(c: crate::pec::CountsModel, k: int) -> nat {
    if k == 0 {
        c.speed
    } else if k == 1 {
        c.alpha
    } else if k == 2 {
        c.move_x
    } else if k == 3 {
        c.move_y
    } else if k == 4 {
        c.rotate
    } else {
        c.notes
    }
}

/// Field `k` of the counts of judge line `id` (zero past the counted lines).
pub open spec fn field_at(cs: Seq<crate::pec::CountsModel>, id: nat, k: int) -> nat {
    if id < cs.len() {
        field(cs[id as int], k)
    } else {
        0
    }
}

/// Whether a command adds to field `k` of the counts of the line it names.
pub open spec fn adds_to(op: PecOp, k: int) -> nat {
    if (k == 0 && op == PecOp::SetSpeed) || (k == 1 && (op == PecOp::SetAlpha || op
        == PecOp::MoveAlpha)) || ((k == 2 || k == 3) && (op == PecOp::SetPosition || op
        == PecOp::MovePosition)) || (k == 4 && (op == PecOp::SetRotation || op
        == PecOp::MoveRotation)) || (k == 5 && is_note_op(op)) {
        1
    } else {
        0
    }
}

/// How much the commands add to field `k` of line `id`.
pub open spec fn line_tally(cmds: Seq<CommandModel>, id: nat, k: int) -> nat
    decreases cmds.len(),
{
    if cmds.len() == 0 {
        0
    } else {
        (if cmds[0].line == id { adds_to(cmds[0].op, k) } else { 0 }) + line_tally(
            cmds.drop_first(),
            id,
            k,
        )
    }
}

/// How many BPM commands there are.
pub open spec fn bpm_tally(cmds: Seq<CommandModel>) -> nat
    decreases cmds.len(),
{
    if cmds.len() == 0 {
        0
    } else {
        (if cmds[0].op == PecOp::Bpm { 1nat } else { 0nat }) + bpm_tally(cmds.drop_first())
    }
}

/// The counts after lines `i..`, starting from `st`, in order.
pub open spec fn count_from(
    ls: Seq<Seq<char>>,
    i: int,
    st: (Seq<crate::pec::CountsModel>, nat),
) -> (Seq<crate::pec::CountsModel>, nat)
    decreases ls.len() - i,
{
    if i < 0 || i >= ls.len() {
        st
    } else {
        count_from(ls, i + 1, crate::pec::count_line(st, ls[i]))
    }
}

/// How many judge lines a command needs counted: one past the line a note or
/// event command names, none for the others.
pub open spec fn line_need(c: CommandModel) -> nat {
    if locks_bpm(c.op) {
        c.line + 1
    } else {
        0
    }
}

pub open spec fn max_nat(a: nat, b: nat) -> nat {
    if a < b {
        b
    } else {
        a
    }
}

/// One past the largest judge line the commands name, or 0 when they name none.
pub open spec fn cmd_span(cmds: Seq<CommandModel>) -> nat
    decreases cmds.len(),
{
    if cmds.len() == 0 {
        0
    } else {
        max_nat(line_need(cmds[0]), cmd_span(cmds.drop_first()))
    }
}

proof fn lemma_ensured_fields(cs: Seq<crate::pec::CountsModel>, id: nat, j: nat, k: int)
    ensures
        field_at(crate::pec::ensured(cs, id), j, k) == field_at(cs, j, k),
        crate::pec::ensured(cs, id).len() > id,
{
}

/// A line that reads as a command adds to the counts just what the command names.
proof fn lemma_line_counts(
    st: (Seq<crate::pec::CountsModel>, nat),
    line: Seq<char>,
    locked: bool,
    has_note: bool,
    id: nat,
    k: int,
)
    requires
        !(parse_line(tokens(line), locked, has_note) is Fail),
        0 <= k < 6,
    ensures
        ({
            let n = crate::pec::count_line(st, line);
            match parse_line(tokens(line), locked, has_note) {
                LineModel::Cmd(c) => {
                    &&& n.1 == st.1 + if c.op == PecOp::Bpm { 1nat } else { 0nat }
                    &&& field_at(n.0, id, k) == field_at(st.0, id, k) + if c.line == id {
                        adds_to(c.op, k)
                    } else {
                        0
                    }
                    &&& n.0.len() == max_nat(st.0.len(), line_need(c))
                },
                _ => n == st,
            }
        }),
{
    reveal(parse_line);
    let ts = tokens(line);
    let n = crate::pec::count_line(st, line);
    if ts.len() == 0 {
    } else if is_bp(ts[0]) {
    } else if is_note_cmd(ts[0]) {
        let hold = ts[0][1] == '2';
        lemma_sig_ok(ts, 1, note_sig(hold));
        assert(note_sig(hold)[0] == ArgKind::Usize);
        assert(arg_ok(ts[1], ArgKind::Usize));
        let tid = crate::pec::line_target(line)->0;
        assert(tid == usize_of(ts[1]));
        lemma_ensured_fields(st.0, tid, id, k);
        let e = crate::pec::ensured(st.0, tid);
        if id == tid {
            assert(field_at(e, id, k) == field_at(st.0, id, k));
        } else {
            assert(field_at(n.0, id, k) == field_at(e, id, k));
        }
    } else if ts[0] == seq!['#'] || ts[0] == seq!['&'] {
        assert(!is_event_cmd(ts[0]));
        assert(!crate::pec::targets_line(line));
    } else if is_event_cmd(ts[0]) {
        lemma_sig_ok(ts, 1, seq![ArgKind::Usize, ArgKind::F64]);
        assert(arg_ok(ts[1], seq![ArgKind::Usize, ArgKind::F64][0]));
        let tid = crate::pec::line_target(line)->0;
        assert(tid == usize_of(ts[1]));
        lemma_ensured_fields(st.0, tid, id, k);
        let e = crate::pec::ensured(st.0, tid);
        if id == tid {
            assert(field_at(e, id, k) == field_at(st.0, id, k));
        } else {
            assert(field_at(n.0, id, k) == field_at(e, id, k));
        }
    }
}

proof fn lemma_count_from_tally(
    ls: Seq<Seq<char>>,
    i: int,
    locked: bool,
    has_note: bool,
    st: (Seq<crate::pec::CountsModel>, nat),
    id: nat,
    k: int,
)
    requires
        0 <= i,
        parse_from(ls, i, locked, has_note) is Ok,
        0 <= k < 6,
    ensures
        ({
            let cs = parse_from(ls, i, locked, has_note)->Ok_0;
            let n = count_from(ls, i, st);
            &&& n.1 == st.1 + bpm_tally(cs)
            &&& field_at(n.0, id, k) == field_at(st.0, id, k) + line_tally(cs, id, k)
            &&& n.0.len() == max_nat(st.0.len(), cmd_span(cs))
        }),
    decreases ls.len() - i,
{
    if i < ls.len() {
        let line = ls[i];
        lemma_line_counts(st, line, locked, has_note, id, k);
        let next = crate::pec::count_line(st, line);
        match parse_line(tokens(line), locked, has_note) {
            LineModel::Skip => {
                lemma_count_from_tally(ls, i + 1, locked, has_note, next, id, k);
            },
            LineModel::Cmd(c) => {
                let l2 = locked || locks_bpm(c.op);
                let h2 = has_note || is_note_op(c.op);
                lemma_count_from_tally(ls, i + 1, l2, h2, next, id, k);
                let rest = parse_from(ls, i + 1, l2, h2)->Ok_0;
                let cs = seq![c] + rest;
                assert(cs.drop_first() =~= rest);
            },
            LineModel::Fail(_, _) => {},
        }
    }
}

proof fn lemma_count_front_back(ls: Seq<Seq<char>>, i: int)
    requires
        1 <= i <= ls.len(),
    ensures
        count_from(ls, i, crate::pec::count_lines(ls.subrange(1, i))) == crate::pec::count_lines(
            ls.subrange(1, ls.len() as int),
        ),
    decreases ls.len() - i,
{
    if i < ls.len() {
        let p = ls.subrange(1, i + 1);
        assert(p.drop_last() =~= ls.subrange(1, i));
        assert(p.last() == ls[i]);
        lemma_count_front_back(ls, i + 1);
    }
}

/// For a chart that reads, the counts made in advance to size the parse hold
/// exactly what the parse finds: one BPM for each `bp` command, on each judge
/// line as many notes and events of each kind as its commands name, and one entry
/// for every judge line up to the largest one a command names.
pub proof fn law_counts_match_commands(source: Seq<char>, id: nat, k: int)
    requires
        lines(source).len() > 0,
        pec_script(source) is Ok,
        0 <= k < 6,
    ensures
        ({
            let cs = pec_script(source)->Ok_0.1;
            let counted = crate::pec::count_source(source);
            &&& counted.1 == bpm_tally(cs)
            &&& field_at(counted.0, id, k) == line_tally(cs, id, k)
            &&& counted.0.len() == cmd_span(cs)
        }),
{
    let ls = lines(source);
    let cs = parse_from(ls, 1, false, false)->Ok_0;
    assert(ls.subrange(1, 1) =~= Seq::<Seq<char>>::empty());
    let st0: (Seq<crate::pec::CountsModel>, nat) = (seq![], 0);
    assert(crate::pec::count_lines(ls.subrange(1, 1)) == st0);
    lemma_count_front_back(ls, 1);
    assert(ls.subrange(1, ls.len() as int) =~= ls.drop_first());
    lemma_count_from_tally(ls, 1, false, false, st0, id, k);
}

} // verus!

verus! {

/// A note line's command digit fixes the kind of its note, as the PEC format
/// defines it: `n1` a click, `n2` a hold, `n3` a flick, `n4` a drag.
pub proof fn law_note_kinds(ts: Seq<Seq<char>>, locked: bool, has_note: bool)
    requires
        parse_line(ts, locked, has_note) is Cmd,
        ts.len() > 0,
        ts[0].len() == 2,
        ts[0][0] == 'n',
    ensures
        ({
            let op = parse_line(ts, locked, has_note)->Cmd_0.op;
            let d = ts[0][1];
            &&& d == '1' ==> op == PecOp::Click
            &&& d == '2' ==> op == PecOp::Hold
            &&& d == '3' ==> op == PecOp::Flick
            &&& d == '4' ==> op == PecOp::Drag
        }),
{
    reveal(parse_line);
    let d = ts[0][1];
    if d == '1' || d == '2' || d == '3' || d == '4' {
        assert(is_note_cmd(ts[0]));
        assert(!is_bp(ts[0]));
    }
}

} // verus!
