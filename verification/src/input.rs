use vstd::prelude::*;
use crate::text::{chars_of, string_from_chars};

verus! {

/// The phase of a touch or pointer event.
#[derive(Clone, Copy, Debug, PartialEq, Eq, Structural)]
pub enum TouchPhase {
    Started,
    Moved,
    Stationary,
    Ended,
    Cancelled,
}

/// A single- or multi-line text box edited in place: a buffer, a cursor between
/// characters, and an optional selection anchor.
pub struct InlineInputBox {
    buffer: Vec<char>,
    multiline: bool,
    active: bool,
    cursor: usize,
    selection_anchor: Option<usize>,
}

/// The abstract state of an [`InlineInputBox`].
pub struct EditModel {
    pub buffer: Seq<char>,
    pub cursor: nat,
    pub anchor: Option<nat>,
    pub multiline: bool,
    pub active: bool,
}

impl View for InlineInputBox {
    type V = EditModel;

    closed spec fn view(&self) -> EditModel {
        EditModel {
            buffer: self.buffer@,
            cursor: self.cursor as nat,
            anchor: match self.selection_anchor {
                Some(a) => Some(a as nat),
                None => None,
            },
            multiline: self.multiline,
            active: self.active,
        }
    }
}

pub open spec fn min_nat(a: nat, b: nat) -> nat {
    if a <= b { a } else { b }
}

pub open spec fn max_nat(a: nat, b: nat) -> nat {
    if a <= b { b } else { a }
}

/// A well-formed box keeps its cursor within the buffer. The anchor may lie past
/// the end (it survives a cancel); every use of it is clamped to the buffer.
pub open spec fn model_wf(m: EditModel) -> bool {
    m.cursor <= m.buffer.len()
}

/// The selected character range, ordered.
pub open spec fn selection(m: EditModel) -> Option<(nat, nat)> {
    match m.anchor {
        Some(a) => Some((min_nat(a, m.cursor), max_nat(a, m.cursor))),
        None => None,
    }
}

/// `b` with the characters `s..e` (clamped to `b`) replaced by `t`.
pub open spec fn splice(b: Seq<char>, s: nat, e: nat, t: Seq<char>) -> Seq<char> {
    let sc = min_nat(s, b.len());
    let ec = max_nat(sc, min_nat(e, b.len()));
    b.take(sc as int) + t + b.skip(ec as int)
}

/// The state after deleting the selection, if there is one.
pub open spec fn delete_selection_model(m: EditModel) -> EditModel {
    match selection(m) {
        Some((s, e)) => EditModel {
            buffer: splice(m.buffer, s, e, Seq::empty()),
            cursor: s,
            anchor: None,
            ..m
        },
        None => m,
    }
}

/// The anchor after a cursor movement: with shift held a selection starts at the
/// cursor unless one is already anchored; without shift the selection is dropped.
pub open spec fn shifted_anchor(m: EditModel, shift: bool) -> Option<nat> {
    if shift {
        if m.anchor is None { Some(m.cursor) } else { m.anchor }
    } else {
        None
    }
}

/// The text of `m` with `t` typed in at the cursor, replacing the selection.
pub open spec fn type_model(m: EditModel, t: Seq<char>) -> EditModel {
    let d = delete_selection_model(m);
    EditModel {
        buffer: splice(d.buffer, d.cursor, d.cursor, t),
        cursor: d.cursor + t.len(),
        ..d
    }
}

/// Unicode control characters (general category `Cc`), as `char::is_control` documents.
pub open spec fn is_control_char(c: char) -> bool {
    let u = c as u32;
    u <= 0x1F || (0x7F <= u && u <= 0x9F)
}

/// The index of the last newline before position `k`.
pub open spec fn last_nl(b: Seq<char>, k: nat) -> Option<nat>
    decreases k,
{
    if k == 0 {
        None
    } else if b[k - 1] == '\n' {
        Some((k - 1) as nat)
    } else {
        last_nl(b, (k - 1) as nat)
    }
}

/// The index of the first newline at or after position `k`.
pub open spec fn first_nl(b: Seq<char>, k: nat) -> Option<nat>
    decreases b.len() - k,
{
    if k >= b.len() {
        None
    } else if b[k as int] == '\n' {
        Some(k)
    } else {
        first_nl(b, k + 1)
    }
}

/// The start of the line that holds position `k`.
pub open spec fn line_start(b: Seq<char>, k: nat) -> nat {
    match last_nl(b, k) {
        Some(p) => p + 1,
        None => 0,
    }
}

/// The end of the line that holds position `k` (its newline, or the end of the text).
pub open spec fn line_end(b: Seq<char>, k: nat) -> nat {
    match first_nl(b, k) {
        Some(r) => r,
        None => b.len(),
    }
}

/// The number of bytes of the UTF-8 encoding of `c`.
pub open spec fn utf8_len(c: char) -> nat {
    let u = c as u32;
    if u < 0x80 {
        1
    } else if u < 0x800 {
        2
    } else if u < 0x10000 {
        3
    } else {
        4
    }
}

/// The number of bytes of the UTF-8 encoding of `s`.
pub open spec fn byte_len(s: Seq<char>) -> nat
    decreases s.len(),
{
    if s.len() == 0 {
        0
    } else {
        byte_len(s.drop_last()) + utf8_len(s.last())
    }
}

/// How many characters of `b` start before byte offset `t`.
pub open spec fn chars_below(b: Seq<char>, t: nat) -> nat
    decreases b.len(),
{
    if b.len() == 0 {
        0
    } else {
        chars_below(b.drop_last(), t) + if byte_len(b.drop_last()) < t { 1nat } else { 0nat }
    }
}

/// Where the cursor goes on Up: the same byte column of the previous line,
/// clamped to that line's length, or nowhere on the first line.
pub open spec fn up_target(b: Seq<char>, c: nat) -> Option<nat> {
    match last_nl(b, c) {
        None => None,
        Some(p) => {
            let col = byte_len(b.subrange((p + 1) as int, c as int));
            let ps = line_start(b, p);
            let prev_len = byte_len(b.subrange(ps as int, p as int));
            Some(chars_below(b, byte_len(b.take(ps as int)) + min_nat(col, prev_len)))
        },
    }
}

/// The end of the line after the cursor's line, in bytes; when it is the last
/// line the character count of the whole text stands in its place.
pub open spec fn next_line_end(b: Seq<char>, r: nat) -> nat {
    match first_nl(b, r + 1) {
        Some(e) => byte_len(b.take(e as int)),
        None => b.len(),
    }
}

/// Down is defined unless that stand-in falls before the next line's start.
pub open spec fn down_defined(b: Seq<char>, c: nat) -> bool {
    match first_nl(b, c) {
        None => true,
        Some(r) => next_line_end(b, r) >= byte_len(b.take((r + 1) as int)),
    }
}

/// Where the cursor goes on Down: the same byte column of the next line,
/// clamped to that line's length, or nowhere on the last line.
pub open spec fn down_target(b: Seq<char>, c: nat) -> Option<nat> {
    match first_nl(b, c) {
        None => None,
        Some(r) => {
            let col = byte_len(b.take(c as int)) - byte_len(b.take(line_start(b, c) as int));
            let nls = byte_len(b.take((r + 1) as int));
            let nll = next_line_end(b, r) - nls;
            Some(chars_below(b, (nls + min_nat(col as nat, nll as nat)) as nat))
        },
    }
}

} // verus!

verus! {

pub proof fn lemma_byte_len_concat(a: Seq<char>, b: Seq<char>)
    ensures
        byte_len(a + b) == byte_len(a) + byte_len(b),
    decreases b.len(),
{
    if b.len() > 0 {
        lemma_byte_len_concat(a, b.drop_last());
        assert((a + b).drop_last() =~= a + b.drop_last());
    } else {
        assert(a + b =~= a);
    }
}

/// Bytes of a prefix split at `j`.
pub proof fn lemma_byte_len_split(b: Seq<char>, j: int, k: int)
    requires
        0 <= j <= k <= b.len(),
    ensures
        byte_len(b.take(k)) == byte_len(b.take(j)) + byte_len(b.subrange(j, k)),
        byte_len(b.take(j)) <= byte_len(b.take(k)),
        j < k ==> byte_len(b.take(j)) < byte_len(b.take(k)),
{
    assert(b.take(k) =~= b.take(j) + b.subrange(j, k));
    lemma_byte_len_concat(b.take(j), b.subrange(j, k));
    if j < k {
        let s = b.subrange(j, k);
        assert(s.drop_last() + seq![s.last()] =~= s);
        lemma_byte_len_concat(s.drop_last(), seq![s.last()]);
        assert(seq![s.last()].drop_last() =~= Seq::<char>::empty());
    }
}

pub proof fn lemma_chars_below(b: Seq<char>, t: nat, k: int)
    requires
        0 <= k <= b.len(),
        forall|j: int| 0 <= j < k ==> byte_len(#[trigger] b.take(j)) < t,
        k == b.len() || byte_len(b.take(k)) >= t,
    ensures
        chars_below(b, t) == k,
    decreases b.len(),
{
    if b.len() > 0 {
        let d = b.drop_last();
        let n = b.len() as int;
        assert forall|j: int| 0 <= j < k && j <= n - 1 implies byte_len(#[trigger] d.take(j))
            < t by {
            assert(d.take(j) =~= b.take(j));
        }
        assert(d =~= b.take(n - 1));
        if k == n {
            assert(byte_len(b.take(n - 1)) < t);
            lemma_chars_below(d, t, n - 1);
            assert(d.take(n - 1) =~= d);
        } else {
            assert(d.take(k) =~= b.take(k));
            lemma_chars_below(d, t, k);
            lemma_byte_len_split(b, k, n - 1);
        }
    }
}

pub proof fn lemma_last_nl_bound(b: Seq<char>, k: nat)
    ensures
        last_nl(b, k) matches Some(p) ==> p < k && b[p as int] == '\n',
    decreases k,
{
    if k > 0 {
        lemma_last_nl_bound(b, (k - 1) as nat);
    }
}

pub proof fn lemma_first_nl_bound(b: Seq<char>, k: nat)
    ensures
        first_nl(b, k) matches Some(r) ==> k <= r < b.len() && b[r as int] == '\n',
    decreases b.len() - k,
{
    if k < b.len() {
        lemma_first_nl_bound(b, k + 1);
    }
}

fn utf8_width(c: char) -> (r: u128)
    ensures
        r == utf8_len(c),
{
    let u = c as u32;
    if u < 0x80 {
        1
    } else if u < 0x800 {
        2
    } else if u < 0x10000 {
        3
    } else {
        4
    }
}

/// The UTF-8 byte offset of character position `k`.
fn prefix_bytes(b: &Vec<char>, k: usize) -> (r: u128)
    requires
        k <= b@.len(),
    ensures
        r == byte_len(b@.take(k as int)),
        r <= 4 * k,
{
    let mut acc: u128 = 0;
    for i in 0..k
        invariant
            k <= b@.len(),
            acc == byte_len(b@.take(i as int)),
            acc <= 4 * i,
    {
        proof {
            assert(b@.take(i + 1).drop_last() =~= b@.take(i as int));
        }
        acc = acc + utf8_width(b[i]);
    }
    acc
}

/// How many characters start before byte offset `t`.
fn count_below(b: &Vec<char>, t: u128) -> (r: usize)
    ensures
        r == chars_below(b@, t as nat),
        r <= b@.len(),
{
    let n = b.len();
    let mut k: usize = 0;
    let mut off: u128 = 0;
    while k < n && off < t
        invariant
            k <= n,
            n == b@.len(),
            off == byte_len(b@.take(k as int)),
            off <= 4 * k,
            forall|j: int| 0 <= j < k ==> byte_len(#[trigger] b@.take(j)) < t,
        decreases n - k,
    {
        proof {
            assert(b@.take(k + 1).drop_last() =~= b@.take(k as int));
            assert forall|j: int| 0 <= j < k + 1 implies byte_len(#[trigger] b@.take(j)) < t by {
                if j == k {
                } else {
                }
            }
        }
        off = off + utf8_width(b[k]);
        k = k + 1;
    }
    proof {
        lemma_chars_below(b@, t as nat, k as int);
    }
    k
}

fn find_last_nl(b: &Vec<char>, k: usize) -> (r: Option<usize>)
    requires
        k <= b@.len(),
    ensures
        r matches Some(p) ==> last_nl(b@, k as nat) == Some(p as nat),
        r is None ==> last_nl(b@, k as nat) is None,
{
    let mut i = k;
    while i > 0
        invariant
            i <= k <= b@.len(),
            last_nl(b@, k as nat) == last_nl(b@, i as nat),
        decreases i,
    {
        if b[i - 1] == '\n' {
            return Some(i - 1);
        }
        i = i - 1;
    }
    None
}

fn find_first_nl(b: &Vec<char>, k: usize) -> (r: Option<usize>)
    requires
        k <= b@.len(),
    ensures
        r matches Some(p) ==> first_nl(b@, k as nat) == Some(p as nat),
        r is None ==> first_nl(b@, k as nat) is None,
{
    let n = b.len();
    let mut i = k;
    while i < n
        invariant
            k <= i <= n,
            n == b@.len(),
            first_nl(b@, k as nat) == first_nl(b@, i as nat),
        decreases n - i,
    {
        if b[i] == '\n' {
            return Some(i);
        }
        i = i + 1;
    }
    None
}

/// `b[..s] + t + b[e..]`, with `s` and `e` clamped as in [`splice`].
fn splice_vec(b: &Vec<char>, s: usize, e: usize, t: &[char]) -> (r: Vec<char>)
    ensures
        r@ == splice(b@, s as nat, e as nat, t@),
{
    let n = b.len();
    let sc = if s <= n { s } else { n };
    let ec0 = if e <= n { e } else { n };
    let ec = if sc <= ec0 { ec0 } else { sc };
    let mut r: Vec<char> = Vec::new();
    for i in 0..sc
        invariant
            sc <= n,
            n == b@.len(),
            r@ == b@.take(i as int),
    {
        r.push(b[i]);
        proof {
            assert(b@.take(i + 1) =~= b@.take(i as int).push(b@[i as int]));
        }
    }
    let ghost pre = r@;
    for i in 0..t.len()
        invariant
            r@ == pre + t@.take(i as int),
    {
        r.push(t[i]);
        proof {
            assert(t@.take(i + 1) =~= t@.take(i as int).push(t@[i as int]));
        }
    }
    proof {
        assert(t@.take(t@.len() as int) =~= t@);
    }
    let ghost mid = r@;
    for i in ec..n
        invariant
            ec <= n,
            n == b@.len(),
            r@ == mid + b@.subrange(ec as int, i as int),
    {
        r.push(b[i]);
        proof {
            assert(b@.subrange(ec as int, i + 1) =~= b@.subrange(ec as int, i as int).push(
                b@[i as int],
            ));
        }
    }
    proof {
        assert(b@.subrange(ec as int, n as int) =~= b@.skip(ec as int));
        assert(pre =~= b@.take(sc as int));
    }
    r
}

} // verus!

verus! {

impl InlineInputBox {
    /// The cursor lies within the text.
    pub open spec fn wf(&self) -> bool {
        model_wf(self@)
    }

    /// An inactive, empty, single-line box.
    pub fn new() -> (r: InlineInputBox)
        ensures
            r.wf(),
            r@ == (EditModel {
                buffer: Seq::empty(),
                cursor: 0,
                anchor: None,
                multiline: false,
                active: false,
            }),
    {
        InlineInputBox {
            buffer: Vec::new(),
            multiline: false,
            active: false,
            cursor: 0,
            selection_anchor: None,
        }
    }

    /// Starts editing `initial`, with the cursor after its last character. The
    /// selection anchor is left as it was.
    pub fn activate(&mut self, initial: &str, multiline: bool)
        ensures
            final(self).wf(),
            final(self)@ == (EditModel {
                buffer: initial@,
                cursor: initial@.len(),
                anchor: old(self)@.anchor,
                multiline,
                active: true,
            }),
    {
        self.active = true;
        self.buffer = chars_of(initial);
        self.multiline = multiline;
        self.cursor = self.buffer.len();
    }

    pub fn is_active(&self) -> (r: bool)
        ensures
            r == self@.active,
    {
        self.active
    }

    pub fn is_multiline(&self) -> (r: bool)
        ensures
            r == self@.multiline,
    {
        self.multiline
    }

    pub fn cursor(&self) -> (r: usize)
        ensures
            r == self@.cursor,
    {
        self.cursor
    }

    /// Stops editing and drops the text; the anchor is left as it was.
    pub fn cancel(&mut self)
        ensures
            final(self).wf(),
            final(self)@ == (EditModel {
                buffer: Seq::empty(),
                cursor: 0,
                active: false,
                ..old(self)@
            }),
    {
        self.active = false;
        self.buffer = Vec::new();
        self.cursor = 0;
    }

    /// Stops editing and hands out the text, leaving the box empty.
    pub fn confirm(&mut self) -> (r: String)
        ensures
            final(self).wf(),
            r@ == old(self)@.buffer,
            final(self)@ == (EditModel {
                buffer: Seq::empty(),
                cursor: 0,
                active: false,
                ..old(self)@
            }),
    {
        self.active = false;
        self.cursor = 0;
        let r = string_from_chars(self.buffer.as_slice());
        self.buffer = Vec::new();
        r
    }

    /// The whole text.
    pub fn text(&self) -> (r: String)
        ensures
            r@ == self@.buffer,
    {
        string_from_chars(self.buffer.as_slice())
    }

    /// The text before the cursor.
    pub fn text_before(&self) -> (r: String)
        requires
            self.wf(),
        ensures
            r@ == self@.buffer.take(self@.cursor as int),
    {
        let v = splice_vec(&self.buffer, self.cursor, self.buffer.len(), &[]);
        proof {
            assert(v@ =~= self@.buffer.take(self@.cursor as int));
        }
        string_from_chars(v.as_slice())
    }

    /// The selected range of characters, ordered.
    pub fn selection_range(&self) -> (r: Option<(usize, usize)>)
        ensures
            r matches Some((s, e)) ==> selection(self@) == Some((s as nat, e as nat)),
            r is None ==> selection(self@) is None,
    {
        match self.selection_anchor {
            Some(anchor) => {
                let start = if anchor <= self.cursor { anchor } else { self.cursor };
                let end = if anchor <= self.cursor { self.cursor } else { anchor };
                Some((start, end))
            },
            None => None,
        }
    }

    /// The selected text, clamped to the buffer.
    pub fn selected_text(&self) -> (r: Option<String>)
        ensures
            r is Some <==> selection(self@) is Some,
            r matches Some(t) ==> ({
                let (s, e) = selection(self@)->0;
                let b = self@.buffer;
                t@ == b.subrange(
                    min_nat(s, b.len()) as int,
                    max_nat(min_nat(s, b.len()), min_nat(e, b.len())) as int,
                )
            }),
    {
        match self.selection_range() {
            Some((start, end)) => {
                let n = self.buffer.len();
                let sc = if start <= n { start } else { n };
                let ec = if end <= n { end } else { n };
                let ec = if sc <= ec { ec } else { sc };
                let before = splice_vec(&self.buffer, ec, n, &[]);
                let v = splice_vec(&before, 0, sc, &[]);
                proof {
                    assert(before@ =~= self@.buffer.take(ec as int));
                    assert(v@ =~= self@.buffer.subrange(sc as int, ec as int));
                }
                Some(string_from_chars(v.as_slice()))
            },
            None => None,
        }
    }

    /// Deletes the selected text, if any, and moves the cursor to where it
    /// started; returns whether there was a selection.
    pub fn delete_selection(&mut self) -> (r: bool)
        requires
            old(self).wf(),
        ensures
            final(self).wf(),
            r == (selection(old(self)@) is Some),
            final(self)@ == delete_selection_model(old(self)@),
    {
        match self.selection_range() {
            Some((start, end)) => {
                let b = splice_vec(&self.buffer, start, end, &[]);
                self.buffer = b;
                self.cursor = start;
                self.selection_anchor = None;
                proof {
                    assert(self@.buffer =~= splice(old(self)@.buffer, start as nat, end as nat, Seq::empty()));
                }
                true
            },
            None => false,
        }
    }
}

} // verus!

verus! {

/// Right arrow: moves one character right, extending or dropping the selection.
pub open spec fn right_model(m: EditModel, shift: bool) -> EditModel {
    EditModel {
        anchor: shifted_anchor(m, shift),
        cursor: if m.cursor < m.buffer.len() { m.cursor + 1 } else { m.cursor },
        ..m
    }
}

/// Left arrow: moves one character left, extending or dropping the selection.
pub open spec fn left_model(m: EditModel, shift: bool) -> EditModel {
    EditModel {
        anchor: shifted_anchor(m, shift),
        cursor: if m.cursor > 0 { (m.cursor - 1) as nat } else { m.cursor },
        ..m
    }
}

/// Up arrow: only a multi-line box reacts.
pub open spec fn up_model(m: EditModel, shift: bool) -> EditModel {
    if !m.multiline {
        m
    } else {
        EditModel {
            anchor: shifted_anchor(m, shift),
            cursor: match up_target(m.buffer, m.cursor) {
                Some(t) => t,
                None => m.cursor,
            },
            ..m
        }
    }
}

/// Down arrow: only a multi-line box reacts.
pub open spec fn down_model(m: EditModel, shift: bool) -> EditModel {
    if !m.multiline {
        m
    } else {
        EditModel {
            anchor: shifted_anchor(m, shift),
            cursor: match down_target(m.buffer, m.cursor) {
                Some(t) => t,
                None => m.cursor,
            },
            ..m
        }
    }
}

/// Home: to the start of the cursor's line.
pub open spec fn home_model(m: EditModel, shift: bool) -> EditModel {
    EditModel { anchor: shifted_anchor(m, shift), cursor: line_start(m.buffer, m.cursor), ..m }
}

/// End: to the end of the cursor's line.
pub open spec fn end_model(m: EditModel, shift: bool) -> EditModel {
    EditModel { anchor: shifted_anchor(m, shift), cursor: line_end(m.buffer, m.cursor), ..m }
}

/// Backspace: deletes the selection, or else the character before the cursor.
pub open spec fn backspace_model(m: EditModel) -> EditModel {
    if selection(m) is Some {
        delete_selection_model(m)
    } else if m.cursor > 0 {
        EditModel {
            buffer: m.buffer.remove(m.cursor - 1),
            cursor: (m.cursor - 1) as nat,
            ..m
        }
    } else {
        m
    }
}

/// Delete: deletes the selection, or else the character after the cursor.
pub open spec fn delete_model(m: EditModel) -> EditModel {
    if selection(m) is Some {
        delete_selection_model(m)
    } else if m.cursor < m.buffer.len() {
        EditModel { buffer: m.buffer.remove(m.cursor as int), ..m }
    } else {
        m
    }
}

/// Enter: a new line in a multi-line box; a single-line box closes, dropping its text.
pub open spec fn enter_model(m: EditModel) -> EditModel {
    if m.multiline {
        type_model(m, seq!['\n'])
    } else {
        EditModel { buffer: Seq::empty(), cursor: 0, active: false, ..m }
    }
}

/// A typed character: control characters are ignored.
pub open spec fn char_model(m: EditModel, ch: char) -> EditModel {
    if is_control_char(ch) {
        m
    } else {
        type_model(m, seq![ch])
    }
}

impl InlineInputBox {
    fn anchor_for_move(&mut self, shift: bool)
        ensures
            final(self)@ == (EditModel { anchor: shifted_anchor(old(self)@, shift), ..old(self)@ }),
    {
        if shift {
            if self.selection_anchor.is_none() {
                self.selection_anchor = Some(self.cursor);
            }
        } else {
            self.selection_anchor = None;
        }
    }

    pub fn move_right(&mut self, shift: bool)
        requires
            old(self).wf(),
        ensures
            final(self).wf(),
            final(self)@ == right_model(old(self)@, shift),
    {
        self.anchor_for_move(shift);
        if self.cursor < self.buffer.len() {
            self.cursor = self.cursor + 1;
        }
    }

    pub fn move_left(&mut self, shift: bool)
        requires
            old(self).wf(),
        ensures
            final(self).wf(),
            final(self)@ == left_model(old(self)@, shift),
    {
        self.anchor_for_move(shift);
        if self.cursor > 0 {
            self.cursor = self.cursor - 1;
        }
    }

    pub fn move_home(&mut self, shift: bool)
        requires
            old(self).wf(),
        ensures
            final(self).wf(),
            final(self)@ == home_model(old(self)@, shift),
    {
        self.anchor_for_move(shift);
        proof {
            lemma_last_nl_bound(self@.buffer, self@.cursor);
        }
        self.cursor = match find_last_nl(&self.buffer, self.cursor) {
            Some(p) => p + 1,
            None => 0,
        };
    }

    pub fn move_end(&mut self, shift: bool)
        requires
            old(self).wf(),
        ensures
            final(self).wf(),
            final(self)@ == end_model(old(self)@, shift),
    {
        self.anchor_for_move(shift);
        proof {
            lemma_first_nl_bound(self@.buffer, self@.cursor);
        }
        self.cursor = match find_first_nl(&self.buffer, self.cursor) {
            Some(r) => r,
            None => self.buffer.len(),
        };
    }

    pub fn move_up(&mut self, shift: bool)
        requires
            old(self).wf(),
        ensures
            final(self).wf(),
            final(self)@ == up_model(old(self)@, shift),
    {
        if !self.multiline {
            return;
        }
        self.anchor_for_move(shift);
        let ghost b = self@.buffer;
        let c = self.cursor;
        proof {
            lemma_last_nl_bound(b, c as nat);
        }
        match find_last_nl(&self.buffer, c) {
            None => {},
            Some(p) => {
                proof {
                    lemma_last_nl_bound(b, p as nat);
                }
                let ps = match find_last_nl(&self.buffer, p) {
                    Some(q) => q + 1,
                    None => 0,
                };
                let before = prefix_bytes(&self.buffer, c);
                let line_begin = prefix_bytes(&self.buffer, p + 1);
                let prev_begin = prefix_bytes(&self.buffer, ps);
                let prev_end = prefix_bytes(&self.buffer, p);
                proof {
                    lemma_byte_len_split(b, (p + 1) as int, c as int);
                    lemma_byte_len_split(b, ps as int, p as int);
                }
                let col = before - line_begin;
                let prev_len = prev_end - prev_begin;
                let target = prev_begin + if col <= prev_len { col } else { prev_len };
                self.cursor = count_below(&self.buffer, target);
            },
        }
    }

    /// Whether Down can be handled: it cannot when the next line is the last one
    /// and the text holds fewer characters than the byte offset where that line starts.
    pub fn can_move_down(&self) -> (r: bool)
        requires
            self.wf(),
        ensures
            r == (!self@.multiline || down_defined(self@.buffer, self@.cursor)),
    {
        if !self.multiline {
            return true;
        }
        let ghost b = self@.buffer;
        proof {
            lemma_first_nl_bound(b, self@.cursor);
        }
        match find_first_nl(&self.buffer, self.cursor) {
            None => true,
            Some(r) => {
                proof {
                    lemma_first_nl_bound(b, (r + 1) as nat);
                }
                let n = self.buffer.len();
                assert(r < n);
                let next_start = prefix_bytes(&self.buffer, r + 1);
                let next_end: u128 = match find_first_nl(&self.buffer, r + 1) {
                    Some(e) => prefix_bytes(&self.buffer, e),
                    None => self.buffer.len() as u128,
                };
                next_end >= next_start
            },
        }
    }

    pub fn move_down(&mut self, shift: bool)
        requires
            old(self).wf(),
            old(self)@.multiline ==> down_defined(old(self)@.buffer, old(self)@.cursor),
        ensures
            final(self).wf(),
            final(self)@ == down_model(old(self)@, shift),
    {
        if !self.multiline {
            return;
        }
        self.anchor_for_move(shift);
        let ghost b = self@.buffer;
        let c = self.cursor;
        proof {
            lemma_first_nl_bound(b, c as nat);
            lemma_last_nl_bound(b, c as nat);
        }
        match find_first_nl(&self.buffer, c) {
            None => {},
            Some(r) => {
                proof {
                    lemma_first_nl_bound(b, (r + 1) as nat);
                }
                let ls = match find_last_nl(&self.buffer, c) {
                    Some(p) => p + 1,
                    None => 0,
                };
                let before = prefix_bytes(&self.buffer, c);
                let line_begin = prefix_bytes(&self.buffer, ls);
                proof {
                    lemma_byte_len_split(b, ls as int, c as int);
                }
                let col = before - line_begin;
                let n = self.buffer.len();
                assert(r < n);
                let next_start = prefix_bytes(&self.buffer, r + 1);
                let next_end: u128 = match find_first_nl(&self.buffer, r + 1) {
                    Some(e) => prefix_bytes(&self.buffer, e),
                    None => self.buffer.len() as u128,
                };
                let next_len = next_end - next_start;
                let target = next_start + if col <= next_len { col } else { next_len };
                self.cursor = count_below(&self.buffer, target);
            },
        }
    }

    /// Selects the whole text, with the cursor at its end.
    pub fn select_all(&mut self)
        requires
            old(self).wf(),
        ensures
            final(self).wf(),
            final(self)@ == (EditModel {
                anchor: Some(0),
                cursor: old(self)@.buffer.len(),
                ..old(self)@
            }),
    {
        self.selection_anchor = Some(0);
        self.cursor = self.buffer.len();
    }

    /// Inserts `t` at the cursor, in place of the selection.
    fn type_text(&mut self, t: &[char])
        requires
            old(self).wf(),
        ensures
            final(self).wf(),
            final(self)@ == type_model(old(self)@, t@),
    {
        self.delete_selection();
        let b = splice_vec(&self.buffer, self.cursor, self.cursor, t);
        let ghost mid = self@;
        let n = b.len();
        proof {
            assert(n == mid.buffer.len() + t@.len());
        }
        self.buffer = b;
        self.cursor = self.cursor + t.len();
    }

    pub fn backspace(&mut self)
        requires
            old(self).wf(),
        ensures
            final(self).wf(),
            final(self)@ == backspace_model(old(self)@),
    {
        if !self.delete_selection() {
            if self.cursor > 0 {
                self.cursor = self.cursor - 1;
                self.buffer.remove(self.cursor);
            }
        }
    }

    pub fn delete_forward(&mut self)
        requires
            old(self).wf(),
        ensures
            final(self).wf(),
            final(self)@ == delete_model(old(self)@),
    {
        if !self.delete_selection() {
            if self.cursor < self.buffer.len() {
                self.buffer.remove(self.cursor);
            }
        }
    }

    pub fn enter(&mut self)
        requires
            old(self).wf(),
        ensures
            final(self).wf(),
            final(self)@ == enter_model(old(self)@),
    {
        if self.multiline {
            let mut t: Vec<char> = Vec::new();
            t.push('\n');
            self.type_text(t.as_slice());
        } else {
            let _ = self.confirm();
        }
    }

    pub fn type_char(&mut self, ch: char)
        requires
            old(self).wf(),
        ensures
            final(self).wf(),
            final(self)@ == char_model(old(self)@, ch),
    {
        let u = ch as u32;
        if !(u <= 0x1F || (0x7F <= u && u <= 0x9F)) {
            let mut t: Vec<char> = Vec::new();
            t.push(ch);
            self.type_text(t.as_slice());
        }
    }

    /// Pastes `text` at the cursor, in place of the selection.
    pub fn paste(&mut self, text: &str)
        requires
            old(self).wf(),
        ensures
            final(self).wf(),
            final(self)@ == type_model(old(self)@, text@),
    {
        let t = chars_of(text);
        self.type_text(t.as_slice());
    }

    /// Cuts the selection: returns its text and deletes it.
    pub fn cut(&mut self) -> (r: Option<String>)
        requires
            old(self).wf(),
        ensures
            final(self).wf(),
            r is Some <==> selection(old(self)@) is Some,
            r matches Some(t) ==> ({
                let (s, e) = selection(old(self)@)->0;
                let b = old(self)@.buffer;
                t@ == b.subrange(
                    min_nat(s, b.len()) as int,
                    max_nat(min_nat(s, b.len()), min_nat(e, b.len())) as int,
                )
            }),
            final(self)@ == delete_selection_model(old(self)@),
    {
        let r = self.selected_text();
        if r.is_some() {
            self.delete_selection();
        }
        r
    }

    /// A touch at character position `hint` (already rounded from the touch
    /// point; clamped to the text): moving inside the box places the cursor,
    /// starting inside it also anchors a selection in a single-line box. Returns
    /// whether a touch started outside the box.
    pub fn touch(&mut self, phase: TouchPhase, in_rect: bool, hint: usize) -> (r: bool)
        requires
            old(self).wf(),
        ensures
            final(self).wf(),
            ({
                let m = old(self)@;
                let c = min_nat(hint as nat, m.buffer.len());
                match phase {
                    TouchPhase::Moved => !r && final(self)@ == if in_rect {
                        EditModel { cursor: c, ..m }
                    } else {
                        m
                    },
                    TouchPhase::Started => r == !in_rect && final(self)@ == if in_rect {
                        EditModel {
                            cursor: c,
                            anchor: if m.multiline { m.anchor } else { Some(c) },
                            ..m
                        }
                    } else {
                        m
                    },
                    _ => !r && final(self)@ == m,
                }
            }),
    {
        let n = self.buffer.len();
        let c = if hint <= n { hint } else { n };
        match phase {
            TouchPhase::Moved => {
                if in_rect {
                    self.cursor = c;
                }
                false
            },
            TouchPhase::Started => {
                if in_rect {
                    self.cursor = c;
                    if !self.multiline {
                        self.selection_anchor = Some(c);
                    }
                }
                !in_rect
            },
            _ => false,
        }
    }
}

} // verus!

verus! {

/// Typing a printable character with nothing selected, then pressing Backspace,
/// gives back the text and the cursor of before.
pub proof fn law_backspace_undoes_typing(m: EditModel, ch: char)
    requires
        model_wf(m),
        m.anchor is None,
        !is_control_char(ch),
    ensures
        backspace_model(char_model(m, ch)).buffer == m.buffer,
        backspace_model(char_model(m, ch)).cursor == m.cursor,
        backspace_model(char_model(m, ch)).anchor is None,
{
    let t = char_model(m, ch);
    assert(t.buffer =~= m.buffer.take(m.cursor as int) + seq![ch] + m.buffer.skip(
        m.cursor as int,
    ));
    assert(t.buffer.remove(m.cursor as int) =~= m.buffer);
}

/// Select All followed by Delete empties the box.
pub proof fn law_select_all_delete_clears(m: EditModel)
    requires
        model_wf(m),
    ensures
        delete_model(EditModel { anchor: Some(0), cursor: m.buffer.len(), ..m }).buffer
            =~= Seq::<char>::empty(),
        delete_model(EditModel { anchor: Some(0), cursor: m.buffer.len(), ..m }).cursor == 0,
{
}

/// Without shift, Right then Left brings the cursor back when it was not at the
/// end, and drops the selection.
pub proof fn law_right_then_left(m: EditModel)
    requires
        model_wf(m),
        m.cursor < m.buffer.len(),
    ensures
        left_model(right_model(m, false), false) == (EditModel { anchor: None, ..m }),
{
}

/// Cutting a selection and pasting its text straight back restores the text, with
/// the cursor after the pasted part.
pub proof fn law_cut_then_paste(m: EditModel)
    requires
        model_wf(m),
        selection(m) is Some,
    ensures
        ({
            let (s, e) = selection(m)->0;
            let b = m.buffer;
            let t = b.subrange(
                min_nat(s, b.len()) as int,
                max_nat(min_nat(s, b.len()), min_nat(e, b.len())) as int,
            );
            let after = type_model(delete_selection_model(m), t);
            &&& after.buffer == b
            &&& after.cursor == max_nat(min_nat(s, b.len()), min_nat(e, b.len()))
            &&& after.anchor is None
        }),
{
    let (s, e) = selection(m)->0;
    let b = m.buffer;
    let sc = min_nat(s, b.len());
    let ec = max_nat(sc, min_nat(e, b.len()));
    let t = b.subrange(sc as int, ec as int);
    let d = delete_selection_model(m);
    assert(s <= b.len());
    assert(d.buffer =~= b.take(sc as int) + b.skip(ec as int));
    let after = type_model(d, t);
    assert(after.buffer =~= b);
}

/// Every character of an ASCII text is one byte long.
pub open spec fn is_ascii_text(b: Seq<char>) -> bool {
    forall|i: int| 0 <= i < b.len() ==> (#[trigger] b[i] as u32) < 0x80
}

pub proof fn lemma_ascii_byte_len(b: Seq<char>)
    requires
        is_ascii_text(b),
    ensures
        byte_len(b) == b.len(),
    decreases b.len(),
{
    if b.len() > 0 {
        assert(is_ascii_text(b.drop_last()));
        lemma_ascii_byte_len(b.drop_last());
        assert((b.last() as u32) < 0x80);
    }
}

pub proof fn lemma_ascii_chars_below(b: Seq<char>, t: nat)
    requires
        is_ascii_text(b),
    ensures
        chars_below(b, t) == min_nat(t, b.len()),
    decreases b.len(),
{
    if b.len() > 0 {
        assert(is_ascii_text(b.drop_last()));
        lemma_ascii_chars_below(b.drop_last(), t);
        lemma_ascii_byte_len(b.drop_last());
    }
}

pub proof fn lemma_ascii_sub(b: Seq<char>, i: int, j: int)
    requires
        is_ascii_text(b),
        0 <= i <= j <= b.len(),
    ensures
        byte_len(b.subrange(i, j)) == j - i,
{
    let s = b.subrange(i, j);
    assert(is_ascii_text(s)) by {
        assert forall|k: int| 0 <= k < s.len() implies (#[trigger] s[k] as u32) < 0x80 by {
            assert(s[k] == b[i + k]);
        }
    }
    lemma_ascii_byte_len(s);
}

/// In an ASCII text, Up keeps the column: the cursor lands on the previous line
/// at the same distance from its start, or at its end when that line is shorter.
pub proof fn law_ascii_up_keeps_column(b: Seq<char>, c: nat, p: nat)
    requires
        is_ascii_text(b),
        c <= b.len(),
        last_nl(b, c) == Some(p),
    ensures
        up_target(b, c) == Some(
            line_start(b, p) + min_nat((c - (p + 1)) as nat, (p - line_start(b, p)) as nat),
        ),
{
    lemma_last_nl_bound(b, c);
    lemma_last_nl_bound(b, p);
    let ps = line_start(b, p);
    lemma_ascii_sub(b, (p + 1) as int, c as int);
    lemma_ascii_sub(b, ps as int, p as int);
    lemma_ascii_sub(b, 0, ps as int);
    assert(b.subrange(0, ps as int) =~= b.take(ps as int));
    lemma_ascii_chars_below(
        b,
        byte_len(b.take(ps as int)) + min_nat(
            byte_len(b.subrange((p + 1) as int, c as int)),
            byte_len(b.subrange(ps as int, p as int)),
        ),
    );
}

/// In an ASCII text, Down keeps the column in the same way on the next line.
pub proof fn law_ascii_down_keeps_column(b: Seq<char>, c: nat, r: nat)
    requires
        is_ascii_text(b),
        c <= b.len(),
        first_nl(b, c) == Some(r),
    ensures
        down_defined(b, c),
        down_target(b, c) == Some(
            r + 1 + min_nat((c - line_start(b, c)) as nat, (line_end(b, r + 1) - (r + 1)) as nat),
        ),
{
    lemma_first_nl_bound(b, c);
    lemma_first_nl_bound(b, r + 1);
    lemma_last_nl_bound(b, c);
    let ls = line_start(b, c);
    lemma_ascii_sub(b, 0, c as int);
    lemma_ascii_sub(b, 0, ls as int);
    lemma_ascii_sub(b, 0, (r + 1) as int);
    assert(b.subrange(0, c as int) =~= b.take(c as int));
    assert(b.subrange(0, ls as int) =~= b.take(ls as int));
    assert(b.subrange(0, (r + 1) as int) =~= b.take((r + 1) as int));
    match first_nl(b, r + 1) {
        Some(e) => {
            lemma_ascii_sub(b, 0, e as int);
            assert(b.subrange(0, e as int) =~= b.take(e as int));
        },
        None => {},
    }
    let col = byte_len(b.take(c as int)) - byte_len(b.take(ls as int));
    let nls = byte_len(b.take((r + 1) as int));
    let nll = next_line_end(b, r) - nls;
    lemma_ascii_chars_below(b, (nls + min_nat(col as nat, nll as nat)) as nat);
}

} // verus!

verus! {

/// The phase a mouse button plays in as a touch this frame: pressed starts,
/// held moves, released ends; otherwise it is no touch.
pub fn mouse_phase(pressed: bool, down: bool, released: bool) -> (r: Option<TouchPhase>)
    ensures
        r == if pressed {
            Some(TouchPhase::Started)
        } else if down {
            Some(TouchPhase::Moved)
        } else if released {
            Some(TouchPhase::Ended)
        } else {
            None
        },
{
    if pressed {
        Some(TouchPhase::Started)
    } else if down {
        Some(TouchPhase::Moved)
    } else if released {
        Some(TouchPhase::Ended)
    } else {
        None
    }
}

/// A mouse button, as the pointer events name it.
#[derive(Clone, Copy, Debug, PartialEq, Eq, Structural)]
pub enum PointerButton {
    Left,
    Middle,
    Right,
    Unknown,
}

/// The touch id a mouse button plays as: counted down from the largest id, so
/// that it never meets the id of a real touch.
pub fn button_to_id(button: PointerButton) -> (r: u64)
    ensures
        r == u64::MAX - match button {
            PointerButton::Left => 0int,
            PointerButton::Middle => 1,
            PointerButton::Right => 2,
            PointerButton::Unknown => 3,
        },
{
    u64::MAX - match button {
        PointerButton::Left => 0,
        PointerButton::Middle => 1,
        PointerButton::Right => 2,
        PointerButton::Unknown => 3,
    }
}

/// The keys of one frame: how many went down, and the net count of downs over ups
/// (which tells held keys for holds).
#[derive(Clone, Copy, Debug, PartialEq, Eq, Structural)]
pub struct KeyTally {
    pub key_delta: i32,
    pub keys_down: u32,
}

impl KeyTally {
    pub fn new() -> (r: KeyTally)
        ensures
            r.key_delta == 0,
            r.keys_down == 0,
    {
        KeyTally { key_delta: 0, keys_down: 0 }
    }

    /// A key went down; a repeat of a held key counts for nothing.
    pub fn key_down(&mut self, repeat: bool)
        requires
            !repeat ==> old(self).key_delta < i32::MAX && old(self).keys_down < u32::MAX,
        ensures
            *final(self) == if repeat {
                *old(self)
            } else {
                KeyTally { key_delta: (old(self).key_delta + 1) as i32, keys_down: (old(self).keys_down + 1) as u32 }
            },
    {
        if !repeat {
            self.key_delta = self.key_delta + 1;
            self.keys_down = self.keys_down + 1;
        }
    }

    /// How many keys are held after a frame whose net count of downs over ups is
    /// `delta`, counted without going below zero or past the largest count.
    pub fn held_after(held: u32, delta: i32) -> (r: u32)
        ensures
            r == if held + delta < 0 {
                0
            } else if held + delta > u32::MAX {
                u32::MAX as int
            } else {
                held + delta
            },
    {
        if delta >= 0 {
            let d = delta as u32;
            if held > u32::MAX - d {
                u32::MAX
            } else {
                held + d
            }
        } else {
            let d = (0 - (delta as i64)) as u32;
            if held < d {
                0
            } else {
                held - d
            }
        }
    }

    /// A key went up.
    pub fn key_up(&mut self)
        requires
            old(self).key_delta > i32::MIN,
        ensures
            final(self).key_delta == old(self).key_delta - 1,
            final(self).keys_down == old(self).keys_down,
    {
        self.key_delta = self.key_delta - 1;
    }
}

} // verus!

verus! {

/// What the keyboard asks of a text box in one frame. An arrow or Backspace that
/// is held counts when it repeats; the others when pressed.
#[derive(Clone, Copy, Debug, PartialEq, Eq, Structural)]
pub struct FrameKeys {
    pub right: bool,
    pub left: bool,
    pub up: bool,
    pub down: bool,
    pub home: bool,
    pub end: bool,
    pub shift: bool,
    pub ctrl: bool,
    /// C, X, V and A, which act with Ctrl held.
    pub copy: bool,
    pub cut: bool,
    pub paste: bool,
    pub select_all: bool,
    pub backspace: bool,
    pub delete: bool,
    pub enter: bool,
    pub escape: bool,
}

/// The selected text, clamped to the buffer.
pub open spec fn selected_model(m: EditModel) -> Option<Seq<char>> {
    match selection(m) {
        Some((s, e)) => {
            let b = m.buffer;
            Some(
                b.subrange(
                    min_nat(s, b.len()) as int,
                    max_nat(min_nat(s, b.len()), min_nat(e, b.len())) as int,
                ),
            )
        },
        None => None,
    }
}

/// The characters typed in a frame, in order.
pub open spec fn chars_model(m: EditModel, cs: Seq<char>) -> EditModel
    decreases cs.len(),
{
    if cs.len() == 0 {
        m
    } else {
        char_model(chars_model(m, cs.drop_last()), cs.last())
    }
}

/// The box after the arrow, Home and End keys of a frame.
#[verifier::opaque]
pub open spec fn moves_model(m: EditModel, k: FrameKeys) -> EditModel {
    let m1 = if k.right { right_model(m, k.shift) } else { m };
    let m2 = if k.left { left_model(m1, k.shift) } else { m1 };
    let m3 = if k.up { up_model(m2, k.shift) } else { m2 };
    let m4 = if k.down { down_model(m3, k.shift) } else { m3 };
    let m5 = if k.home { home_model(m4, k.shift) } else { m4 };
    if k.end { end_model(m5, k.shift) } else { m5 }
}

/// Where Down would be pressed in a frame: after Right, Left and Up.
pub open spec fn before_down(m: EditModel, k: FrameKeys) -> EditModel {
    let m1 = if k.right { right_model(m, k.shift) } else { m };
    let m2 = if k.left { left_model(m1, k.shift) } else { m1 };
    if k.up { up_model(m2, k.shift) } else { m2 }
}

/// The Ctrl commands of a frame: cut, paste of the clipboard `clip`, select all.
#[verifier::opaque]
pub open spec fn commands_model(m: EditModel, k: FrameKeys, clip: Option<Seq<char>>) -> EditModel {
    let m7 = if k.ctrl && k.cut { delete_selection_model(m) } else { m };
    let m8 = match clip {
        Some(t) => if k.ctrl && k.paste { type_model(m7, t) } else { m7 },
        None => m7,
    };
    if k.ctrl && k.select_all { EditModel { anchor: Some(0), cursor: m8.buffer.len(), ..m8 } } else { m8 }
}

/// Backspace, Delete, Enter and the typed characters of a frame, then Escape,
/// which cancels.
#[verifier::opaque]
pub open spec fn edits_model(m: EditModel, k: FrameKeys, chars: Seq<char>) -> EditModel {
    let m10 = if k.backspace { backspace_model(m) } else { m };
    let m11 = if k.delete { delete_model(m10) } else { m10 };
    let m12 = if k.enter { enter_model(m11) } else { m11 };
    let m13 = chars_model(m12, chars);
    if k.escape {
        EditModel { buffer: Seq::empty(), cursor: 0, active: false, ..m13 }
    } else {
        m13
    }
}

/// A frame of keys on the box: moves, then the Ctrl commands, then the edits.
pub open spec fn frame_model(m: EditModel, k: FrameKeys, chars: Seq<char>, clip: Option<Seq<char>>) -> EditModel {
    edits_model(commands_model(moves_model(m, k), k, clip), k, chars)
}

/// What a frame puts on the clipboard: the selection, when copied or cut.
pub open spec fn frame_clipboard(m: EditModel, k: FrameKeys) -> Option<Seq<char>> {
    if k.ctrl && (k.copy || k.cut) {
        selected_model(moves_model(m, k))
    } else {
        None
    }
}

impl InlineInputBox {
    fn frame_moves(&mut self, k: FrameKeys)
        requires
            old(self).wf(),
            k.down && before_down(old(self)@, k).multiline ==> down_defined(
                before_down(old(self)@, k).buffer,
                before_down(old(self)@, k).cursor,
            ),
        ensures
            final(self).wf(),
            final(self)@ == moves_model(old(self)@, k),
    {
        proof {
            reveal(moves_model);
        }
        if k.right {
            self.move_right(k.shift);
        }
        if k.left {
            self.move_left(k.shift);
        }
        if k.up {
            self.move_up(k.shift);
        }
        if k.down {
            self.move_down(k.shift);
        }
        if k.home {
            self.move_home(k.shift);
        }
        if k.end {
            self.move_end(k.shift);
        }
    }

    fn frame_commands(&mut self, k: FrameKeys, clipboard: Option<&str>) -> (r: Option<String>)
        requires
            old(self).wf(),
        ensures
            final(self).wf(),
            final(self)@ == commands_model(
                old(self)@,
                k,
                match clipboard {
                    Some(t) => Some(t@),
                    None => None,
                },
            ),
            match r {
                Some(t) => k.ctrl && (k.copy || k.cut) && selected_model(old(self)@) == Some(t@),
                None => !(k.ctrl && (k.copy || k.cut)) || selected_model(old(self)@) is None,
            },
    {
        proof {
            reveal(commands_model);
        }
        let mut out: Option<String> = None;
        if k.ctrl {
            if k.copy {
                out = self.selected_text();
            }
            if k.cut {
                out = self.cut();
            }
            if k.paste {
                match clipboard {
                    Some(t) => self.paste(t),
                    None => {},
                }
            }
            if k.select_all {
                self.select_all();
            }
        }
        out
    }

    fn frame_edits(&mut self, k: FrameKeys, chars: &[char])
        requires
            old(self).wf(),
        ensures
            final(self).wf(),
            final(self)@ == edits_model(old(self)@, k, chars@),
    {
        proof {
            reveal(edits_model);
        }
        if k.backspace {
            self.backspace();
        }
        if k.delete {
            self.delete_forward();
        }
        if k.enter {
            self.enter();
        }
        let n = chars.len();
        let ghost start = self@;
        for i in 0..n
            invariant
                n == chars@.len(),
                self.wf(),
                self@ == chars_model(start, chars@.take(i as int)),
        {
            self.type_char(chars[i]);
            proof {
                assert(chars@.take(i + 1).drop_last() =~= chars@.take(i as int));
            }
        }
        proof {
            assert(chars@.take(n as int) =~= chars@);
        }
        if k.escape {
            self.cancel();
        }
    }

    fn duplicate(&self) -> (r: InlineInputBox)
        ensures
            r@ == self@,
    {
        let buffer = crate::text::slice_vec(self.buffer.as_slice(), 0, self.buffer.len());
        proof {
            assert(buffer@ =~= self.buffer@);
        }
        InlineInputBox {
            buffer,
            multiline: self.multiline,
            active: self.active,
            cursor: self.cursor,
            selection_anchor: self.selection_anchor,
        }
    }

    /// Whether a frame of `keys` can be applied: Down cannot be handled at some
    /// places of a multi-line text (see [`InlineInputBox::can_move_down`]), judged
    /// where the cursor is when Down comes, after Right, Left and Up.
    pub fn frame_ok(&self, keys: &FrameKeys) -> (r: bool)
        requires
            self.wf(),
        ensures
            r == (keys.down && before_down(self@, *keys).multiline ==> down_defined(
                before_down(self@, *keys).buffer,
                before_down(self@, *keys).cursor,
            )),
    {
        if !keys.down {
            return true;
        }
        let mut b = self.duplicate();
        if keys.right {
            b.move_right(keys.shift);
        }
        if keys.left {
            b.move_left(keys.shift);
        }
        if keys.up {
            b.move_up(keys.shift);
        }
        b.can_move_down()
    }

    /// Applies one frame of keyboard input: the keys that act this frame, the
    /// characters typed and the clipboard's text. Returns the text to put on the
    /// clipboard, if Ctrl+C or Ctrl+X took the selection.
    pub fn update(&mut self, keys: &FrameKeys, chars: &[char], clipboard: Option<&str>) -> (r: Option<String>)
        requires
            old(self).wf(),
            keys.down && before_down(old(self)@, *keys).multiline ==> down_defined(
                before_down(old(self)@, *keys).buffer,
                before_down(old(self)@, *keys).cursor,
            ),
        ensures
            final(self).wf(),
            final(self)@ == frame_model(
                old(self)@,
                *keys,
                chars@,
                match clipboard {
                    Some(t) => Some(t@),
                    None => None,
                },
            ),
            match r {
                Some(t) => frame_clipboard(old(self)@, *keys) == Some(t@),
                None => frame_clipboard(old(self)@, *keys) is None,
            },
    {
        let k = *keys;
        self.frame_moves(k);
        let out = self.frame_commands(k, clipboard);
        self.frame_edits(k, chars);
        out
    }
}

/// Escape ends every frame's editing: the box is inactive and empty.
pub proof fn law_escape_cancels(m: EditModel, k: FrameKeys, chars: Seq<char>, clip: Option<Seq<char>>)
    requires
        k.escape,
    ensures
        !frame_model(m, k, chars, clip).active,
        frame_model(m, k, chars, clip).buffer.len() == 0,
        frame_model(m, k, chars, clip).cursor == 0,
{
    reveal(edits_model);
}

} // verus!

verus! {

proof fn lemma_first_nl_gap(b: Seq<char>, k: nat)
    ensures
        forall|j: int|
            k <= j < (match first_nl(b, k) {
                Some(r) => r as int,
                None => b.len() as int,
            }) ==> b[j] != '\n',
    decreases b.len() - k,
{
    if k < b.len() {
        lemma_first_nl_gap(b, k + 1);
    }
}

proof fn lemma_last_nl_gap(b: Seq<char>, k: nat)
    requires
        k <= b.len(),
    ensures
        forall|j: int|
            (match last_nl(b, k) {
                Some(p) => p + 1,
                None => 0,
            }) <= j < k ==> b[j] != '\n',
    decreases k,
{
    if k > 0 {
        lemma_last_nl_gap(b, (k - 1) as nat);
    }
}

/// End keeps the cursor on its line: it moves forward to the line's newline, or
/// to the end of the text on the last line, passing no newline; the text stays.
pub proof fn law_end_stays_on_line(m: EditModel, shift: bool)
    requires
        model_wf(m),
    ensures
        ({
            let e = end_model(m, shift);
            &&& e.buffer == m.buffer
            &&& m.cursor <= e.cursor <= m.buffer.len()
            &&& forall|j: int| m.cursor <= j < e.cursor ==> m.buffer[j] != '\n'
            &&& (e.cursor == m.buffer.len() || m.buffer[e.cursor as int] == '\n')
        }),
{
    lemma_first_nl_bound(m.buffer, m.cursor);
    lemma_first_nl_gap(m.buffer, m.cursor);
}

/// Home keeps the cursor on its line: it moves back to just after the previous
/// newline, or to the start of the text on the first line, passing no newline.
pub proof fn law_home_stays_on_line(m: EditModel, shift: bool)
    requires
        model_wf(m),
    ensures
        ({
            let h = home_model(m, shift);
            &&& h.buffer == m.buffer
            &&& h.cursor <= m.cursor
            &&& forall|j: int| h.cursor <= j < m.cursor ==> m.buffer[j] != '\n'
            &&& (h.cursor == 0 || m.buffer[h.cursor - 1] == '\n')
        }),
{
    lemma_last_nl_bound(m.buffer, m.cursor);
    lemma_last_nl_gap(m.buffer, m.cursor);
}

} // verus!
