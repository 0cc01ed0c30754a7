use vstd::prelude::*;

verus! {

/// The characters of a string slice, in order.
pub fn chars_of(s: &str) -> (v: Vec<char>)
    ensures
        v@ == s@,
{
    let mut v: Vec<char> = Vec::new();
    for c in it: s.chars()
        invariant
            v@ == it.seq().take(it.index() as int),
    {
        v.push(c);
    }
    v
}

} // verus!

verus! {

/// Unicode `White_Space` characters, as `char::is_whitespace` documents them.
pub open spec fn is_ws(c: char) -> bool {
    let u = c as u32;
    ||| 0x09 <= u <= 0x0D
    ||| u == 0x20
    ||| u == 0x85
    ||| u == 0xA0
    ||| u == 0x1680
    ||| 0x2000 <= u <= 0x200A
    ||| u == 0x2028
    ||| u == 0x2029
    ||| u == 0x202F
    ||| u == 0x205F
    ||| u == 0x3000
}

/// Whether `c` is a whitespace character.
pub fn is_whitespace(c: char) -> (r: bool)
    ensures
        r == is_ws(c),
{
    let u = c as u32;
    (0x09 <= u && u <= 0x0D) || u == 0x20 || u == 0x85 || u == 0xA0 || u == 0x1680 || (0x2000
        <= u && u <= 0x200A) || u == 0x2028 || u == 0x2029 || u == 0x202F || u == 0x205F || u
        == 0x3000
}

/// The pieces of `s` between `'\n'` characters (one more piece than newlines).
pub open spec fn pieces(s: Seq<char>) -> Seq<Seq<char>>
    decreases s.len(),
{
    if s.len() == 0 {
        seq![Seq::empty()]
    } else {
        let p = pieces(s.drop_last());
        if s.last() == '\n' {
            p.push(Seq::empty())
        } else {
            p.update(p.len() - 1, p.last().push(s.last()))
        }
    }
}

pub proof fn lemma_pieces_len(s: Seq<char>)
    ensures
        pieces(s).len() >= 1,
    decreases s.len(),
{
    if s.len() > 0 {
        lemma_pieces_len(s.drop_last());
    }
}

/// A line that a newline ended loses one trailing carriage return.
pub open spec fn strip_cr(l: Seq<char>) -> Seq<char> {
    if l.len() > 0 && l.last() == '\r' {
        l.drop_last()
    } else {
        l
    }
}

/// The lines of `s` as `str::lines` yields them: split at `'\n'`, each
/// newline-ended line without its trailing `'\r'`, and the text after the last
/// newline as a final line when it is not empty.
pub open spec fn lines(s: Seq<char>) -> Seq<Seq<char>> {
    let p = pieces(s);
    let done = p.drop_last().map_values(|l: Seq<char>| strip_cr(l));
    if p.last().len() == 0 {
        done
    } else {
        done.push(p.last())
    }
}

/// The maximal runs of non-whitespace characters of `s`, as
/// `str::split_whitespace` yields them.
pub open spec fn tokens(s: Seq<char>) -> Seq<Seq<char>>
    decreases s.len(),
{
    if s.len() == 0 {
        seq![]
    } else {
        let t = tokens(s.drop_last());
        let c = s.last();
        if is_ws(c) {
            t
        } else if s.len() >= 2 && !is_ws(s[s.len() - 2]) {
            t.update(t.len() - 1, t.last().push(c))
        } else {
            t.push(seq![c])
        }
    }
}

pub proof fn lemma_tokens_nonempty(s: Seq<char>)
    requires
        s.len() > 0,
        !is_ws(s.last()),
    ensures
        tokens(s).len() > 0,
    decreases s.len(),
{
    if s.len() >= 2 && !is_ws(s[s.len() - 2]) {
        lemma_tokens_nonempty(s.drop_last());
    }
}

/// The contents of each vector of characters.
pub open spec fn seqs_of(v: Seq<Vec<char>>) -> Seq<Seq<char>> {
    v.map_values(|l: Vec<char>| l@)
}

/// Splits `s` into lines, as `str::lines` does.
pub fn split_lines(s: &[char]) -> (v: Vec<Vec<char>>)
    ensures
        seqs_of(v@) == lines(s@),
{
    let mut done: Vec<Vec<char>> = Vec::new();
    let mut cur: Vec<char> = Vec::new();
    let n = s.len();
    for i in 0..n
        invariant
            n == s@.len(),
            seqs_of(done@) == pieces(s@.take(i as int)).drop_last().map_values(
                |l: Seq<char>| strip_cr(l),
            ),
            cur@ == pieces(s@.take(i as int)).last(),
    {
        proof {
            lemma_pieces_len(s@.take(i as int));
            assert(s@.take(i + 1).drop_last() =~= s@.take(i as int));
        }
        let c = s[i];
        if c == '\n' {
            let mut line = cur;
            let len = line.len();
            if len > 0 && line[len - 1] == '\r' {
                line.pop();
            }
            assert(line@ == strip_cr(pieces(s@.take(i as int)).last()));
            let ghost old_done = seqs_of(done@);
            done.push(line);
            cur = Vec::new();
            proof {
                let p = pieces(s@.take(i as int));
                assert(seqs_of(done@) =~= old_done.push(line@));
                assert(pieces(s@.take(i + 1)) == p.push(Seq::empty()));
                assert(pieces(s@.take(i + 1)).drop_last() =~= p);
                assert(seqs_of(done@) =~= pieces(s@.take(i + 1)).drop_last().map_values(
                    |l: Seq<char>| strip_cr(l),
                ));
            }
        } else {
            cur.push(c);
            proof {
                let p = pieces(s@.take(i as int));
                assert(pieces(s@.take(i + 1)) == p.update(p.len() - 1, p.last().push(c)));
                assert(seqs_of(done@) =~= pieces(s@.take(i + 1)).drop_last().map_values(
                    |l: Seq<char>| strip_cr(l),
                ));
            }
        }
    }
    proof {
        assert(s@.take(n as int) =~= s@);
    }
    if cur.len() > 0 {
        let ghost old_done = seqs_of(done@);
        let ghost last = cur@;
        done.push(cur);
        proof {
            assert(seqs_of(done@) =~= old_done.push(last));
            assert(seqs_of(done@) =~= lines(s@));
        }
    }
    done
}

/// Splits `s` at whitespace, as `str::split_whitespace` does.
pub fn split_tokens(s: &[char]) -> (v: Vec<Vec<char>>)
    ensures
        seqs_of(v@) == tokens(s@),
{
    let mut v: Vec<Vec<char>> = Vec::new();
    let n = s.len();
    for i in 0..n
        invariant
            n == s@.len(),
            seqs_of(v@) == tokens(s@.take(i as int)),
    {
        proof {
            assert(s@.take(i + 1).drop_last() =~= s@.take(i as int));
        }
        let c = s[i];
        if is_whitespace(c) {
        } else if i >= 1 && !is_whitespace(s[i - 1]) {
            proof {
                assert(s@.take(i as int).last() == s@[i - 1]);
                lemma_tokens_nonempty(s@.take(i as int));
            }
            let ghost old_v = seqs_of(v@);
            let mut last = v.pop().unwrap();
            assert(last@ == old_v.last());
            let ghost mid = seqs_of(v@);
            assert(mid =~= old_v.drop_last());
            last.push(c);
            v.push(last);
            proof {
                assert(seqs_of(v@) =~= mid.push(last@));
                let t = tokens(s@.take(i as int));
                assert(tokens(s@.take(i + 1)) == t.update(t.len() - 1, t.last().push(c)));
                assert(seqs_of(v@) =~= tokens(s@.take(i + 1)));
            }
        } else {
            let mut tok: Vec<char> = Vec::new();
            tok.push(c);
            let ghost old_v = seqs_of(v@);
            v.push(tok);
            proof {
                assert(seqs_of(v@) =~= old_v.push(seq![c]));
                assert(seqs_of(v@) =~= tokens(s@.take(i + 1)));
            }
        }
    }
    proof {
        assert(s@.take(n as int) =~= s@);
    }
    v
}

} // verus!

verus! {

pub open spec fn is_digit(c: char) -> bool {
    48 <= (c as u32) <= 57
}

pub open spec fn all_digits(d: Seq<char>) -> bool {
    forall|i: int| 0 <= i < d.len() ==> is_digit(#[trigger] d[i])
}

/// The decimal value of a run of digits.
pub open spec fn digits_value(d: Seq<char>) -> nat
    decreases d.len(),
{
    if d.len() == 0 {
        0
    } else {
        digits_value(d.drop_last()) * 10 + ((d.last() as u32) - 48) as nat
    }
}

/// The digits of an unsigned decimal literal: one optional leading `'+'` is dropped.
pub open spec fn unsigned_body(t: Seq<char>) -> Seq<char> {
    if t.len() > 0 && t[0] == '+' {
        t.drop_first()
    } else {
        t
    }
}

/// What `str::parse` gives for an unsigned integer type whose largest value is `max`:
/// an optional `'+'`, then at least one ASCII digit and nothing else, of value at most `max`.
pub open spec fn parse_unsigned(t: Seq<char>, max: nat) -> Option<nat> {
    let d = unsigned_body(t);
    if d.len() > 0 && all_digits(d) && digits_value(d) <= max {
        Some(digits_value(d))
    } else {
        None
    }
}

/// What `str::parse` gives for a signed integer type of range `-min_mag..=max`:
/// like the unsigned case, but a leading `'-'` negates the value.
pub open spec fn parse_signed(t: Seq<char>, min_mag: nat, max: nat) -> Option<int> {
    if t.len() > 0 && t[0] == '-' {
        let d = t.drop_first();
        if d.len() > 0 && all_digits(d) && digits_value(d) <= min_mag {
            Some(-(digits_value(d) as int))
        } else {
            None
        }
    } else {
        match parse_unsigned(t, max) {
            Some(v) => Some(v as int),
            None => None,
        }
    }
}

pub proof fn lemma_digits_value_prefix(d: Seq<char>, k: int)
    requires
        0 <= k <= d.len(),
        all_digits(d),
    ensures
        digits_value(d.take(k)) <= digits_value(d),
    decreases d.len(),
{
    if k < d.len() {
        assert(all_digits(d.drop_last()));
        lemma_digits_value_prefix(d.drop_last(), k);
        assert(d.drop_last().take(k) =~= d.take(k));
    } else {
        assert(d.take(k) =~= d);
    }
}

/// The value of the digits `t[start..]`, when they are all ASCII digits, there is
/// at least one, and the value is at most `max`.
fn digits_bounded(t: &[char], start: usize, max: u64) -> (r: Option<u64>)
    requires
        start <= t@.len(),
    ensures
        ({
            let d = t@.skip(start as int);
            match r {
                Some(v) => d.len() > 0 && all_digits(d) && digits_value(d) <= max && v
                    == digits_value(d),
                None => !(d.len() > 0 && all_digits(d) && digits_value(d) <= max),
            }
        }),
{
    let n = t.len();
    let ghost d = t@.skip(start as int);
    if start == n {
        return None;
    }
    let mut acc: u64 = 0;
    let mut i = start;
    while i < n
        invariant
            start <= i <= n,
            n == t@.len(),
            d == t@.skip(start as int),
            all_digits(d.take(i - start)),
            acc == digits_value(d.take(i - start)),
            acc <= max,
        decreases n - i,
    {
        let c = t[i];
        let u = c as u32;
        proof {
            assert(d[i - start] == c);
            assert(d.take(i - start + 1).drop_last() =~= d.take(i - start));
        }
        if u < 48 || u > 57 {
            proof {
                assert(!is_digit(d[i - start]));
            }
            return None;
        }
        let dig = (u - 48) as u64;
        let next = acc.checked_mul(10);
        let next = match next {
            Some(m) => m.checked_add(dig),
            None => None,
        };
        match next {
            Some(v) if v <= max => {
                acc = v;
            },
            _ => {
                proof {
                    assert(all_digits(d) ==> digits_value(d) > max) by {
                        if all_digits(d) {
                            lemma_digits_value_prefix(d, i - start + 1);
                        }
                    }
                }
                return None;
            },
        }
        i = i + 1;
    }
    proof {
        assert(d.take(n - start) =~= d);
    }
    Some(acc)
}

/// `str::parse::<u64>` restricted to values at most `max`: the value of an
/// unsigned decimal literal (see [`parse_unsigned`]).
pub fn parse_unsigned_bounded(t: &[char], max: u64) -> (r: Option<u64>)
    ensures
        r matches Some(v) ==> parse_unsigned(t@, max as nat) == Some(v as nat),
        r is None ==> parse_unsigned(t@, max as nat) is None,
{
    let start: usize = if t.len() > 0 && t[0] == '+' { 1 } else { 0 };
    proof {
        assert(unsigned_body(t@) =~= t@.skip(start as int));
    }
    digits_bounded(t, start, max)
}

/// `str::parse::<usize>`.
pub fn parse_usize(t: &[char]) -> (r: Option<usize>)
    ensures
        r matches Some(v) ==> parse_unsigned(t@, usize::MAX as nat) == Some(v as nat),
        r is None ==> parse_unsigned(t@, usize::MAX as nat) is None,
{
    match parse_unsigned_bounded(t, usize::MAX as u64) {
        Some(v) => Some(v as usize),
        None => None,
    }
}

/// `str::parse::<u32>`.
pub fn parse_u32(t: &[char]) -> (r: Option<u32>)
    ensures
        r matches Some(v) ==> parse_unsigned(t@, u32::MAX as nat) == Some(v as nat),
        r is None ==> parse_unsigned(t@, u32::MAX as nat) is None,
{
    match parse_unsigned_bounded(t, u32::MAX as u64) {
        Some(v) => Some(v as u32),
        None => None,
    }
}

/// `str::parse::<i32>`.
pub fn parse_i32(t: &[char]) -> (r: Option<i32>)
    ensures
        r matches Some(v) ==> parse_signed(t@, 0x8000_0000, i32::MAX as nat) == Some(v as int),
        r is None ==> parse_signed(t@, 0x8000_0000, i32::MAX as nat) is None,
{
    if t.len() > 0 && t[0] == '-' {
        proof {
            assert(t@.drop_first() =~= t@.skip(1));
        }
        match digits_bounded(t, 1, 0x8000_0000) {
            Some(v) => Some((0 - (v as i64)) as i32),
            None => None,
        }
    } else {
        match parse_unsigned_bounded(t, i32::MAX as u64) {
            Some(v) => Some(v as i32),
            None => None,
        }
    }
}

} // verus!

verus! {

/// Appends one character to a `String` (`String::push`).
#[verifier::external_body]
fn push_char(s: &mut String, c: char)
    ensures
        final(s)@ == old(s)@.push(c),
{
    s.push(c);
}

/// A `String` holding exactly the given characters.
pub fn string_from_chars(v: &[char]) -> (r: String)
    ensures
        r@ == v@,
{
    let mut r = String::new();
    let n = v.len();
    for i in 0..n
        invariant
            n == v@.len(),
            r@ == v@.take(i as int),
    {
        push_char(&mut r, v[i]);
        proof {
            assert(v@.take(i + 1) =~= v@.take(i as int).push(v@[i as int]));
        }
    }
    proof {
        assert(v@.take(n as int) =~= v@);
    }
    r
}

} // verus!

verus! {

/// ASCII letters folded to lower case; other characters unchanged.
pub open spec fn lower(c: char) -> char {
    if 65 <= (c as u32) <= 90 {
        ((c as u32) + 32) as char
    } else {
        c
    }
}

/// Whether `t`, folded to lower case, is the word `w`.
pub open spec fn word_ci(t: Seq<char>, w: Seq<char>) -> bool {
    t.len() == w.len() && forall|i: int| 0 <= i < t.len() ==> lower(#[trigger] t[i]) == w[i]
}

/// `t` without one leading `'+'` or `'-'`.
pub open spec fn sign_dropped(t: Seq<char>) -> Seq<char> {
    if t.len() > 0 && (t[0] == '+' || t[0] == '-') {
        t.drop_first()
    } else {
        t
    }
}

/// Digits with at most one decimal point among them, and at least one digit.
pub open spec fn is_mantissa(m: Seq<char>) -> bool {
    &&& forall|i: int| 0 <= i < m.len() ==> is_digit(#[trigger] m[i]) || m[i] == '.'
    &&& forall|i: int, j: int| 0 <= i < j < m.len() && #[trigger] m[i] == '.' ==> #[trigger] m[j] != '.'
    &&& exists|i: int| 0 <= i < m.len() && is_digit(#[trigger] m[i])
}

/// An exponent after its `e`: an optional sign, then at least one digit.
pub open spec fn is_exponent(x: Seq<char>) -> bool {
    let d = sign_dropped(x);
    d.len() > 0 && all_digits(d)
}

/// A decimal number: a mantissa, optionally followed by `e` or `E` and an exponent.
pub open spec fn is_float_number(b: Seq<char>) -> bool {
    ||| is_mantissa(b)
    ||| exists|k: int|
        0 <= k < b.len() && lower(#[trigger] b[k]) == 'e' && is_mantissa(b.take(k)) && is_exponent(
            b.skip(k + 1),
        )
}

/// The strings that `str::parse::<f64>` (and `::<f32>`) accepts, by the grammar in their
/// documentation: an optional sign, then `inf`, `infinity`, `nan` (in any case) or a
/// decimal number.
pub open spec fn is_float_literal(t: Seq<char>) -> bool {
    let b = sign_dropped(t);
    ||| word_ci(b, seq!['i', 'n', 'f'])
    ||| word_ci(b, seq!['i', 'n', 'f', 'i', 'n', 'i', 't', 'y'])
    ||| word_ci(b, seq!['n', 'a', 'n'])
    ||| is_float_number(b)
}

fn lower_char(c: char) -> (r: char)
    ensures
        r == lower(c),
{
    let u = c as u32;
    if 65 <= u && u <= 90 {
        let l = (u + 32) as u8;
        l as char
    } else {
        c
    }
}

/// A copy of `t[s..e]`.
pub fn slice_vec(t: &[char], s: usize, e: usize) -> (r: Vec<char>)
    requires
        s <= e <= t@.len(),
    ensures
        r@ == t@.subrange(s as int, e as int),
{
    let mut r: Vec<char> = Vec::new();
    let mut i = s;
    while i < e
        invariant
            s <= i <= e,
            e <= t@.len(),
            r@ == t@.subrange(s as int, i as int),
        decreases e - i,
    {
        r.push(t[i]);
        proof {
            assert(t@.subrange(s as int, i + 1) =~= t@.subrange(s as int, i as int).push(t@[i as int]));
        }
        i = i + 1;
    }
    r
}

fn word_matches(t: &[char], w: &[char]) -> (r: bool)
    ensures
        r == word_ci(t@, w@),
{
    if t.len() != w.len() {
        return false;
    }
    let n = t.len();
    for i in 0..n
        invariant
            n == t@.len(),
            n == w@.len(),
            forall|j: int| 0 <= j < i ==> lower(#[trigger] t@[j]) == w@[j],
    {
        if lower_char(t[i]) != w[i] {
            return false;
        }
    }
    true
}

fn mantissa_ok(m: &[char]) -> (r: bool)
    ensures
        r == is_mantissa(m@),
{
    let n = m.len();
    let mut dot: Option<usize> = None;
    let mut digit: Option<usize> = None;
    for i in 0..n
        invariant
            n == m@.len(),
            forall|j: int| 0 <= j < i ==> is_digit(#[trigger] m@[j]) || m@[j] == '.',
            forall|a: int, b: int| 0 <= a < b < i && #[trigger] m@[a] == '.' ==> #[trigger] m@[b] != '.',
            match dot {
                Some(d) => d < i && m@[d as int] == '.',
                None => forall|j: int| 0 <= j < i ==> #[trigger] m@[j] != '.',
            },
            match digit {
                Some(d) => d < i && is_digit(m@[d as int]),
                None => forall|j: int| 0 <= j < i ==> !is_digit(#[trigger] m@[j]),
            },
    {
        let c = m[i];
        let u = c as u32;
        if 48 <= u && u <= 57 {
            digit = Some(i);
        } else if c == '.' {
            match dot {
                Some(d) => {
                    proof {
                        assert(m@[d as int] == '.' && m@[i as int] == '.');
                    }
                    return false;
                },
                None => {
                    dot = Some(i);
                },
            }
        } else {
            proof {
                assert(!(is_digit(m@[i as int]) || m@[i as int] == '.'));
            }
            return false;
        }
    }
    match digit {
        Some(d) => {
            proof {
                assert(is_digit(m@[d as int]));
            }
            true
        },
        None => false,
    }
}

fn exponent_ok(x: &[char]) -> (r: bool)
    ensures
        r == is_exponent(x@),
{
    let start: usize = if x.len() > 0 && (x[0] == '+' || x[0] == '-') { 1 } else { 0 };
    proof {
        assert(sign_dropped(x@) =~= x@.skip(start as int));
    }
    let n = x.len();
    if start == n {
        return false;
    }
    let mut i = start;
    while i < n
        invariant
            start <= i <= n,
            n == x@.len(),
            forall|j: int| start <= j < i ==> is_digit(#[trigger] x@[j]),
            sign_dropped(x@) == x@.skip(start as int),
        decreases n - i,
    {
        let u = x[i] as u32;
        if u < 48 || u > 57 {
            proof {
                let d = x@.skip(start as int);
                assert(d[i - start] == x@[i as int]);
                assert(!is_digit(d[i - start]));
            }
            return false;
        }
        i = i + 1;
    }
    proof {
        let d = x@.skip(start as int);
        assert forall|j: int| 0 <= j < d.len() implies is_digit(#[trigger] d[j]) by {
            assert(d[j] == x@[j + start]);
        }
    }
    true
}

fn float_number_ok(b: &[char]) -> (r: bool)
    ensures
        r == is_float_number(b@),
{
    let n = b.len();
    let mut k: usize = 0;
    while k < n
        invariant
            k <= n,
            n == b@.len(),
            forall|j: int| 0 <= j < k ==> lower(#[trigger] b@[j]) != 'e',
        ensures
            k <= n,
            k < n ==> lower(b@[k as int]) == 'e',
            forall|j: int| 0 <= j < k ==> lower(#[trigger] b@[j]) != 'e',
        decreases n - k,
    {
        if lower_char(b[k]) == 'e' {
            break;
        }
        k = k + 1;
    }
    if k == n {
        let r = mantissa_ok(b);
        proof {
            if !r {
                assert forall|k2: int|
                    0 <= k2 < b@.len() && lower(#[trigger] b@[k2]) == 'e' implies !(is_mantissa(
                    b@.take(k2),
                ) && is_exponent(b@.skip(k2 + 1))) by {}
            }
        }
        r
    } else {
        let head = slice_vec(b, 0, k);
        let tail = slice_vec(b, k + 1, n);
        proof {
            assert(head@ =~= b@.take(k as int));
            assert(tail@ =~= b@.skip(k + 1));
        }
        let m = mantissa_ok(head.as_slice());
        let e = exponent_ok(tail.as_slice());
        proof {
            if is_mantissa(b@) {
                assert(lower(b@[k as int]) == 'e');
                assert(is_digit(b@[k as int]) || b@[k as int] == '.');
            }
            if !(m && e) {
                assert forall|k2: int|
                    0 <= k2 < b@.len() && lower(#[trigger] b@[k2]) == 'e' implies !(is_mantissa(
                    b@.take(k2),
                ) && is_exponent(b@.skip(k2 + 1))) by {
                    if k2 > k {
                        let h2 = b@.take(k2);
                        assert(h2[k as int] == b@[k as int]);
                        if is_mantissa(h2) {
                            assert(is_digit(h2[k as int]) || h2[k as int] == '.');
                        }
                    }
                }
            }
        }
        m && e
    }
}

/// Whether `str::parse::<f64>` accepts `t` (see [`is_float_literal`]).
pub fn is_float_token(t: &[char]) -> (r: bool)
    ensures
        r == is_float_literal(t@),
{
    let start: usize = if t.len() > 0 && (t[0] == '+' || t[0] == '-') { 1 } else { 0 };
    let b = slice_vec(t, start, t.len());
    proof {
        assert(b@ =~= sign_dropped(t@));
    }
    let mut inf: Vec<char> = Vec::new();
    inf.push('i');
    inf.push('n');
    inf.push('f');
    let mut infinity: Vec<char> = Vec::new();
    infinity.push('i');
    infinity.push('n');
    infinity.push('f');
    infinity.push('i');
    infinity.push('n');
    infinity.push('i');
    infinity.push('t');
    infinity.push('y');
    let mut nan: Vec<char> = Vec::new();
    nan.push('n');
    nan.push('a');
    nan.push('n');
    proof {
        assert(inf@ =~= seq!['i', 'n', 'f']);
        assert(infinity@ =~= seq!['i', 'n', 'f', 'i', 'n', 'i', 't', 'y']);
        assert(nan@ =~= seq!['n', 'a', 'n']);
    }
    word_matches(b.as_slice(), inf.as_slice()) || word_matches(b.as_slice(), infinity.as_slice())
        || word_matches(b.as_slice(), nan.as_slice()) || float_number_ok(b.as_slice())
}

} // verus!
