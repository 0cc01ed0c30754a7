use vstd::prelude::*;
use chinese_number::{ChineseCase, ChineseCountMethod, ChineseVariant, NumberToChinese, NumberToChineseError};
use crate::text::string_from_chars;

verus! {

/// The value of entry `i` of the Roman numeral table, largest first. Entries from
/// ten thousand up carry an overline (`￣`), meaning a thousand times.
pub open spec fn roman_value(i: nat) -> nat {
    if i == 0 { 1000000 }
    else if i == 1 { 900000 }
    else if i == 2 { 500000 }
    else if i == 3 { 400000 }
    else if i == 4 { 100000 }
    else if i == 5 { 90000 }
    else if i == 6 { 50000 }
    else if i == 7 { 40000 }
    else if i == 8 { 10000 }
    else if i == 9 { 1000 }
    else if i == 10 { 900 }
    else if i == 11 { 500 }
    else if i == 12 { 400 }
    else if i == 13 { 100 }
    else if i == 14 { 90 }
    else if i == 15 { 50 }
    else if i == 16 { 40 }
    else if i == 17 { 10 }
    else if i == 18 { 9 }
    else if i == 19 { 5 }
    else if i == 20 { 4 }
    else { 1 }
}

/// The symbol of entry `i` of the Roman numeral table.
pub open spec fn roman_symbol(i: nat) -> Seq<char> {
    if i == 0 { seq!['M', '￣'] }
    else if i == 1 { seq!['C', 'M', '￣'] }
    else if i == 2 { seq!['D', '￣'] }
    else if i == 3 { seq!['C', 'D', '￣'] }
    else if i == 4 { seq!['C', '￣'] }
    else if i == 5 { seq!['X', 'C', '￣'] }
    else if i == 6 { seq!['L', '￣'] }
    else if i == 7 { seq!['X', 'L', '￣'] }
    else if i == 8 { seq!['X', '￣'] }
    else if i == 9 { seq!['M'] }
    else if i == 10 { seq!['C', 'M'] }
    else if i == 11 { seq!['D'] }
    else if i == 12 { seq!['C', 'D'] }
    else if i == 13 { seq!['C'] }
    else if i == 14 { seq!['X', 'C'] }
    else if i == 15 { seq!['L'] }
    else if i == 16 { seq!['X', 'L'] }
    else if i == 17 { seq!['X'] }
    else if i == 18 { seq!['I', 'X'] }
    else if i == 19 { seq!['V'] }
    else if i == 20 { seq!['I', 'V'] }
    else { seq!['I'] }
}

/// The table entries that write `n` greedily from entry `i` on: as many of the
/// largest entry as fit, then the next.
pub open spec fn roman_parts(n: nat, i: nat) -> Seq<nat>
    decreases n, 22 - i,
{
    if i >= 22 || n == 0 {
        seq![]
    } else if n >= roman_value(i) {
        seq![i] + roman_parts((n - roman_value(i)) as nat, i)
    } else {
        roman_parts(n, i + 1)
    }
}

/// The symbols of a list of table entries, in order.
pub open spec fn roman_text(parts: Seq<nat>) -> Seq<char>
    decreases parts.len(),
{
    if parts.len() == 0 {
        seq![]
    } else {
        roman_symbol(parts[0]) + roman_text(parts.drop_first())
    }
}

/// The values of a list of table entries, added up.
pub open spec fn roman_sum(parts: Seq<nat>) -> nat
    decreases parts.len(),
{
    if parts.len() == 0 {
        0
    } else {
        roman_value(parts[0]) + roman_sum(parts.drop_first())
    }
}

/// How a count is written in Roman numerals; zero is written `-`.
pub open spec fn roman(n: nat) -> Seq<char> {
    if n == 0 {
        seq!['-']
    } else {
        roman_text(roman_parts(n, 0))
    }
}

fn roman_entry(i: usize) -> (r: (u32, Vec<char>))
    requires
        i < 22,
    ensures
        r.0 == roman_value(i as nat),
        r.1@ == roman_symbol(i as nat),
{
    let (v, s) = if i == 0 { (1000000u32, vec!['M', '￣']) }
    else if i == 1 { (900000, vec!['C', 'M', '￣']) }
    else if i == 2 { (500000, vec!['D', '￣']) }
    else if i == 3 { (400000, vec!['C', 'D', '￣']) }
    else if i == 4 { (100000, vec!['C', '￣']) }
    else if i == 5 { (90000, vec!['X', 'C', '￣']) }
    else if i == 6 { (50000, vec!['L', '￣']) }
    else if i == 7 { (40000, vec!['X', 'L', '￣']) }
    else if i == 8 { (10000, vec!['X', '￣']) }
    else if i == 9 { (1000, vec!['M']) }
    else if i == 10 { (900, vec!['C', 'M']) }
    else if i == 11 { (500, vec!['D']) }
    else if i == 12 { (400, vec!['C', 'D']) }
    else if i == 13 { (100, vec!['C']) }
    else if i == 14 { (90, vec!['X', 'C']) }
    else if i == 15 { (50, vec!['L']) }
    else if i == 16 { (40, vec!['X', 'L']) }
    else if i == 17 { (10, vec!['X']) }
    else if i == 18 { (9, vec!['I', 'X']) }
    else if i == 19 { (5, vec!['V']) }
    else if i == 20 { (4, vec!['I', 'V']) }
    else { (1, vec!['I']) };
    (v, s)
}

proof fn lemma_roman_text_concat(a: Seq<nat>, b: Seq<nat>)
    ensures
        roman_text(a + b) == roman_text(a) + roman_text(b),
    decreases a.len(),
{
    if a.len() == 0 {
        assert(a + b =~= b);
    } else {
        assert((a + b).drop_first() =~= a.drop_first() + b);
        lemma_roman_text_concat(a.drop_first(), b);
    }
}

/// The number written in Roman numerals, largest symbols first (zero is `-`).
pub fn int_to_roman(num: u32) -> (r: String)
    ensures
        r@ == roman(num as nat),
{
    if num == 0 {
        let mut v: Vec<char> = Vec::new();
        v.push('-');
        return string_from_chars(v.as_slice());
    }
    let mut out: Vec<char> = Vec::new();
    let mut n = num;
    let mut i: usize = 0;
    while i < 22
        invariant
            0 < num,
            i <= 22,
            roman(num as nat) == out@ + roman_text(roman_parts(n as nat, i as nat)),
        decreases 22 - i,
    {
        let (value, symbol) = roman_entry(i);
        while n >= value
            invariant
                0 < num,
                i < 22,
                value == roman_value(i as nat),
                symbol@ == roman_symbol(i as nat),
                roman(num as nat) == out@ + roman_text(roman_parts(n as nat, i as nat)),
            decreases n,
        {
            let ghost before = out@;
            let ghost rest = roman_parts((n - value) as nat, i as nat);
            for k in 0..symbol.len()
                invariant
                    out@ == before + symbol@.take(k as int),
            {
                out.push(symbol[k]);
                proof {
                    assert(symbol@.take(k + 1) =~= symbol@.take(k as int).push(symbol@[k as int]));
                }
            }
            proof {
                assert(symbol@.take(symbol@.len() as int) =~= symbol@);
                assert(roman_parts(n as nat, i as nat) == seq![i as nat] + rest);
                lemma_roman_text_concat(seq![i as nat], rest);
                assert(roman_text(seq![i as nat]) =~= roman_symbol(i as nat)) by {
                    assert(seq![i as nat].drop_first() =~= Seq::<nat>::empty());
                    assert(roman_text(Seq::<nat>::empty()) == Seq::<char>::empty());
                    assert(roman_symbol(i as nat) + Seq::<char>::empty() =~= roman_symbol(i as nat));
                }
                assert(before + (symbol@ + roman_text(rest)) =~= out@ + roman_text(rest));
            }
            n = n - value;
        }
        proof {
            if n > 0 {
                assert(roman_parts(n as nat, i as nat) == roman_parts(n as nat, (i + 1) as nat));
            } else {
                assert(roman_parts(n as nat, i as nat) =~= Seq::<nat>::empty());
                assert(roman_parts(n as nat, (i + 1) as nat) =~= Seq::<nat>::empty());
            }
        }
        i = i + 1;
    }
    proof {
        assert(roman_parts(n as nat, 22) =~= Seq::<nat>::empty());
        assert(out@ + Seq::<char>::empty() =~= out@);
    }
    string_from_chars(out.as_slice())
}

/// The Roman numeral of a number is made of table entries, largest first, whose
/// values add up to the number.
pub proof fn law_roman_parts_sum(n: nat, i: nat)
    requires
        i <= 21,
    ensures
        roman_sum(roman_parts(n, i)) == n,
        forall|a: int, b: int|
            0 <= a < b < roman_parts(n, i).len() ==> roman_parts(n, i)[a] <= roman_parts(n, i)[b],
        forall|a: int| 0 <= a < roman_parts(n, i).len() ==> i <= #[trigger] roman_parts(n, i)[a],
        forall|a: int| 0 <= a < roman_parts(n, i).len() ==> #[trigger] roman_parts(n, i)[a] <= 21,
    decreases n, 22 - i,
{
    if n == 0 {
    } else if n >= roman_value(i) {
        let m = (n - roman_value(i)) as nat;
        law_roman_parts_sum(m, i);
        let p = seq![i] + roman_parts(m, i);
        assert(p.drop_first() =~= roman_parts(m, i));
    } else {
        if i == 21 {
            assert(roman_value(21) == 1);
        }
        law_roman_parts_sum(n, i + 1);
    }
}

} // verus!

verus! {

/// The character of a decimal digit.
pub open spec fn cn_digit(d: nat) -> char {
    if d == 0 { '零' }
    else if d == 1 { '一' }
    else if d == 2 { '二' }
    else if d == 3 { '三' }
    else if d == 4 { '四' }
    else if d == 5 { '五' }
    else if d == 6 { '六' }
    else if d == 7 { '七' }
    else if d == 8 { '八' }
    else { '九' }
}

/// The unit written after a digit at place `i` (ones, tens, ... hundred millions).
pub open spec fn cn_unit(i: nat) -> Seq<char> {
    if i == 1 { seq!['十'] }
    else if i == 2 { seq!['百'] }
    else if i == 3 { seq!['千'] }
    else if i == 4 { seq!['万'] }
    else if i == 5 { seq!['十', '万'] }
    else if i == 6 { seq!['百', '万'] }
    else if i == 7 { seq!['千', '万'] }
    else if i == 8 { seq!['亿'] }
    else { seq![] }
}

/// One digit at place `i`, read from the right, put in front of the text so far:
/// a nonzero digit is written with its unit, after a `零` when zeros were skipped.
pub open spec fn cn_step(res: Seq<char>, need_zero: bool, d: nat, i: nat) -> (Seq<char>, bool) {
    if d != 0 {
        let r1 = if need_zero { seq!['零'] + res } else { res };
        (seq![cn_digit(d)] + cn_unit(i) + r1, false)
    } else if !(res.len() > 0 && res[0] == '零') {
        (res, true)
    } else {
        (res, need_zero)
    }
}

/// The digits of `m`, from place `i` on, put in front of `res`.
pub open spec fn cn_digits(m: nat, i: nat, res: Seq<char>, need_zero: bool) -> Seq<char>
    decreases m,
{
    if m == 0 {
        res
    } else {
        let s = cn_step(res, need_zero, m % 10, i);
        cn_digits(m / 10, i + 1, s.0, s.1)
    }
}

/// The whole part of a number in Chinese numerals: zero is `零`, a leading `一十`
/// loses its `一`, and a trailing `零` is dropped.
pub open spec fn chinese_integer(n: nat) -> Seq<char> {
    if n == 0 {
        seq!['零']
    } else {
        let r = cn_digits(n, 0, seq![], false);
        let r2 = if r.len() >= 2 && r[0] == '一' && r[1] == '十' { r.drop_first() } else { r };
        if r2.len() > 0 && r2.last() == '零' {
            r2.drop_last()
        } else {
            r2
        }
    }
}

pub open spec fn pow10(k: nat) -> nat
    decreases k,
{
    if k == 0 {
        1
    } else {
        10 * pow10((k - 1) as nat)
    }
}

proof fn lemma_pow10_grows(k: nat)
    ensures
        k >= 9 ==> pow10(k) >= 1_000_000_000,
        pow10(k) >= 1,
    decreases k,
{
    if k > 0 {
        lemma_pow10_grows((k - 1) as nat);
    }
    if k == 9 {
        reveal_with_fuel(pow10, 10);
    }
}

fn digit_char(d: u64) -> (r: char)
    requires
        d < 10,
    ensures
        r == cn_digit(d as nat),
{
    if d == 0 { '零' }
    else if d == 1 { '一' }
    else if d == 2 { '二' }
    else if d == 3 { '三' }
    else if d == 4 { '四' }
    else if d == 5 { '五' }
    else if d == 6 { '六' }
    else if d == 7 { '七' }
    else if d == 8 { '八' }
    else { '九' }
}

fn unit_chars(i: usize) -> (r: Vec<char>)
    ensures
        r@ == cn_unit(i as nat),
{
    if i == 1 { vec!['十'] }
    else if i == 2 { vec!['百'] }
    else if i == 3 { vec!['千'] }
    else if i == 4 { vec!['万'] }
    else if i == 5 { vec!['十', '万'] }
    else if i == 6 { vec!['百', '万'] }
    else if i == 7 { vec!['千', '万'] }
    else if i == 8 { vec!['亿'] }
    else { Vec::new() }
}

/// The whole part of a number in Chinese numerals, for numbers below one
/// thousand million (the unit table ends at hundred millions).
pub fn integer_to_chinese(n: u64) -> (r: String)
    requires
        n < 1_000_000_000,
    ensures
        r@ == chinese_integer(n as nat),
{
    if n == 0 {
        let mut v: Vec<char> = Vec::new();
        v.push('零');
        return string_from_chars(v.as_slice());
    }
    let mut res: Vec<char> = Vec::new();
    let mut m = n;
    let mut ui: usize = 0;
    let mut need_zero = false;
    proof {
        assert(pow10(0) == 1);
    }
    while m > 0
        invariant
            n < 1_000_000_000,
            m * pow10(ui as nat) <= n,
            ui <= 9,
            cn_digits(n as nat, 0, seq![], false) == cn_digits(m as nat, ui as nat, res@, need_zero),
        decreases m,
    {
        proof {
            lemma_pow10_grows(ui as nat);
            assert(pow10(ui as nat) <= m * pow10(ui as nat)) by (nonlinear_arith)
                requires
                    m >= 1,
            ;
        }
        let d = m % 10;
        let ghost s = cn_step(res@, need_zero, d as nat, ui as nat);
        if d != 0 {
            let mut nv: Vec<char> = Vec::new();
            nv.push(digit_char(d));
            let mut u = unit_chars(ui);
            nv.append(&mut u);
            if need_zero {
                nv.push('零');
            }
            nv.append(&mut res);
            res = nv;
            need_zero = false;
            proof {
                let r1 = if s.1 { seq!['零'] + res@ } else { res@ };
                assert(res@ =~= s.0);
            }
        } else if !(res.len() > 0 && res[0] == '零') {
            need_zero = true;
        }
        assert(res@ == s.0 && need_zero == s.1);
        proof {
            let p = pow10(ui as nat);
            assert((m / 10) * (10 * p) <= m * p) by (nonlinear_arith)
                requires
                    p >= 1,
            ;
            assert(pow10((ui + 1) as nat) == 10 * p);
        }
        m = m / 10;
        ui = ui + 1;
    }
    let len = res.len();
    if len >= 2 && res[0] == '一' && res[1] == '十' {
        res.remove(0);
    }
    let len = res.len();
    if len > 0 && res[len - 1] == '零' {
        res.pop();
    }
    proof {
        let r = cn_digits(n as nat, 0, seq![], false);
        let r2 = if r.len() >= 2 && r[0] == '一' && r[1] == '十' { r.drop_first() } else { r };
        assert(res@ =~= (if r2.len() > 0 && r2.last() == '零' { r2.drop_last() } else { r2 }));
    }
    string_from_chars(res.as_slice())
}

} // verus!

verus! {

/// Declares the error type of `chinese_number`'s conversions.
#[verifier::external_type_specification]
#[verifier::external_body]
pub struct ExNumberToChineseError(NumberToChineseError);

/// The text that `chinese_number` gives for a number in simplified, lower-case
/// characters counted by ten thousands.
pub uninterp spec fn chinese_numeral(n: u32) -> Seq<char>;

/// `NumberToChinese::to_chinese` on a `u32`, simplified, lower case, counted by ten
/// thousands. Its source widens the number to `u128` and answers `Ok` for every
/// number when counting by ten thousands; the text itself is named, not stated.
#[verifier::external_body]
fn to_chinese_ten_thousand(num: u32) -> (r: Result<String, NumberToChineseError>)
    ensures
        match r {
            Ok(s) => s@ == chinese_numeral(num),
            Err(_) => false,
        },
{
    num.to_chinese(ChineseVariant::Simple, ChineseCase::Lower, ChineseCountMethod::TenThousand)
}

/// The number in Chinese numerals (simplified, lower case, counted by ten thousands).
pub fn int_to_chinese(num: u32) -> (r: String)
    ensures
        r@ == chinese_numeral(num),
{
    match to_chinese_ten_thousand(num) {
        Ok(s) => s,
        Err(_) => String::new(),
    }
}

} // verus!

verus! {

/// The value of a Roman letter; other characters count nothing.
pub open spec fn letter_value(c: char) -> nat {
    if c == 'I' { 1 }
    else if c == 'V' { 5 }
    else if c == 'X' { 10 }
    else if c == 'L' { 50 }
    else if c == 'C' { 100 }
    else if c == 'D' { 500 }
    else if c == 'M' { 1000 }
    else { 0 }
}

/// Whether an overline (`￣`) occurs in `t`.
pub open spec fn has_bar(t: Seq<char>) -> bool
    decreases t.len(),
{
    t.len() > 0 && (t[0] == '￣' || has_bar(t.drop_first()))
}

/// The values of the letters of a numeral, in order. A letter that an overline
/// follows (anywhere later) counts a thousand times; the overline itself is no letter.
pub open spec fn units(s: Seq<char>) -> Seq<nat>
    decreases s.len(),
{
    if s.len() == 0 {
        seq![]
    } else if s[0] == '￣' {
        units(s.drop_first())
    } else {
        seq![letter_value(s[0]) * if has_bar(s.drop_first()) { 1000nat } else { 1nat }] + units(
            s.drop_first(),
        )
    }
}

/// Reads letter values by the Roman rule: a value written before a larger one is
/// subtracted, any other is added.
pub open spec fn read_units(vs: Seq<nat>) -> int
    decreases vs.len(),
{
    if vs.len() == 0 {
        0
    } else if vs.len() >= 2 && vs[0] < vs[1] {
        read_units(vs.drop_first()) - vs[0]
    } else {
        read_units(vs.drop_first()) + vs[0]
    }
}

/// The number a Roman numeral stands for.
pub open spec fn read_roman(s: Seq<char>) -> int {
    read_units(units(s))
}

proof fn lemma_has_bar_concat(a: Seq<char>, b: Seq<char>)
    ensures
        has_bar(a + b) == (has_bar(a) || has_bar(b)),
    decreases a.len(),
{
    if a.len() > 0 {
        assert((a + b).drop_first() =~= a.drop_first() + b);
        lemma_has_bar_concat(a.drop_first(), b);
    } else {
        assert(a + b =~= b);
    }
}

proof fn lemma_units_concat(a: Seq<char>, b: Seq<char>)
    requires
        (a.len() > 0 && a.last() == '￣') || !has_bar(b),
    ensures
        units(a + b) == units(a) + units(b),
    decreases a.len(),
{
    if a.len() == 0 {
        assert(a + b =~= b);
        assert(units(a) + units(b) =~= units(b));
    } else {
        let t = a.drop_first();
        assert((a + b).drop_first() =~= t + b);
        assert((a + b)[0] == a[0]);
        if t.len() > 0 {
            assert(t.last() == a.last());
            lemma_units_concat(t, b);
        } else {
            assert(t + b =~= b);
            assert(units(t) == Seq::<nat>::empty());
            assert(units(t) + units(b) =~= units(b));
        }
        lemma_has_bar_concat(t, b);
        if a[0] != '￣' && a.last() == '￣' && a.len() > 1 {
            assert(t[t.len() - 1] == '￣');
            lemma_bar_at(t, t.len() - 1);
        }
        assert(units(a + b) =~= units(a) + units(b));
    }
}

proof fn lemma_bar_at(t: Seq<char>, k: int)
    requires
        0 <= k < t.len(),
        t[k] == '￣',
    ensures
        has_bar(t),
    decreases k,
{
    if k > 0 {
        lemma_bar_at(t.drop_first(), k - 1);
    }
}

proof fn lemma_read_concat(a: Seq<nat>, b: Seq<nat>)
    requires
        a.len() > 0,
        b.len() > 0 ==> a.last() >= b[0],
    ensures
        read_units(a + b) == read_units(a) + read_units(b),
    decreases a.len(),
{
    let t = a.drop_first();
    assert((a + b).drop_first() =~= t + b);
    if a.len() == 1 {
        assert(t + b =~= b);
        assert(read_units(t) == 0);
    } else {
        assert((a + b)[1] == a[1]);
        lemma_read_concat(t, b);
    }
}

proof fn lemma_units_shapes(c: char, d: char)
    requires
        c != '￣',
        d != '￣',
    ensures
        units(seq![c]) == seq![letter_value(c)],
        units(seq![c, d]) == seq![letter_value(c), letter_value(d)],
        units(seq![c, '￣']) == seq![letter_value(c) * 1000],
        units(seq![c, d, '￣']) == seq![letter_value(c) * 1000, letter_value(d) * 1000],
        !has_bar(seq![c]),
        !has_bar(seq![c, d]),
{
    let e = Seq::<char>::empty();
    assert(seq![c].drop_first() =~= e);
    assert(seq![d].drop_first() =~= e);
    assert(seq!['￣'].drop_first() =~= e);
    assert(seq![c, d].drop_first() =~= seq![d]);
    assert(seq![c, '￣'].drop_first() =~= seq!['￣']);
    assert(seq![d, '￣'].drop_first() =~= seq!['￣']);
    assert(seq![c, d, '￣'].drop_first() =~= seq![d, '￣']);
    assert(!has_bar(e));
    assert(has_bar(seq!['￣']));
    assert(units(e) == Seq::<nat>::empty());
    assert(units(seq!['￣']) == Seq::<nat>::empty());
    assert(units(seq![d]) =~= seq![letter_value(d)]);
    assert(units(seq![c]) =~= seq![letter_value(c)]);
    assert(units(seq![c, d]) =~= seq![letter_value(c), letter_value(d)]);
    assert(has_bar(seq![d, '￣']));
    assert(units(seq![d, '￣']) =~= seq![letter_value(d) * 1000]);
    assert(units(seq![c, '￣']) =~= seq![letter_value(c) * 1000]);
    assert(units(seq![c, d, '￣']) =~= seq![letter_value(c) * 1000, letter_value(d) * 1000]);
}

proof fn lemma_read_small(x: nat, y: nat)
    ensures
        read_units(seq![x]) == x,
        read_units(seq![x, y]) == if x < y { y - x } else { (x + y) as int },
{
    assert(seq![x].drop_first() =~= Seq::<nat>::empty());
    assert(seq![y].drop_first() =~= Seq::<nat>::empty());
    assert(seq![x, y].drop_first() =~= seq![y]);
    assert(read_units(Seq::<nat>::empty()) == 0);
    assert(read_units(seq![y]) == y);
    assert(read_units(seq![x]) == x);
}

/// What each table entry reads as, and how its letters bound its value.
proof fn lemma_entry(i: nat)
    requires
        i <= 21,
    ensures
        ({
            let u = units(roman_symbol(i));
            &&& u.len() > 0
            &&& read_units(u) == roman_value(i)
            &&& u[0] <= roman_value(i)
            &&& u.last() >= roman_value(i)
            &&& i <= 8 ==> roman_symbol(i).len() > 0 && roman_symbol(i).last() == '￣'
            &&& i >= 9 ==> !has_bar(roman_symbol(i))
        }),
{
    let s = roman_symbol(i);
    let (c, d) = if s.len() >= 2 && s[1] != '￣' { (s[0], s[1]) } else { (s[0], 'I') };
    assert(c != '￣' && d != '￣');
    lemma_units_shapes(c, d);
    let u = units(s);
    if i <= 8 {
        if s.len() == 2 {
            assert(s =~= seq![c, '￣']);
        } else {
            assert(s =~= seq![c, d, '￣']);
        }
    } else if s.len() == 1 {
        assert(s =~= seq![c]);
    } else {
        assert(s =~= seq![c, d]);
    }
    if u.len() == 1 {
        lemma_read_small(u[0], 0);
        assert(u =~= seq![u[0]]);
    } else {
        lemma_read_small(u[0], u[1]);
        assert(u =~= seq![u[0], u[1]]);
    }
}

proof fn lemma_value_order(i: nat, j: nat)
    requires
        i <= j <= 21,
    ensures
        roman_value(j) <= roman_value(i),
{
}

proof fn lemma_no_bar_text(parts: Seq<nat>)
    requires
        forall|a: int| 0 <= a < parts.len() ==> 9 <= #[trigger] parts[a] <= 21,
    ensures
        !has_bar(roman_text(parts)),
    decreases parts.len(),
{
    if parts.len() > 0 {
        let rest = parts.drop_first();
        assert forall|a: int| 0 <= a < rest.len() implies 9 <= #[trigger] rest[a] <= 21 by {
            assert(rest[a] == parts[a + 1]);
        }
        lemma_no_bar_text(rest);
        lemma_entry(parts[0]);
        lemma_has_bar_concat(roman_symbol(parts[0]), roman_text(rest));
    } else {
        assert(roman_text(parts) =~= Seq::<char>::empty());
    }
}

proof fn lemma_read_text(parts: Seq<nat>)
    requires
        forall|a: int| 0 <= a < parts.len() ==> #[trigger] parts[a] <= 21,
        forall|a: int, b: int| 0 <= a < b < parts.len() ==> parts[a] <= parts[b],
    ensures
        read_units(units(roman_text(parts))) == roman_sum(parts),
        parts.len() > 0 ==> units(roman_text(parts)).len() > 0 && units(roman_text(parts))[0]
            <= roman_value(parts[0]),
    decreases parts.len(),
{
    if parts.len() == 0 {
        assert(roman_text(parts) =~= Seq::<char>::empty());
        assert(units(Seq::<char>::empty()) =~= Seq::<nat>::empty());
    } else {
        let p = parts[0];
        let rest = parts.drop_first();
        assert forall|a: int| 0 <= a < rest.len() implies #[trigger] rest[a] <= 21 by {
            assert(rest[a] == parts[a + 1]);
        }
        assert forall|a: int, b: int| 0 <= a < b < rest.len() implies rest[a] <= rest[b] by {
            assert(rest[a] == parts[a + 1] && rest[b] == parts[b + 1]);
        }
        lemma_read_text(rest);
        lemma_entry(p);
        let sym = roman_symbol(p);
        let tail = roman_text(rest);
        if p >= 9 {
            assert forall|a: int| 0 <= a < rest.len() implies 9 <= #[trigger] rest[a] <= 21 by {
                assert(rest[a] == parts[a + 1]);
                assert(parts[0] <= parts[a + 1]);
            }
            lemma_no_bar_text(rest);
        }
        lemma_units_concat(sym, tail);
        let us = units(sym);
        let ut = units(tail);
        if rest.len() > 0 {
            assert(rest[0] == parts[1]);
            lemma_value_order(p, rest[0]);
        } else {
            assert(tail =~= Seq::<char>::empty());
            assert(ut =~= Seq::<nat>::empty());
        }
        lemma_read_concat(us, ut);
        assert((us + ut)[0] == us[0]);
    }
}

/// Reading a number's Roman numeral back by the Roman rules gives the number: a
/// letter before a larger one subtracts, the overline (`￣`) multiplies the letters
/// before it by a thousand, and zero's `-` reads as nothing.
pub proof fn law_roman_reads_back(n: u32)
    ensures
        read_roman(roman(n as nat)) == n,
{
    if n == 0 {
        let s = seq!['-'];
        assert(s.drop_first() =~= Seq::<char>::empty());
        assert(units(Seq::<char>::empty()) =~= Seq::<nat>::empty());
        assert(!has_bar(Seq::<char>::empty()));
        assert(units(s) =~= seq![0nat]);
        assert(seq![0nat].drop_first() =~= Seq::<nat>::empty());
        assert(read_units(Seq::<nat>::empty()) == 0);
    } else {
        law_roman_parts_sum(n as nat, 0);
        lemma_read_text(roman_parts(n as nat, 0));
    }
}

} // verus!
