use vstd::prelude::*;

use crate::decimal::{pow10, power_of_ten, Decimal, MAX_READING_SCALE, READING_BOUND};

verus! {

pub open spec fn is_digit(c: char) -> bool {
    '0' <= c && c <= '9'
}

pub open spec fn all_digits(s: Seq<char>) -> bool {
    forall|i: int| 0 <= i < s.len() ==> is_digit(#[trigger] s[i])
}

/// The number that a run of decimal digits spells, most significant first.
pub open spec fn digits_value(s: Seq<char>) -> int
    decreases s.len(),
{
    if s.len() == 0 {
        0
    } else {
        digits_value(s.drop_last()) * 10 + (s.last() as int - '0' as int)
    }
}

/// What stands between the mantissa and the exponent digits: `e` or `E`,
/// then an optional sign.
pub open spec fn is_exponent_head(h: Seq<char>) -> bool {
    &&& 1 <= h.len() <= 2
    &&& (h[0] == 'e' || h[0] == 'E')
    &&& (h.len() == 2 ==> h[1] == '-' || h[1] == '+')
}

/// Whether an exponent head carries a minus sign.
pub open spec fn is_negative_exponent(h: Seq<char>) -> bool {
    h.len() == 2 && h[1] == '-'
}

/// The text `[-]int[.frac][e[sign]exp]` made of the given parts; an empty
/// `frac` or `exp` stands for the part being left out.
pub open spec fn number_text(
    negative: bool,
    int_digits: Seq<char>,
    frac_digits: Seq<char>,
    exp_head: Seq<char>,
    exp_digits: Seq<char>,
) -> Seq<char> {
    (if negative { seq!['-'] } else { Seq::empty() }) + int_digits + (if frac_digits.len() > 0 {
        seq!['.'] + frac_digits
    } else {
        Seq::empty()
    }) + (if exp_digits.len() > 0 { exp_head + exp_digits } else { Seq::empty() })
}

/// `d` is the number `mantissa * 10^exponent`, held with no more fraction
/// digits than the exponent asks for.
pub open spec fn denotes(d: Decimal, mantissa: int, exponent: int) -> bool {
    if exponent >= 0 {
        d.scale == 0 && d.coefficient == mantissa * pow10(exponent as nat)
    } else {
        d.scale == -exponent && d.coefficient == mantissa
    }
}

/// `text` is written with the given parts, and `d` holds its value exactly.
pub open spec fn spelled_by(
    text: Seq<char>,
    d: Decimal,
    negative: bool,
    int_digits: Seq<char>,
    frac_digits: Seq<char>,
    exp_head: Seq<char>,
    exp_digits: Seq<char>,
) -> bool {
    &&& text == number_text(negative, int_digits, frac_digits, exp_head, exp_digits)
    &&& int_digits.len() > 0
    &&& all_digits(int_digits)
    &&& all_digits(frac_digits)
    &&& all_digits(exp_digits)
    &&& (exp_digits.len() > 0 ==> is_exponent_head(exp_head))
    &&& denotes(
        d,
        (if negative { -1int } else { 1 }) * digits_value(int_digits + frac_digits),
        (if is_negative_exponent(exp_head) {
            -digits_value(exp_digits)
        } else {
            digits_value(exp_digits)
        }) - frac_digits.len(),
    )
}

/// `text` is a decimal number written in parts that `d` holds exactly.
pub open spec fn spells(text: Seq<char>, d: Decimal) -> bool {
    exists|
        negative: bool,
        int_digits: Seq<char>,
        frac_digits: Seq<char>,
        exp_head: Seq<char>,
        exp_digits: Seq<char>,
    | #[trigger] spelled_by(text, d, negative, int_digits, frac_digits, exp_head, exp_digits)
}

/// Exponents are read up to this bound. Beyond it a text that fits in memory
/// spells a reading only where its mantissa is zero and its exponent positive.
pub const EXPONENT_BOUND: i128 = 10_000_000_000_000_000_000_000_000_000_000_000_000;

/// Where the run of digits that starts at `i` ends.
pub open spec fn run_end(s: Seq<char>, i: int) -> int
    decreases s.len() - i,
{
    if 0 <= i < s.len() && is_digit(s[i]) {
        run_end(s, i + 1)
    } else {
        i
    }
}

proof fn lemma_run_end(s: Seq<char>, i: int, j: int)
    requires
        0 <= i <= j <= s.len(),
        all_digits(s.subrange(i, j)),
    ensures
        run_end(s, i) == run_end(s, j),
    decreases j - i,
{
    if i < j {
        assert(s.subrange(i + 1, j) =~= s.subrange(i, j).subrange(1, j - i));
        assert(is_digit(s.subrange(i, j)[0]));
        lemma_run_end(s, i + 1, j);
    }
}

proof fn lemma_digits_value_nonneg(s: Seq<char>)
    requires
        all_digits(s),
    ensures
        digits_value(s) >= 0,
    decreases s.len(),
{
    if s.len() > 0 {
        assert(is_digit(s[s.len() - 1]));
        assert(all_digits(s.drop_last()));
        lemma_digits_value_nonneg(s.drop_last());
    }
}

/// Appending digits never makes the value smaller.
proof fn lemma_digits_value_grows(a: Seq<char>, b: Seq<char>)
    requires
        all_digits(a),
        all_digits(b),
    ensures
        digits_value(a + b) >= digits_value(a),
    decreases b.len(),
{
    if b.len() > 0 {
        assert((a + b).drop_last() =~= a + b.drop_last());
        assert(is_digit(b[b.len() - 1]));
        assert(all_digits(b.drop_last()));
        lemma_digits_value_grows(a, b.drop_last());
        assert(all_digits(a + b.drop_last()));
        lemma_digits_value_nonneg(a + b.drop_last());
    } else {
        assert(a + b =~= a);
    }
}

/// Reads the digits of `text` from `start` onwards, adding them to `acc`, the
/// value of the digits read before. Returns the value and where the digits end,
/// or `None` once the value reaches `bound`.
fn scan_digits(text: &str, start: usize, acc: i128, bound: i128, Ghost(before): Ghost<Seq<char>>) -> (r:
    Option<(i128, usize)>)
    requires
        start <= text@.len(),
        all_digits(before),
        acc == digits_value(before),
        0 <= acc < bound,
        10 <= bound <= EXPONENT_BOUND,
    ensures
        match r {
            Some((v, end)) => {
                &&& end == run_end(text@, start as int)
                &&& start <= end <= text@.len()
                &&& all_digits(text@.subrange(start as int, end as int))
                &&& (end == text@.len() || !is_digit(text@[end as int]))
                &&& v == digits_value(before + text@.subrange(start as int, end as int))
                &&& 0 <= v < bound
            },
            None => digits_value(before + text@.subrange(start as int, run_end(text@, start as int)))
                >= bound && all_digits(text@.subrange(start as int, run_end(text@, start as int))),
        },
{
    let len = text.unicode_len();
    let mut i = start;
    let mut v = acc;
    assert(before + text@.subrange(start as int, start as int) =~= before);
    while i < len
        invariant
            len == text@.len(),
            start <= i <= len,
            all_digits(text@.subrange(start as int, i as int)),
            v == digits_value(before + text@.subrange(start as int, i as int)),
            0 <= v < bound,
            10 <= bound <= EXPONENT_BOUND,
            all_digits(before),
            run_end(text@, start as int) == run_end(text@, i as int),
        decreases len - i,
    {
        let c = text.get_char(i);
        if c < '0' || c > '9' {
            return Some((v, i));
        }
        proof {
            assert(text@.subrange(start as int, i + 1) =~= text@.subrange(start as int, i as int).push(c));
            lemma_run_end(text@, start as int, i + 1);
        }
        let digit = (c as u32 - '0' as u32) as i128;
        assert(0 <= digit <= 9);
        if v > (bound - 1 - digit) / 10 {
            proof {
                let e = run_end(text@, start as int);
                let head = before + text@.subrange(start as int, i + 1);
                assert(head.drop_last() =~= before + text@.subrange(start as int, i as int));
                assert(v * 10 + digit >= bound) by (nonlinear_arith)
                    requires
                        v > (bound - 1 - digit) / 10,
                        0 <= digit <= 9,
                        bound > 0,
                ;
                lemma_run_end_bound(text@, i + 1);
                lemma_run_digits(text@, start as int, i + 1);
                assert(before + text@.subrange(start as int, e) =~= head + text@.subrange(i + 1, e));
                assert(all_digits(head));
                lemma_digits_value_grows(head, text@.subrange(i + 1, e));
            }
            return None;
        }
        assert(v * 10 + digit < bound) by (nonlinear_arith)
            requires
                v <= (bound - 1 - digit) / 10,
                0 <= digit <= 9,
                bound > 0,
        ;
        let ghost prev = before + text@.subrange(start as int, i as int);
        let ghost next = before + text@.subrange(start as int, i + 1);
        assert(next.drop_last() =~= prev);
        assert(next.last() == c);
        assert(text@.subrange(start as int, i + 1) =~= text@.subrange(start as int, i as int).push(c));
        v = v * 10 + digit;
        i = i + 1;
    }
    Some((v, i))
}

proof fn lemma_run_end_bound(s: Seq<char>, i: int)
    requires
        0 <= i <= s.len(),
    ensures
        i <= run_end(s, i) <= s.len(),
        run_end(s, i) == s.len() || !is_digit(s[run_end(s, i)]),
    decreases s.len() - i,
{
    if i < s.len() && is_digit(s[i]) {
        lemma_run_end_bound(s, i + 1);
    }
}

/// The run that starts at `i` is made of digits.
proof fn lemma_run_is_digits(s: Seq<char>, i: int)
    requires
        0 <= i <= s.len(),
    ensures
        all_digits(s.subrange(i, run_end(s, i))),
    decreases s.len() - i,
{
    lemma_run_end_bound(s, i);
    if i < s.len() && is_digit(s[i]) {
        lemma_run_is_digits(s, i + 1);
        let e = run_end(s, i);
        assert forall|k: int| 0 <= k < e - i implies is_digit(#[trigger] s.subrange(i, e)[k]) by {
            assert(s.subrange(i, e)[k] == s[i + k]);
            if k > 0 {
                assert(s.subrange(i + 1, e)[k - 1] == s[i + k]);
            }
        }
    }
}

/// The characters from `i` to the end of the run that starts at `start`, where
/// `start..i` are digits, are digits too.
proof fn lemma_run_digits(s: Seq<char>, start: int, i: int)
    requires
        0 <= start <= i <= s.len(),
        all_digits(s.subrange(start, i)),
    ensures
        run_end(s, start) >= i,
        all_digits(s.subrange(start, run_end(s, start))),
        all_digits(s.subrange(i, run_end(s, start))),
{
    lemma_run_end(s, start, i);
    lemma_run_end_bound(s, i);
    lemma_run_is_digits(s, i);
    let e = run_end(s, i);
    assert forall|k: int| 0 <= k < e - start implies is_digit(#[trigger] s.subrange(start, e)[k]) by {
        if k < i - start {
            assert(s.subrange(start, e)[k] == s.subrange(start, i)[k]);
        } else {
            assert(s.subrange(start, e)[k] == s.subrange(i, e)[k - (i - start)]);
        }
    }
}

/// Where the parts of a written number stand in its text: each run of
/// digits is a maximal run, and each separator sits right after it.
proof fn lemma_parts(
    text: Seq<char>,
    negative: bool,
    int_digits: Seq<char>,
    frac_digits: Seq<char>,
    exp_head: Seq<char>,
    exp_digits: Seq<char>,
)
    requires
        text == number_text(negative, int_digits, frac_digits, exp_head, exp_digits),
        int_digits.len() > 0,
        all_digits(int_digits),
        all_digits(frac_digits),
        all_digits(exp_digits),
        exp_digits.len() > 0 ==> is_exponent_head(exp_head),
    ensures
        ({
            let a = if negative { 1int } else { 0int };
            let i1 = a + int_digits.len();
            let i2 = i1 + if frac_digits.len() > 0 { 1 + frac_digits.len() as int } else { 0int };
            let i3 = i2 + if exp_digits.len() > 0 { exp_head.len() as int } else { 0int };
            &&& text.len() == i3 + exp_digits.len()
            &&& (text[0] == '-') == negative
            &&& run_end(text, a) == i1
            &&& text.subrange(a, i1) == int_digits
            &&& frac_digits.len() > 0 ==> text[i1] == '.' && run_end(text, i1 + 1) == i2
                && text.subrange(i1 + 1, i2) == frac_digits
            &&& frac_digits.len() == 0 ==> i1 == text.len() || text[i1] == 'e' || text[i1] == 'E'
            &&& exp_digits.len() > 0 ==> i2 < text.len() && (text[i2] == 'e' || text[i2] == 'E')
            &&& exp_digits.len() > 0 ==> (exp_head.len() == 2 <==> (text[i2 + 1] == '-' || text[i2
                + 1] == '+'))
            &&& exp_digits.len() > 0 && exp_head.len() == 2 ==> text[i2 + 1] == exp_head[1]
            &&& exp_digits.len() > 0 ==> run_end(text, i3) == text.len() && text.subrange(
                i3,
                text.len() as int,
            ) == exp_digits
            &&& exp_digits.len() == 0 ==> i2 == text.len()
        }),
{
    let a = if negative { 1int } else { 0int };
    let i1 = a + int_digits.len();
    let i2 = i1 + if frac_digits.len() > 0 { 1 + frac_digits.len() as int } else { 0int };
    let i3 = i2 + if exp_digits.len() > 0 { exp_head.len() as int } else { 0int };
    let sign_part: Seq<char> = if negative { seq!['-'] } else { Seq::empty() };
    let frac_part: Seq<char> = if frac_digits.len() > 0 {
        seq!['.'] + frac_digits
    } else {
        Seq::empty()
    };
    let exp_part: Seq<char> = if exp_digits.len() > 0 {
        exp_head + exp_digits
    } else {
        Seq::empty()
    };
    assert(text == sign_part + int_digits + frac_part + exp_part);
    assert(text.len() == i3 + exp_digits.len());
    assert(text.subrange(a, i1) =~= int_digits);
    assert(text.subrange(i1, i2) =~= frac_part);
    assert(text.subrange(i2, text.len() as int) =~= exp_part);
    if !negative {
        assert(text[0] == int_digits[0]);
        assert(is_digit(int_digits[0]));
    }
    lemma_run_end(text, a, i1);
    if frac_digits.len() > 0 {
        assert(text[i1] == frac_part[0]);
        assert(text.subrange(i1 + 1, i2) =~= frac_digits);
        lemma_run_end(text, i1 + 1, i2);
    } else if i1 < text.len() {
        assert(text[i1] == exp_part[0]);
    }
    if exp_digits.len() > 0 {
        assert(text[i2] == exp_part[0]);
        assert(text.subrange(i3, text.len() as int) =~= exp_digits);
        lemma_run_end(text, i3, text.len() as int);
        assert(text[i2 + 1] == exp_part[1]);
        if exp_head.len() == 1 {
            assert(exp_part[1] == exp_digits[0]);
            assert(is_digit(exp_digits[0]));
        }
        if i2 < text.len() {
            assert(text[i2] == exp_part[0]);
        }
    } else {
        assert(text.len() == i2);
    }
    if frac_digits.len() > 0 && i2 < text.len() {
        assert(text[i2] == exp_part[0]);
    }
}

spec fn sign_end(t: Seq<char>) -> int {
    if t.len() > 0 && t[0] == '-' {
        1
    } else {
        0
    }
}

spec fn int_end(t: Seq<char>) -> int {
    run_end(t, sign_end(t))
}

spec fn has_frac(t: Seq<char>) -> bool {
    int_end(t) < t.len() && t[int_end(t)] == '.'
}

spec fn frac_start(t: Seq<char>) -> int {
    if has_frac(t) {
        int_end(t) + 1
    } else {
        int_end(t)
    }
}

spec fn frac_end(t: Seq<char>) -> int {
    if has_frac(t) {
        run_end(t, frac_start(t))
    } else {
        int_end(t)
    }
}

spec fn has_exp(t: Seq<char>) -> bool {
    frac_end(t) < t.len() && (t[frac_end(t)] == 'e' || t[frac_end(t)] == 'E')
}

spec fn exp_signed(t: Seq<char>) -> bool {
    has_exp(t) && frac_end(t) + 1 < t.len() && (t[frac_end(t) + 1] == '-' || t[frac_end(t) + 1]
        == '+')
}

spec fn exp_negative(t: Seq<char>) -> bool {
    exp_signed(t) && t[frac_end(t) + 1] == '-'
}

spec fn exp_start(t: Seq<char>) -> int {
    if has_exp(t) {
        frac_end(t) + 1 + if exp_signed(t) {
            1int
        } else {
            0int
        }
    } else {
        frac_end(t)
    }
}

spec fn exp_end(t: Seq<char>) -> int {
    if has_exp(t) {
        run_end(t, exp_start(t))
    } else {
        frac_end(t)
    }
}

spec fn mantissa_of(t: Seq<char>) -> int {
    digits_value(t.subrange(sign_end(t), int_end(t)) + t.subrange(frac_start(t), frac_end(t)))
}

spec fn exponent_digits_of(t: Seq<char>) -> int {
    digits_value(t.subrange(exp_start(t), exp_end(t)))
}

spec fn shift_of(t: Seq<char>) -> int {
    (if exp_negative(t) {
        -exponent_digits_of(t)
    } else {
        exponent_digits_of(t)
    }) - (frac_end(t) - frac_start(t))
}

/// What a reading's representation bounds: its mantissa and its shift.
proof fn lemma_reading_bounds(d: Decimal, m: int, e: int)
    requires
        denotes(d, m, e),
        d.is_reading(),
    ensures
        -READING_BOUND < m < READING_BOUND,
        e < 0 ==> e >= -18,
        e >= 0 && m != 0 ==> e <= 18 && -READING_BOUND < m * pow10(e as nat) < READING_BOUND,
{
    if e >= 0 {
        let p = pow10(e as nat);
        crate::decimal::lemma_pow10_positive(e as nat);
        assert(-READING_BOUND < m < READING_BOUND) by (nonlinear_arith)
            requires
                -READING_BOUND < m * p < READING_BOUND,
                p >= 1,
        ;
        if m != 0 && e > 18 {
            crate::decimal::lemma_pow10_monotone(19, e as nat);
            reveal_with_fuel(pow10, 20);
            assert(pow10(19) == 10_000_000_000_000_000_000);
            assert(false) by (nonlinear_arith)
                requires
                    -READING_BOUND < m * p < READING_BOUND,
                    p >= 10_000_000_000_000_000_000,
                    m != 0,
                    READING_BOUND == 1_000_000_000_000_000_000,
            ;
        }
    }
}

/// The layout that a text spelling a reading has, found by scanning from the
/// left, and the bounds that its value meets.
spec fn reading_layout(t: Seq<char>) -> bool {
    &&& int_end(t) > sign_end(t)
    &&& has_frac(t) ==> frac_end(t) > frac_start(t)
    &&& has_exp(t) ==> exp_end(t) > exp_start(t)
    &&& exp_end(t) == t.len()
    &&& digits_value(t.subrange(sign_end(t), int_end(t))) < READING_BOUND
    &&& mantissa_of(t) < READING_BOUND
    &&& has_exp(t) && (mantissa_of(t) != 0 || exp_negative(t)) ==> exponent_digits_of(t)
        < EXPONENT_BOUND
    &&& shift_of(t) >= 0 && mantissa_of(t) != 0 ==> shift_of(t) <= 18 && mantissa_of(t) * pow10(
        shift_of(t) as nat,
    ) < READING_BOUND
    &&& shift_of(t) < 0 ==> shift_of(t) >= -18
}

/// A text without that layout spells no reading.
proof fn lemma_no_reading(t: Seq<char>)
    requires
        t.len() <= usize::MAX,
        !reading_layout(t),
    ensures
        spells_no_reading(t),
{
    assert forall|d: Decimal| d.is_reading() implies !#[trigger] spells(t, d) by {
        if spells(t, d) {
            lemma_reading_layout(t, d);
        }
    }
}

/// Where the parts of a text that spells a reading stand, found by scanning
/// from the left, and the bounds that its value meets.
proof fn lemma_reading_layout(t: Seq<char>, d: Decimal)
    requires
        spells(t, d),
        d.is_reading(),
        t.len() <= usize::MAX,
    ensures
        int_end(t) > sign_end(t),
        has_frac(t) ==> frac_end(t) > frac_start(t),
        has_exp(t) ==> exp_end(t) > exp_start(t),
        exp_end(t) == t.len(),
        all_digits(t.subrange(sign_end(t), int_end(t))),
        digits_value(t.subrange(sign_end(t), int_end(t))) < READING_BOUND,
        mantissa_of(t) < READING_BOUND,
        has_exp(t) && (mantissa_of(t) != 0 || exp_negative(t)) ==> exponent_digits_of(t)
            < EXPONENT_BOUND,
        shift_of(t) >= 0 && mantissa_of(t) != 0 ==> shift_of(t) <= 18 && mantissa_of(t) * pow10(
            shift_of(t) as nat,
        ) < READING_BOUND,
        shift_of(t) < 0 ==> shift_of(t) >= -18,
{
    let (ng, ip, fp, eh, ed) = choose|
        ng: bool,
        ip: Seq<char>,
        fp: Seq<char>,
        eh: Seq<char>,
        ed: Seq<char>,
    | spelled_by(t, d, ng, ip, fp, eh, ed);
    lemma_parts(t, ng, ip, fp, eh, ed);
    let a = if ng { 1int } else { 0int };
    let i1 = a + ip.len();
    let i2 = i1 + if fp.len() > 0 { 1 + fp.len() as int } else { 0int };
    let i3 = i2 + if ed.len() > 0 { eh.len() as int } else { 0int };
    assert(sign_end(t) == a);
    assert(int_end(t) == i1);
    assert(has_frac(t) == (fp.len() > 0));
    assert(frac_end(t) == i2);
    assert(t.subrange(frac_start(t), frac_end(t)) =~= fp);
    assert(has_exp(t) == (ed.len() > 0));
    if ed.len() > 0 {
        assert(exp_signed(t) == (eh.len() == 2));
        assert(exp_start(t) == i3);
        assert(exp_negative(t) == is_negative_exponent(eh));
    } else {
        assert(t.subrange(exp_start(t), exp_end(t)) =~= ed);
        assert(!is_negative_exponent(eh) || is_negative_exponent(eh));
    }
    assert(t.subrange(exp_start(t), exp_end(t)) =~= ed);
    let mv = digits_value(ip + fp);
    assert(all_digits(ip + fp));
    lemma_digits_value_nonneg(ip + fp);
    lemma_digits_value_grows(ip, fp);
    lemma_digits_value_nonneg(ed);
    let mw = (if ng { -1int } else { 1 }) * mv;
    assert(mw == -mv || mw == mv) by (nonlinear_arith)
        requires
            mw == (if ng { -1int } else { 1 }) * mv,
    ;
    let x = digits_value(ed);
    let ew = (if is_negative_exponent(eh) { -x } else { x }) - fp.len();
    assert(mantissa_of(t) == mv);
    assert(shift_of(t) == ew);
    lemma_reading_bounds(d, mw, ew);
    if ew >= 0 && mv != 0 {
        assert(mv * pow10(ew as nat) < READING_BOUND) by (nonlinear_arith)
            requires
                -READING_BOUND < mw * pow10(ew as nat) < READING_BOUND,
                mw == mv || mw == -mv,
                mv >= 0,
        ;
    }
    if ed.len() > 0 && (mv != 0 || is_negative_exponent(eh)) && x >= EXPONENT_BOUND {
        assert(fp.len() <= t.len());
        if is_negative_exponent(eh) {
            assert(ew < -18);
        } else {
            assert(ew > 18);
        }
    }
}

/// A sequence is the concatenation of the pieces between cut points.
proof fn lemma_four_parts(s: Seq<char>, a: int, b: int, c: int)
    requires
        0 <= a <= b <= c <= s.len(),
    ensures
        s == s.subrange(0, a) + s.subrange(a, b) + s.subrange(b, c) + s.subrange(c, s.len() as int),
{
    assert(s =~= s.subrange(0, a) + s.subrange(a, b) + s.subrange(b, c) + s.subrange(c, s.len() as int));
}

proof fn lemma_spells_from_parts(
    text: Seq<char>,
    d: Decimal,
    negative: bool,
    int_digits: Seq<char>,
    frac_digits: Seq<char>,
    exp_head: Seq<char>,
    exp_digits: Seq<char>,
)
    requires
        text == number_text(negative, int_digits, frac_digits, exp_head, exp_digits),
        int_digits.len() > 0,
        all_digits(int_digits),
        all_digits(frac_digits),
        all_digits(exp_digits),
        exp_digits.len() > 0 ==> is_exponent_head(exp_head),
        denotes(
            d,
            (if negative { -1int } else { 1 }) * digits_value(int_digits + frac_digits),
            (if is_negative_exponent(exp_head) { -digits_value(exp_digits) } else { digits_value(exp_digits) })
                - frac_digits.len(),
        ),
    ensures
        spells(text, d),
{
    assert(spelled_by(text, d, negative, int_digits, frac_digits, exp_head, exp_digits));
}

/// Where the run of digits from `start` ends.
fn skip_digits(text: &str, start: usize) -> (r: usize)
    requires
        start <= text@.len(),
    ensures
        r == run_end(text@, start as int),
{
    let len = text.unicode_len();
    let mut i = start;
    while i < len
        invariant
            len == text@.len(),
            start <= i <= len,
            run_end(text@, start as int) == run_end(text@, i as int),
        decreases len - i,
    {
        let c = text.get_char(i);
        if c < '0' || c > '9' {
            return i;
        }
        i = i + 1;
    }
    i
}

/// No reading is spelled by `t`.
pub open spec fn spells_no_reading(t: Seq<char>) -> bool {
    forall|d: Decimal| d.is_reading() ==> !#[trigger] spells(t, d)
}

/// Reads a decimal number written as `[-]digits[.digits][(e|E)[+|-]digits]`,
/// the form in which JSON numbers are printed. The result is the reading that
/// the text spells; `None` where it spells none: it is not of that form, or
/// its value needs more than eighteen significant or eighteen fraction digits
/// in the representation that the text gives it.
#[verifier::rlimit(100)]
pub fn parse_decimal(text: &str) -> (r: Option<Decimal>)
    ensures
        match r {
            Some(d) => d.is_reading() && spells(text@, d),
            None => spells_no_reading(text@),
        },
{
    let len = text.unicode_len();
    let negative = len > 0 && text.get_char(0) == '-';
    let int_start: usize = if negative { 1 } else { 0 };
    assert(int_start == sign_end(text@));
    assert(Seq::<char>::empty() + text@.subrange(int_start as int, run_end(text@, int_start as int))
        =~= text@.subrange(int_start as int, run_end(text@, int_start as int)));
    let (int_value, int_end) = match scan_digits(text, int_start, 0, READING_BOUND, Ghost(Seq::empty())) {
        Some(p) => p,
        None => {
            proof {
                lemma_no_reading(text@);
            }
            return None;
        },
    };
    if int_end == int_start {
        proof {
            lemma_no_reading(text@);
        }
        return None;
    }
    let ghost int_digits = text@.subrange(int_start as int, int_end as int);
    assert(Seq::<char>::empty() + int_digits =~= int_digits);
    let mut mantissa = int_value;
    let mut frac_start = int_end;
    let mut frac_end = int_end;
    if int_end < len && text.get_char(int_end) == '.' {
        frac_start = int_end + 1;
        match scan_digits(text, frac_start, int_value, READING_BOUND, Ghost(int_digits)) {
            Some((v, e)) => {
                mantissa = v;
                frac_end = e;
            },
            None => {
                proof {
                    lemma_no_reading(text@);
                }
                return None;
            },
        }
        if frac_end == frac_start {
            proof {
                lemma_no_reading(text@);
            }
            return None;
        }
    } else {
        assert(int_digits + text@.subrange(frac_start as int, frac_end as int) =~= int_digits);
    }
    assert(frac_start == crate::number_text::frac_start(text@));
    assert(frac_end == crate::number_text::frac_end(text@));
    assert(mantissa == mantissa_of(text@));
    let ghost frac_digits = text@.subrange(frac_start as int, frac_end as int);
    let frac_len = (frac_end - frac_start) as i128;
    let mut exp_negative = false;
    let mut exp_start = frac_end;
    let mut exp_end = frac_end;
    let mut exponent: i128 = 0;
    let mut vanishing = false;
    if frac_end < len && (text.get_char(frac_end) == 'e' || text.get_char(frac_end) == 'E') {
        exp_start = frac_end + 1;
        if exp_start < len && (text.get_char(exp_start) == '-' || text.get_char(exp_start) == '+') {
            exp_negative = text.get_char(exp_start) == '-';
            exp_start = exp_start + 1;
        }
        assert(exp_start == crate::number_text::exp_start(text@));
        assert(exp_negative == crate::number_text::exp_negative(text@));
        assert(Seq::<char>::empty() + text@.subrange(exp_start as int, run_end(text@, exp_start as int))
            =~= text@.subrange(exp_start as int, run_end(text@, exp_start as int)));
        match scan_digits(text, exp_start, 0, EXPONENT_BOUND, Ghost(Seq::empty())) {
            Some((v, e)) => {
                exponent = v;
                exp_end = e;
            },
            None => {
                if mantissa != 0 || exp_negative {
                    proof {
                        lemma_no_reading(text@);
                    }
                    return None;
                }
                exp_end = skip_digits(text, exp_start);
                vanishing = true;
            },
        }
        if exp_end == exp_start {
            proof {
                lemma_no_reading(text@);
            }
            return None;
        }
        assert(Seq::<char>::empty() + text@.subrange(exp_start as int, exp_end as int)
            =~= text@.subrange(exp_start as int, exp_end as int));
    }
    assert(exp_end == crate::number_text::exp_end(text@));
    if exp_end != len {
        proof {
            lemma_no_reading(text@);
        }
        return None;
    }
    let ghost exp_head = text@.subrange(frac_end as int, exp_start as int);
    let ghost exp_digits = text@.subrange(exp_start as int, exp_end as int);
    let signed_exponent: i128 = if exp_negative { -exponent } else { exponent };
    let shift: i128 = signed_exponent - frac_len;
    assert(vanishing || shift == shift_of(text@));
    let magnitude: i128;
    let scale: u32;
    if vanishing || (shift >= 0 && mantissa == 0) {
        magnitude = 0;
        scale = 0;
    } else if shift >= 0 {
        if shift > MAX_READING_SCALE as i128 {
            proof {
                lemma_no_reading(text@);
            }
            return None;
        }
        let p = power_of_ten(shift as u32);
        proof {
            crate::decimal::lemma_pow10_positive(shift as nat);
        }
        if mantissa > (READING_BOUND - 1) / p {
            proof {
                assert(mantissa * p >= READING_BOUND) by (nonlinear_arith)
                    requires
                        mantissa > (READING_BOUND - 1) as int / p as int,
                        p >= 1,
                ;
                lemma_no_reading(text@);
            }
            return None;
        }
        assert(mantissa * p < READING_BOUND) by (nonlinear_arith)
            requires
                0 <= mantissa <= (READING_BOUND - 1) as int / p as int,
                p >= 1,
        ;
        assert(0 <= mantissa * p) by (nonlinear_arith)
            requires
                0 <= mantissa,
                p >= 1,
        ;
        magnitude = mantissa * p;
        scale = 0;
    } else {
        if shift < -(MAX_READING_SCALE as i128) {
            proof {
                lemma_no_reading(text@);
            }
            return None;
        }
        magnitude = mantissa;
        scale = (-shift) as u32;
    }
    let coefficient = if negative { -magnitude } else { magnitude };
    let d = Decimal { coefficient, scale };
    proof {
        lemma_four_parts(text@, int_start as int, int_end as int, frac_end as int);
        let sign_part: Seq<char> = if negative { seq!['-'] } else { Seq::empty() };
        let frac_part: Seq<char> = if frac_digits.len() > 0 {
            seq!['.'] + frac_digits
        } else {
            Seq::empty()
        };
        let exp_part: Seq<char> = if exp_digits.len() > 0 {
            exp_head + exp_digits
        } else {
            Seq::empty()
        };
        assert(sign_part =~= text@.subrange(0, int_start as int));
        assert(frac_part =~= text@.subrange(int_end as int, frac_end as int));
        assert(exp_part =~= text@.subrange(frac_end as int, exp_end as int));
        assert(text@ == number_text(negative, int_digits, frac_digits, exp_head, exp_digits));
        assert(exp_digits.len() > 0 ==> is_exponent_head(exp_head));
        assert(exp_negative == is_negative_exponent(exp_head));
        let x = digits_value(exp_digits);
        let e = (if is_negative_exponent(exp_head) { -x } else { x }) - frac_digits.len();
        let m = (if negative { -1int } else { 1 }) * digits_value(int_digits + frac_digits);
        if vanishing {
            assert(x >= EXPONENT_BOUND);
            assert(e >= 0);
            assert(m == 0);
            assert(denotes(d, m, e)) by (nonlinear_arith)
                requires
                    m == 0,
                    e >= 0,
                    coefficient == 0,
                    scale == 0,
                    d == (Decimal { coefficient, scale }),
            ;
        } else {
            assert(e == shift);
            assert(denotes(d, m, e)) by (nonlinear_arith)
                requires
                    digits_value(int_digits + frac_digits) == mantissa,
                    shift >= 0 && mantissa == 0 ==> magnitude == 0 && scale == 0,
                    shift >= 0 && mantissa != 0 ==> magnitude == mantissa * pow10(shift as nat)
                        && scale == 0,
                    shift < 0 ==> magnitude == mantissa && scale == -shift,
                    coefficient == if negative { -(magnitude as int) } else { magnitude as int },
                    m == (if negative { -1int } else { 1 }) * digits_value(int_digits + frac_digits),
                    d == (Decimal { coefficient, scale }),
                    e == shift,
            ;
        }
        lemma_spells_from_parts(text@, d, negative, int_digits, frac_digits, exp_head, exp_digits);
    }
    Some(d)
}

} // verus!
