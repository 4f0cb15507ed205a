use colored::Colorize;
use vstd::prelude::*;

verus! {

/// The character of the decimal digit `d`.
pub open spec fn digit_char(d: nat) -> char {
    if d == 0 { '0' }
    else if d == 1 { '1' }
    else if d == 2 { '2' }
    else if d == 3 { '3' }
    else if d == 4 { '4' }
    else if d == 5 { '5' }
    else if d == 6 { '6' }
    else if d == 7 { '7' }
    else if d == 8 { '8' }
    else { '9' }
}

/// `n` written in decimal, with no leading zeros.
pub open spec fn decimal(n: nat) -> Seq<char>
    decreases n,
{
    if n < 10 {
        seq![digit_char(n)]
    } else {
        decimal(n / 10).push(digit_char(n % 10))
    }
}

fn digit_str(d: u64) -> (r: &'static str)
    requires
        d < 10,
    ensures
        r@ == seq![digit_char(d as nat)],
{
    proof {
        reveal_strlit("0");
        reveal_strlit("1");
        reveal_strlit("2");
        reveal_strlit("3");
        reveal_strlit("4");
        reveal_strlit("5");
        reveal_strlit("6");
        reveal_strlit("7");
        reveal_strlit("8");
        reveal_strlit("9");
    }
    if d == 0 { "0" }
    else if d == 1 { "1" }
    else if d == 2 { "2" }
    else if d == 3 { "3" }
    else if d == 4 { "4" }
    else if d == 5 { "5" }
    else if d == 6 { "6" }
    else if d == 7 { "7" }
    else if d == 8 { "8" }
    else { "9" }
}

/// Appends `n` in decimal to `out`.
pub fn push_decimal(out: &mut String, n: u64)
    ensures
        final(out)@ == old(out)@ + decimal(n as nat),
    decreases n,
{
    if n >= 10 {
        push_decimal(out, n / 10);
    }
    out.append(digit_str(n % 10));
    proof {
        if n >= 10 {
            assert(decimal(n as nat) == decimal((n / 10) as nat).push(digit_char((n % 10) as nat)));
        }
    }
    assert(final(out)@ =~= old(out)@ + decimal(n as nat));
}

/// `n` in decimal.
pub fn to_decimal(n: u64) -> (r: String)
    ensures
        r@ == decimal(n as nat),
{
    let mut out = String::new();
    push_decimal(&mut out, n);
    assert(out@ =~= decimal(n as nat));
    out
}

/// `1024` to the power `k`.
pub open spec fn pow1024(k: nat) -> nat
    decreases k,
{
    if k == 0 { 1 } else { 1024 * pow1024((k - 1) as nat) }
}

/// The unit index, counted from `u`, at which a size of `n` bytes is shown:
/// the first at which the scaled value is under 1024, and at most the last
/// unit, 8 (yotta).
pub open spec fn size_unit_from(n: nat, u: nat) -> nat
    decreases 8 - u,
{
    if u < 8 && n >= pow1024(u + 1) { size_unit_from(n, u + 1) } else { u }
}

/// The unit index at which a size of `n` bytes is shown.
pub open spec fn size_unit(n: nat) -> nat {
    size_unit_from(n, 0)
}

/// The letter of unit `u`: bytes, kilo, mega, ... yotta.
pub open spec fn unit_letter(u: nat) -> char {
    if u == 0 { 'B' }
    else if u == 1 { 'K' }
    else if u == 2 { 'M' }
    else if u == 3 { 'G' }
    else if u == 4 { 'T' }
    else if u == 5 { 'P' }
    else if u == 6 { 'E' }
    else if u == 7 { 'Z' }
    else { 'Y' }
}

/// `a / d` rounded to the nearest integer, ties to the even one.
pub open spec fn round_div(a: nat, d: nat) -> nat
    recommends
        d > 0,
{
    let q = a / d;
    let r = a % d;
    if 2 * r > d || (2 * r == d && q % 2 == 1) { q + 1 } else { q }
}

/// `n` bytes in hundredths of its display unit.
pub open spec fn size_hundredths(n: nat) -> nat {
    round_div(n * 100, pow1024(size_unit(n)))
}

/// `s` right-aligned in a field of `w` characters.
pub open spec fn pad_left(s: Seq<char>, w: nat) -> Seq<char> {
    if s.len() < w { Seq::new((w - s.len()) as nat, |i: int| ' ') + s } else { s }
}

/// `h` hundredths written with two decimals.
pub open spec fn fixed2(h: nat) -> Seq<char> {
    decimal(h / 100) + seq!['.', digit_char((h % 100) / 10), digit_char(h % 10)]
}

/// A size of `n` bytes scaled by powers of 1024: the value with two decimals
/// right-aligned in seven columns, then the unit letter.
pub open spec fn human_text(n: nat) -> Seq<char> {
    pad_left(fixed2(size_hundredths(n)), 7).push(unit_letter(size_unit(n)))
}

fn unit_str(u: u64) -> (r: &'static str)
    requires
        u <= 8,
    ensures
        r@ == seq![unit_letter(u as nat)],
{
    proof {
        reveal_strlit("B");
        reveal_strlit("K");
        reveal_strlit("M");
        reveal_strlit("G");
        reveal_strlit("T");
        reveal_strlit("P");
        reveal_strlit("E");
        reveal_strlit("Z");
        reveal_strlit("Y");
    }
    if u == 0 { "B" }
    else if u == 1 { "K" }
    else if u == 2 { "M" }
    else if u == 3 { "G" }
    else if u == 4 { "T" }
    else if u == 5 { "P" }
    else if u == 6 { "E" }
    else if u == 7 { "Z" }
    else { "Y" }
}

/// A size of `n` bytes in human-readable form, such as `   1.50K`.
pub fn human_size(n: u64) -> (r: String)
    ensures
        r@ == human_text(n as nat),
{
    let mut unit: u64 = 0;
    let mut d: u128 = 1;
    while unit < 8 && (n as u128) >= d * 1024
        invariant
            unit <= 8,
            d as nat == pow1024(unit as nat),
            1 <= d <= 0x1_0000_0000_0000_0000,
            size_unit_from(n as nat, unit as nat) == size_unit(n as nat),
        decreases 8 - unit,
    {
        assert(pow1024((unit + 1) as nat) == 1024 * pow1024(unit as nat));
        d = d * 1024;
        unit = unit + 1;
    }
    assert(pow1024((unit + 1) as nat) == 1024 * pow1024(unit as nat));
    assert(unit as nat == size_unit(n as nat));
    let a: u128 = (n as u128) * 100;
    let q: u128 = a / d;
    let rem: u128 = a % d;
    let h: u128 = if 2 * rem > d || (2 * rem == d && q % 2 == 1) { q + 1 } else { q };
    assert(h as nat == size_hundredths(n as nat));
    assert(h <= a + 1) by (nonlinear_arith)
        requires
            q == a / d,
            d >= 1,
            h <= q + 1,
    ;
    let mut num = String::new();
    push_decimal(&mut num, (h / 100) as u64);
    num.append(".");
    num.append(digit_str(((h % 100) / 10) as u64));
    num.append(digit_str((h % 10) as u64));
    proof {
        reveal_strlit(".");
    }
    assert(num@ =~= fixed2(h as nat));
    let len = num.as_str().unicode_len();
    let mut out = String::new();
    let pad: usize = if len < 7 { 7 - len } else { 0 };
    let mut i: usize = 0;
    while i < pad
        invariant
            out@ == Seq::new(i as nat, |k: int| ' '),
            i <= pad,
        decreases pad - i,
    {
        out.append(" ");
        proof {
            reveal_strlit(" ");
        }
        assert(out@ =~= Seq::new((i + 1) as nat, |k: int| ' '));
        i = i + 1;
    }
    out.append(num.as_str());
    out.append(unit_str(unit));
    assert(out@ =~= human_text(n as nat));
    out
}

/// Whether `p` occurs in `h` as a run of consecutive characters.
pub open spec fn has_substring(h: Seq<char>, p: Seq<char>) -> bool {
    exists|i: int| 0 <= i && i + p.len() <= h.len() && #[trigger] h.subrange(i, i + p.len()) == p
}

/// Whether `p` occurs in `h`.
pub fn contains(h: &str, p: &str) -> (r: bool)
    ensures
        r == has_substring(h@, p@),
{
    let hn = h.unicode_len();
    let pn = p.unicode_len();
    if pn > hn {
        return false;
    }
    let mut i: usize = 0;
    while i <= hn - pn
        invariant
            hn == h@.len(),
            pn == p@.len(),
            pn <= hn,
            i <= hn - pn + 1,
            forall|j: int| 0 <= j < i ==> #[trigger] h@.subrange(j, j + pn) != p@,
        decreases hn - pn + 1 - i,
    {
        let mut k: usize = 0;
        while k < pn && h.get_char(i + k) == p.get_char(k)
            invariant
                hn == h@.len(),
                pn == p@.len(),
                i + pn <= hn,
                k <= pn,
                forall|m: int| 0 <= m < k ==> h@[i + m] == p@[m],
            decreases pn - k,
        {
            k = k + 1;
        }
        if k == pn {
            assert(h@.subrange(i as int, i + pn) =~= p@);
            return true;
        }
        assert(h@.subrange(i as int, i + pn)[k as int] != p@[k as int]);
        i = i + 1;
    }
    false
}

/// What `str::to_lowercase` makes of a string.
pub uninterp spec fn lower_of(s: Seq<char>) -> Seq<char>;

/// Relies on `str::to_lowercase`: its result depends on the characters of
/// `s` alone.
#[verifier::external_body]
pub(crate) fn lowercase(s: &str) -> (r: String)
    ensures
        r@ == lower_of(s@),
{
    s.to_lowercase()
}

/// `r` shows the text `s` whole: when `s` holds no escape character, `r`
/// is `s` with possibly a style sequence before it and a reset after it.
pub open spec fn styled(r: Seq<char>, s: Seq<char>) -> bool {
    !s.contains('\u{1b}') ==> exists|p: Seq<char>, q: Seq<char>| r == #[trigger] (p + s + q)
}

/// Relies on `colored`'s `cyan` and its `Display`: the text is written
/// unchanged, between a style and a reset sequence when colors are on.
#[verifier::external_body]
pub(crate) fn paint_cyan(s: &str) -> (r: String)
    ensures
        styled(r@, s@),
{
    s.cyan().to_string()
}

/// Relies on `colored`'s `green`, `bold` and its `Display`: the text is
/// written unchanged, between a style and a reset sequence when colors are
/// on.
#[verifier::external_body]
pub(crate) fn paint_green_bold(s: &str) -> (r: String)
    ensures
        styled(r@, s@),
{
    s.green().bold().to_string()
}

/// Relies on `colored`'s `blue` and its `Display`: the text is written
/// unchanged, between a style and a reset sequence when colors are on.
#[verifier::external_body]
pub(crate) fn paint_blue(s: &str) -> (r: String)
    ensures
        styled(r@, s@),
{
    s.blue().to_string()
}

/// Relies on `colored`'s `red`, `bold` and its `Display`: the text is
/// written unchanged, between a style and a reset sequence when colors are
/// on.
#[verifier::external_body]
pub(crate) fn paint_red_bold(s: &str) -> (r: String)
    ensures
        styled(r@, s@),
{
    s.red().bold().to_string()
}

} // verus!
