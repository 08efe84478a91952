//! Exact decimal arithmetic for the aggregation engine.
//!
//! Numeric samples are carried as integers in units of 10^-9 (a "nano"
//! scale), and percentile positions in thousandths of a percent, so every
//! computation the engine performs is exact integer arithmetic. This module
//! parses a plain decimal string into the nano scale and renders a scaled
//! integer back as a decimal string with trailing zeros trimmed.

use vstd::prelude::*;
use vstd::seq_lib::*;

verus! {

pub open spec fn pow10(e: nat) -> nat
    decreases e,
{
    if e == 0 {
        1
    } else {
        10 * pow10((e - 1) as nat)
    }
}

pub proof fn lemma_pow10_pos(e: nat)
    ensures
        pow10(e) >= 1,
    decreases e,
{
    if e > 0 {
        lemma_pow10_pos((e - 1) as nat);
    }
}

pub open spec fn is_digit(c: char) -> bool {
    48 <= c as u32 && c as u32 <= 57
}

pub open spec fn digit_val(c: char) -> nat {
    (c as u32 - 48) as nat
}

pub open spec fn all_digits(s: Seq<char>) -> bool {
    forall|i: int| 0 <= i < s.len() ==> is_digit(#[trigger] s[i])
}

/// Value of a non-empty digit string read in base 10.
pub open spec fn digits_val(s: Seq<char>) -> nat
    decreases s.len(),
{
    if s.len() == 0 {
        0
    } else {
        digits_val(s.drop_last()) * 10 + digit_val(s.last())
    }
}

pub proof fn lemma_digits_val_bound(s: Seq<char>)
    requires
        all_digits(s),
    ensures
        digits_val(s) < pow10(s.len()),
    decreases s.len(),
{
    if s.len() > 0 {
        assert(all_digits(s.drop_last()));
        lemma_digits_val_bound(s.drop_last());
    }
}

pub open spec fn digit_char(d: nat) -> char {
    if d == 0 {
        '0'
    } else if d == 1 {
        '1'
    } else if d == 2 {
        '2'
    } else if d == 3 {
        '3'
    } else if d == 4 {
        '4'
    } else if d == 5 {
        '5'
    } else if d == 6 {
        '6'
    } else if d == 7 {
        '7'
    } else if d == 8 {
        '8'
    } else {
        '9'
    }
}

/// Decimal digit string of a natural number, most significant digit first.
pub open spec fn dec_digits(n: nat) -> Seq<char>
    decreases n,
{
    if n < 10 {
        seq![digit_char(n)]
    } else {
        dec_digits(n / 10).push(digit_char(n % 10))
    }
}

/// Exactly `scale` digits of `r`, zero-padded on the left.
pub open spec fn pad_digits(r: nat, scale: nat) -> Seq<char>
    decreases scale,
{
    if scale <= 1 {
        seq![digit_char(r)]
    } else {
        pad_digits(r / 10, (scale - 1) as nat).push(digit_char(r % 10))
    }
}

/// The fractional part of a rendered decimal: empty when the fraction is
/// zero, otherwise a point followed by the fraction's digits with trailing
/// zeros trimmed.
pub open spec fn frac_string(r: nat, scale: nat) -> Seq<char>
    decreases scale,
{
    if scale == 0 || r == 0 {
        seq![]
    } else if r % 10 == 0 {
        frac_string(r / 10, (scale - 1) as nat)
    } else {
        seq!['.'] + pad_digits(r, scale)
    }
}

/// Decimal rendering of `mant / 10^scale`: optional sign, integer digits,
/// and the trimmed fractional part. A whole value carries no decimal point.
pub open spec fn dec_string(mant: int, scale: nat) -> Seq<char> {
    let a = (if mant < 0 {
        -mant
    } else {
        mant
    }) as nat;
    let q = a / pow10(scale);
    let r = a % pow10(scale);
    let body = dec_digits(q) + frac_string(r, scale);
    if mant < 0 {
        seq!['-'] + body
    } else {
        body
    }
}

fn digit_str(d: u128) -> (r: &'static str)
    requires
        d < 10,
    ensures
        r@ == seq![digit_char(d as nat)],
{
    proof {
        reveal_strlit("0");
        reveal_strlit("1");
        reveal_strlit("2");
        reveal_strlit("3");
        reveal_strlit("4");
        reveal_strlit("5");
        reveal_strlit("6");
        reveal_strlit("7");
        reveal_strlit("8");
        reveal_strlit("9");
    }
    let r = match d {
        0 => "0",
        1 => "1",
        2 => "2",
        3 => "3",
        4 => "4",
        5 => "5",
        6 => "6",
        7 => "7",
        8 => "8",
        _ => "9",
    };
    proof {
        assert(r@ =~= seq![digit_char(d as nat)]);
    }
    r
}

pub proof fn lemma_pow10_14()
    ensures
        pow10(14) == 100000000000000,
{
    reveal_with_fuel(pow10, 15);
}

pub fn pow10_exec(e: u32) -> (r: u128)
    requires
        e <= 14,
    ensures
        r == pow10(e as nat),
{
    let mut r: u128 = 1;
    let mut i: u32 = 0;
    while i < e
        invariant
            i <= e <= 14,
            r == pow10(i as nat),
        decreases e - i,
    {
        proof {
            lemma_pow10_14();
            lemma_pow10_mono(i as nat + 1, 14);
        }
        r = r * 10;
        i = i + 1;
    }
    r
}

pub proof fn lemma_pow10_mono(a: nat, b: nat)
    requires
        a <= b,
    ensures
        pow10(a) <= pow10(b),
    decreases b,
{
    if a < b {
        lemma_pow10_mono(a, (b - 1) as nat);
        lemma_pow10_pos((b - 1) as nat);
    }
}

/// Appends the decimal digits of `n` to `out`.
pub fn push_dec_digits(out: &mut String, n: u128)
    ensures
        final(out)@ == old(out)@ + dec_digits(n as nat),
    decreases n,
{
    if n >= 10 {
        push_dec_digits(out, n / 10);
    }
    let d = digit_str(n % 10);
    out.append(d);
    proof {
        assert(out@ =~= old(out)@ + dec_digits(n as nat));
    }
}

fn push_pad_digits(out: &mut String, r: u128, scale: u32)
    requires
        scale >= 1,
        r < pow10(scale as nat),
    ensures
        final(out)@ == old(out)@ + pad_digits(r as nat, scale as nat),
    decreases scale,
{
    if scale == 1 {
        proof {
            assert(pow10(1) == 10) by {
                reveal_with_fuel(pow10, 2);
            }
        }
        out.append(digit_str(r));
        proof {
            assert(out@ =~= old(out)@ + pad_digits(r as nat, scale as nat));
        }
    } else {
        proof {
            lemma_pow10_pos((scale - 1) as nat);
            assert(pow10(scale as nat) == 10 * pow10((scale - 1) as nat));
        }
        push_pad_digits(out, r / 10, scale - 1);
        out.append(digit_str(r % 10));
        proof {
            assert(out@ =~= old(out)@ + pad_digits(r as nat, scale as nat));
        }
    }
}

fn push_frac(out: &mut String, r: u128, scale: u32)
    requires
        r < pow10(scale as nat),
    ensures
        final(out)@ == old(out)@ + frac_string(r as nat, scale as nat),
{
    let ghost r0 = r as nat;
    let ghost sc0 = scale as nat;
    let mut r = r;
    let mut sc = scale;
    while sc > 0 && r % 10 == 0
        invariant
            r < pow10(sc as nat),
            frac_string(r as nat, sc as nat) == frac_string(r0, sc0),
        decreases sc,
    {
        proof {
            assert(pow10(sc as nat) == 10 * pow10((sc - 1) as nat));
        }
        r = r / 10;
        sc = sc - 1;
    }
    if sc > 0 {
        proof {
            reveal_strlit(".");
        }
        out.append(".");
        push_pad_digits(out, r, sc);
        proof {
            assert(out@ =~= old(out)@ + frac_string(r as nat, sc as nat));
        }
    } else {
        proof {
            assert(out@ =~= old(out)@ + frac_string(r as nat, sc as nat));
        }
    }
}

/// Appends the decimal rendering of `mant / 10^scale` to `out`.
pub fn push_decimal(out: &mut String, mant: i128, scale: u32)
    requires
        scale <= 14,
        mant != i128::MIN,
    ensures
        final(out)@ == old(out)@ + dec_string(mant as int, scale as nat),
{
    let neg = mant < 0;
    let a: u128 = if neg {
        (-mant) as u128
    } else {
        mant as u128
    };
    if neg {
        proof {
            reveal_strlit("-");
        }
        out.append("-");
    }
    let p = pow10_exec(scale);
    proof {
        lemma_pow10_pos(scale as nat);
    }
    let q = a / p;
    let r = a % p;
    push_dec_digits(out, q);
    push_frac(out, r, scale);
    proof {
        assert(out@ =~= old(out)@ + dec_string(mant as int, scale as nat));
    }
}

/// The value that a decimal string denotes, in units of 10^-9: an optional
/// sign, a non-empty integer part below 10^12, and at most nine fractional
/// digits. A string outside this shape (or outside these machine bounds)
/// denotes nothing and the record carrying it is skipped.
pub open spec fn parse_dec(s: Seq<char>) -> Option<int> {
    let neg = s.len() > 0 && s[0] == '-';
    let body = if neg {
        s.drop_first()
    } else {
        s
    };
    match body.index_of_first('.') {
        Some(i) => {
            let ip = body.subrange(0, i);
            let fp = body.subrange(i + 1, body.len() as int);
            if valid_int_part(ip) && 1 <= fp.len() <= 9 && all_digits(fp) {
                Some(
                    signed(
                        neg,
                        digits_val(ip) * pow10(9) + digits_val(fp) * pow10((9 - fp.len()) as nat),
                    ),
                )
            } else {
                None
            }
        },
        None => {
            if valid_int_part(body) {
                Some(signed(neg, digits_val(body) * pow10(9)))
            } else {
                None
            }
        },
    }
}

pub open spec fn valid_int_part(s: Seq<char>) -> bool {
    s.len() >= 1 && all_digits(s) && digits_val(s) < pow10(12)
}

pub open spec fn signed(neg: bool, n: nat) -> int {
    if neg {
        -(n as int)
    } else {
        n as int
    }
}

pub proof fn lemma_pow10_values()
    ensures
        pow10(0) == 1,
        pow10(1) == 10,
        pow10(9) == 1000000000,
        pow10(12) == 1000000000000,
        pow10(14) == 100000000000000,
        pow10(21) == 1000000000000000000000,
{
    reveal_with_fuel(pow10, 22);
}

fn char_digit(c: char) -> (r: Option<u8>)
    ensures
        r is Some <==> is_digit(c),
        r is Some ==> r->0 as nat == digit_val(c),
{
    let u = c as u32;
    if 48 <= u && u <= 57 {
        Some((u - 48) as u8)
    } else {
        None
    }
}

/// Parses a plain decimal string into units of 10^-9, exactly as `parse_dec`
/// describes; strings outside that shape, or outside the engine's numeric
/// bounds, yield `None`.
#[verifier::loop_isolation(false)]
#[verifier::rlimit(100)]
pub fn parse_decimal(s: &str) -> (r: Option<i128>)
    ensures
        r is Some <==> parse_dec(s@) is Some,
        r is Some ==> Some(r->0 as int) == parse_dec(s@),
        r is Some ==> -1000000000000000000000 < r->0 < 1000000000000000000000,
{
    proof {
        lemma_pow10_values();
    }
    let len = s.unicode_len();
    let neg = len > 0 && s.get_char(0) == '-';
    let istart: usize = if neg {
        1
    } else {
        0
    };
    let ghost body = if neg {
        s@.drop_first()
    } else {
        s@
    };
    proof {
        assert(body =~= s@.subrange(istart as int, len as int));
    }
    // find the first dot, if any; `dot == len` means none
    let mut dot: usize = len;
    let mut j: usize = istart;
    while j < len && dot == len
        invariant
            istart <= j <= len,
            len == s@.len(),
            dot == len || (istart <= dot < len && s@[dot as int] == '.'),
            dot == len ==> forall|k: int| istart <= k < j ==> s@[k] != '.',
            dot < len ==> forall|k: int| istart <= k < dot ==> s@[k] != '.',
        decreases len - j + (if dot == len {
            1int
        } else {
            0int
        }),
    {
        if s.get_char(j) == '.' {
            dot = j;
        } else {
            j = j + 1;
        }
    }
    proof {
        body.index_of_first_ensures('.');
        if dot < len {
            assert(body[dot - istart] == '.');
            assert(body.contains('.'));
            let idx = body.index_of_first('.').unwrap();
            assert(body[idx] == '.');
            if idx < dot - istart {
                assert(s@[idx + istart] == '.');
                assert(false);
            }
            if idx > dot - istart {
                assert(false);
            }
            assert(body.index_of_first('.') == Some(dot - istart));
        } else {
            if body.contains('.') {
                let w = choose|w: int| 0 <= w < body.len() && body[w] == '.';
                assert(s@[w + istart] == '.');
                assert(false);
            }
            assert(body.index_of_first('.') is None);
        }
    }
    let ghost ip = s@.subrange(istart as int, dot as int);
    proof {
        assert(ip =~= body.subrange(0, dot - istart));
    }
    if dot == istart {
        // empty integer part
        return None;
    }
    // scan the integer part
    let mut val: u64 = 0;
    let mut big = false;
    let mut k: usize = istart;
    while k < dot
        invariant
            istart <= k <= dot <= len,
            len == s@.len(),
            all_digits(s@.subrange(istart as int, k as int)),
            !big ==> val as nat == digits_val(s@.subrange(istart as int, k as int)) && val
                < 1000000000000,
            big ==> digits_val(s@.subrange(istart as int, k as int)) >= 1000000000000,
        decreases dot - k,
    {
        let c = s.get_char(k);
        let ghost pre = s@.subrange(istart as int, k as int);
        match char_digit(c) {
            None => {
                proof {
                    lemma_pow10_values();
                    assert(ip[k as int - istart as int] == s@[k as int]);
                    assert(!all_digits(ip));
                }
                return None;
            },
            Some(d) => {
                proof {
                    assert(s@.subrange(istart as int, k as int + 1) =~= pre.push(s@[k as int]));
                    assert(pre.push(s@[k as int]).drop_last() =~= pre);
                    assert(pre.push(s@[k as int]).last() == s@[k as int]);
                    assert(digits_val(pre.push(s@[k as int])) == digits_val(pre) * 10 + digit_val(
                        s@[k as int],
                    ));
                }
                if !big {
                    let nv: u64 = val * 10 + d as u64;
                    if nv >= 1000000000000 {
                        big = true;
                    } else {
                        val = nv;
                    }
                }
                k = k + 1;
            },
        }
    }
    if big {
        proof {
            lemma_pow10_values();
        }
        return None;
    }
    proof {
        lemma_pow10_values();
    }
    // scan the fractional part, if a dot was present
    let mut fscaled: u64 = 0;
    if dot < len {
        let ghost fp = s@.subrange(dot as int + 1, len as int);
        proof {
            assert(fp =~= body.subrange(dot - istart + 1, body.len() as int));
        }
        let fplen = len - (dot + 1);
        if fplen == 0 || fplen > 9 {
            return None;
        }
        let mut fval: u64 = 0;
        let mut m: usize = dot + 1;
        while m < len
            invariant
                dot as int + 1 <= m as int <= len,
                len == s@.len(),
                dot < len,
                fp == s@.subrange(dot as int + 1, len as int),
                all_digits(s@.subrange(dot as int + 1, m as int)),
                fval as nat == digits_val(s@.subrange(dot as int + 1, m as int)),
                fval < pow10((m - (dot + 1)) as nat),
                m - (dot + 1) <= 9,
                pow10(9) == 1000000000,
            decreases len - m,
        {
            let c = s.get_char(m);
            let ghost pre = s@.subrange(dot as int + 1, m as int);
            match char_digit(c) {
                None => {
                    proof {
                        assert(fp[m as int - (dot as int + 1)] == s@[m as int]);
                        assert(!all_digits(fp));
                    }
                    return None;
                },
                Some(d) => {
                    proof {
                        assert(s@.subrange(dot as int + 1, m as int + 1) =~= pre.push(
                            s@[m as int],
                        ));
                        assert(pre.push(s@[m as int]).drop_last() =~= pre);
                        assert(pre.push(s@[m as int]).last() == s@[m as int]);
                        assert(digits_val(pre.push(s@[m as int])) == digits_val(pre) * 10
                            + digit_val(s@[m as int]));
                        lemma_pow10_mono((m + 1 - (dot + 1)) as nat, 9);
                        lemma_pow10_values();
                    }
                    fval = fval * 10 + d as u64;
                    m = m + 1;
                },
            }
        }
        proof {
            assert(s@.subrange(dot as int + 1, m as int) =~= fp);
            lemma_digits_val_bound(fp);
        }
        let mult = pow10_exec((9 - fplen) as u32);
        proof {
            lemma_pow10_mono((9 - fplen) as nat, 9);
            lemma_pow10_pos((9 - fplen) as nat);
            assert(fval as nat * pow10((9 - fplen) as nat) < pow10(fp.len()) * pow10(
                (9 - fplen) as nat,
            )) by (nonlinear_arith)
                requires
                    (fval as nat) < pow10(fp.len()),
                    pow10((9 - fplen) as nat) >= 1,
            ;
            lemma_pow10_mul(fp.len(), (9 - fplen) as nat);
        }
        fscaled = fval * (mult as u64);
    }
    let n: i128 = (val as i128) * 1000000000 + fscaled as i128;
    let r: i128 = if neg {
        -n
    } else {
        n
    };
    proof {
        lemma_pow10_values();
        assert(ip =~= s@.subrange(istart as int, dot as int));
    }
    Some(r)
}

pub proof fn lemma_pow10_mul(a: nat, b: nat)
    ensures
        pow10(a) * pow10(b) == pow10(a + b),
    decreases a,
{
    if a == 0 {
        assert(pow10(0) == 1);
        assert(pow10(0 + b) == 1 * pow10(b));
    } else {
        lemma_pow10_mul((a - 1) as nat, b);
        assert(pow10(a) * pow10(b) == 10 * (pow10((a - 1) as nat) * pow10(b)))
            by (nonlinear_arith)
            requires
                pow10(a) == 10 * pow10((a - 1) as nat),
        ;
        assert((a - 1) as nat + b == (a + b - 1) as nat);
        assert(pow10(a + b) == 10 * pow10((a + b - 1) as nat));
    }
}

} // verus!
