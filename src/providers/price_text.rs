use vstd::prelude::*;

verus! {

/// Decimal places of a unit that a fixed-point price keeps.
pub const PRICE_DECIMALS: usize = 9;

/// Exponents larger than this give the same outcome as this one plus one.
const EXPONENT_CAP: u128 = 0x40_0000_0000_0000_0000;

pub open spec fn is_digit(b: u8) -> bool {
    48 <= b <= 57
}

pub open spec fn all_digits(s: Seq<u8>) -> bool {
    forall|i: int| 0 <= i < s.len() ==> is_digit(#[trigger] s[i])
}

/// The number that a run of decimal digits writes.
pub open spec fn digits_value(s: Seq<u8>) -> nat
    decreases s.len(),
{
    if s.len() == 0 {
        0
    } else {
        digits_value(s.drop_last()) * 10 + (s.last() - 48) as nat
    }
}

pub open spec fn pow10(n: nat) -> nat
    decreases n,
{
    if n == 0 {
        1
    } else {
        10 * pow10((n - 1) as nat)
    }
}

/// Index of the first byte of `s` that is `a` or `b`, or the length of `s`.
pub open spec fn first_of(s: Seq<u8>, a: u8, b: u8) -> int
    decreases s.len(),
{
    if s.len() == 0 {
        0
    } else if s[0] == a || s[0] == b {
        0
    } else {
        1 + first_of(s.skip(1), a, b)
    }
}

/// The value of an exponent: an optional sign, then one or more digits.
pub open spec fn exponent_value(e: Seq<u8>) -> Option<int> {
    let signed = e.len() > 0 && (e[0] == 43 || e[0] == 45);
    let ds = if signed {
        e.skip(1)
    } else {
        e
    };
    if ds.len() > 0 && all_digits(ds) {
        Some(
            if signed && e[0] == 45 {
                -(digits_value(ds) as int)
            } else {
                digits_value(ds) as int
            },
        )
    } else {
        None
    }
}

/// The fixed-point units that the digit string `digits` gives when its first
/// `places` digits stand at or above the smallest unit: later digits are
/// dropped, and missing ones are zeros.
pub open spec fn shifted_units(digits: Seq<u8>, places: int) -> nat {
    if places <= 0 {
        0
    } else if places >= digits.len() {
        digits_value(digits) * pow10((places - digits.len()) as nat)
    } else {
        digits_value(digits.take(places))
    }
}

/// The fixed-point value of a price text: an optional `+`, digits with at
/// most one dot and at least one digit, then optionally `e` or `E` and an
/// exponent. Places below the smallest unit are dropped.
pub open spec fn decimal_units(text: Seq<u8>) -> Option<nat> {
    let body = if text.len() > 0 && text[0] == 43 {
        text.skip(1)
    } else {
        text
    };
    let m = first_of(body, 101, 69);
    let mant = body.take(m);
    let d = first_of(mant, 46, 46);
    let int_part = mant.take(d);
    let frac = if d < mant.len() {
        mant.skip(d + 1)
    } else {
        Seq::empty()
    };
    let exp = if m < body.len() {
        exponent_value(body.skip(m + 1))
    } else {
        Some(0int)
    };
    if all_digits(int_part) && all_digits(frac) && int_part.len() + frac.len() > 0 && exp is Some {
        Some(shifted_units(int_part + frac, int_part.len() + exp->Some_0 + PRICE_DECIMALS))
    } else {
        None
    }
}

/// The price that a text gives, where it is well formed and fits.
pub open spec fn price_of_text(text: Seq<u8>) -> Option<u64> {
    match decimal_units(text) {
        Some(v) => if v <= u64::MAX {
            Some(v as u64)
        } else {
            None
        },
        None => None,
    }
}

proof fn lemma_first_of(s: Seq<u8>, a: u8, b: u8)
    ensures
        0 <= first_of(s, a, b) <= s.len(),
        forall|j: int| 0 <= j < first_of(s, a, b) ==> s[j] != a && s[j] != b,
        first_of(s, a, b) < s.len() ==> (s[first_of(s, a, b)] == a || s[first_of(s, a, b)] == b),
    decreases s.len(),
{
    if s.len() > 0 && s[0] != a && s[0] != b {
        let rest = s.skip(1);
        lemma_first_of(rest, a, b);
        assert forall|j: int| 0 <= j < first_of(s, a, b) implies s[j] != a && s[j] != b by {
            if j > 0 {
                assert(s[j] == rest[j - 1]);
            }
        }
    }
}

proof fn lemma_digits_value_prefix(s: Seq<u8>, k: int)
    requires
        all_digits(s),
        0 <= k <= s.len(),
    ensures
        digits_value(s.take(k)) <= digits_value(s),
    decreases s.len(),
{
    if k == s.len() {
        assert(s.take(k) =~= s);
    } else {
        let t = s.drop_last();
        assert(t.take(k) =~= s.take(k));
        assert forall|i: int| 0 <= i < t.len() implies is_digit(#[trigger] t[i]) by {
            assert(t[i] == s[i]);
        }
        lemma_digits_value_prefix(t, k);
    }
}

proof fn lemma_pow10_mono(a: nat, b: nat)
    requires
        a <= b,
    ensures
        1 <= pow10(a) <= pow10(b),
    decreases b,
{
    if a < b {
        lemma_pow10_mono(a, (b - 1) as nat);
    } else if a > 0 {
        lemma_pow10_mono((a - 1) as nat, (a - 1) as nat);
    }
}

proof fn lemma_pow10_large(n: nat)
    requires
        n >= 20,
    ensures
        pow10(n) > u64::MAX,
{
    reveal_with_fuel(pow10, 21);
    assert(pow10(20) == 100_000_000_000_000_000_000nat);
    lemma_pow10_mono(20, n);
}

/// Reads the first `to` digits of `s` as a number, or nothing where it
/// exceeds `u64`.
fn read_digits(s: &Vec<u8>, to: usize) -> (r: Option<u64>)
    requires
        to <= s@.len(),
        all_digits(s@),
    ensures
        r matches Some(v) ==> v == digits_value(s@.take(to as int)),
        r is None ==> digits_value(s@.take(to as int)) > u64::MAX,
{
    let ghost run = s@.take(to as int);
    assert(all_digits(run));
    let mut v: u64 = 0;
    let mut j: usize = 0;
    while j < to
        invariant
            j <= to <= s@.len(),
            run == s@.take(to as int),
            all_digits(run),
            v == digits_value(run.take(j as int)),
        decreases to - j,
    {
        assert(run.take(j + 1).drop_last() =~= run.take(j as int));
        assert(run[j as int] == s@[j as int]);
        assert(is_digit(run[j as int]));
        let d = (s[j] - 48) as u64;
        proof {
            lemma_digits_value_prefix(run, j + 1);
        }
        match v.checked_mul(10) {
            Some(t) => match t.checked_add(d) {
                Some(u) => {
                    v = u;
                },
                None => {
                    return None;
                },
            },
            None => {
                return None;
            },
        }
        j = j + 1;
    }
    assert(run.take(to as int) =~= run);
    Some(v)
}

/// The first index at or after `from` and before `to` whose byte is `a` or
/// `b`, or `to`.
fn find_either(text: &[u8], from: usize, to: usize, a: u8, b: u8) -> (r: usize)
    requires
        from <= to <= text@.len(),
    ensures
        r - from == first_of(text@.subrange(from as int, to as int), a, b),
        from <= r <= to,
{
    let ghost s = text@.subrange(from as int, to as int);
    let mut i: usize = from;
    while i < to && text[i] != a && text[i] != b
        invariant
            from <= i <= to <= text@.len(),
            forall|j: int| from <= j < i ==> text@[j] != a && text@[j] != b,
        decreases to - i,
    {
        i = i + 1;
    }
    proof {
        lemma_first_of(s, a, b);
        let r = first_of(s, a, b);
        if r < i - from {
            assert(s[r] == text@[from + r]);
        } else if r > i - from {
            assert(s[i - from] == text@[i as int]);
        }
    }
    i
}

/// The digits of `text` from `from` to `to`, appended to `out`; nothing where
/// one of those bytes is not a digit.
fn push_digits(text: &[u8], from: usize, to: usize, out: &mut Vec<u8>) -> (ok: bool)
    requires
        from <= to <= text@.len(),
        all_digits(old(out)@),
    ensures
        ok == all_digits(text@.subrange(from as int, to as int)),
        ok ==> final(out)@ == old(out)@ + text@.subrange(from as int, to as int),
        all_digits(final(out)@),
{
    let ghost start = out@;
    let mut j: usize = from;
    while j < to
        invariant
            from <= j <= to <= text@.len(),
            out@ =~= start + text@.subrange(from as int, j as int),
            all_digits(out@),
            all_digits(text@.subrange(from as int, j as int)),
        decreases to - j,
    {
        let b = text[j];
        if !(48 <= b && b <= 57) {
            assert(text@.subrange(from as int, to as int)[j - from] == b);
            return false;
        }
        out.push(b);
        assert forall|i: int| 0 <= i < j + 1 - from implies is_digit(
            #[trigger] text@.subrange(from as int, j + 1)[i],
        ) by {
            if i < j - from {
                assert(text@.subrange(from as int, j + 1)[i] == text@.subrange(from as int, j as int)[i]);
            }
        }
        j = j + 1;
    }
    true
}

/// Reads an exponent from `from` to the end: its sign, and its size where it
/// is at most `EXPONENT_CAP`, else one more than that.
fn read_exponent(text: &[u8], from: usize) -> (r: Option<(bool, u128)>)
    requires
        from <= text@.len(),
    ensures
        r is None <==> exponent_value(text@.subrange(from as int, text@.len() as int)) is None,
        r matches Some((neg, ev)) ==> {
            let e = exponent_value(text@.subrange(from as int, text@.len() as int))->Some_0;
            &&& ev <= EXPONENT_CAP ==> e == if neg {
                -(ev as int)
            } else {
                ev as int
            }
            &&& ev == EXPONENT_CAP + 1 && !neg ==> e > EXPONENT_CAP
            &&& ev == EXPONENT_CAP + 1 && neg ==> e < -(EXPONENT_CAP as int)
            &&& ev <= EXPONENT_CAP + 1
        },
{
    let n = text.len();
    let ghost e = text@.subrange(from as int, n as int);
    let mut neg = false;
    let mut ds: usize = from;
    if ds < n && (text[ds] == 43 || text[ds] == 45) {
        neg = text[ds] == 45;
        ds = ds + 1;
    }
    let ghost signed = e.len() > 0 && (e[0] == 43 || e[0] == 45);
    let ghost dseq = text@.subrange(ds as int, n as int);
    assert(dseq =~= if signed {
        e.skip(1)
    } else {
        e
    });
    assert(neg == (signed && e[0] == 45));
    if ds == n {
        assert(dseq.len() == 0);
        return None;
    }
    let mut ev: u128 = 0;
    let mut k: usize = ds;
    while k < n
        invariant
            ds <= k <= n == text@.len(),
            dseq == text@.subrange(ds as int, n as int),
            e == text@.subrange(from as int, n as int),
            signed == (e.len() > 0 && (e[0] == 43 || e[0] == 45)),
            dseq == if signed {
                e.skip(1)
            } else {
                e
            },
            neg == (signed && e[0] == 45),
            all_digits(text@.subrange(ds as int, k as int)),
            (ev <= EXPONENT_CAP && ev == digits_value(text@.subrange(ds as int, k as int))) || (ev
                == EXPONENT_CAP + 1 && digits_value(text@.subrange(ds as int, k as int))
                > EXPONENT_CAP),
        decreases n - k,
    {
        let b = text[k];
        if !(48 <= b && b <= 57) {
            assert(dseq[k - ds] == b);
            assert(!all_digits(dseq));
            return None;
        }
        let ghost prev = text@.subrange(ds as int, k as int);
        let ghost next = text@.subrange(ds as int, k + 1);
        assert(next.drop_last() =~= prev);
        assert forall|i: int| 0 <= i < next.len() implies is_digit(#[trigger] next[i]) by {
            if i < next.len() - 1 {
                assert(next[i] == prev[i]);
            }
        }
        if ev <= EXPONENT_CAP {
            ev = ev * 10 + (b - 48) as u128;
            if ev > EXPONENT_CAP {
                ev = EXPONENT_CAP + 1;
            }
        }
        k = k + 1;
    }
    Some((neg, ev))
}

/// The fixed-point units of `digits` shifted to `places`, where they fit.
/// `p` is `places` itself, or stands beyond every digit on the same side.
fn shift_digits(digits: &Vec<u8>, p: i128, places: Ghost<int>) -> (r: Option<u64>)
    requires
        all_digits(digits@),
        digits@.len() > 0,
        p == places@ || (p >= EXPONENT_CAP && places@ >= p) || (places@ <= p <= 0),
    ensures
        r == (if shifted_units(digits@, places@) <= u64::MAX {
            Some(shifted_units(digits@, places@) as u64)
        } else {
            None::<u64>
        }),
{
    let len: usize = digits.len();
    let ghost pt = places@;
    if p <= 0 {
        return Some(0);
    }
    if p < len as i128 {
        return read_digits(digits, p as usize);
    }
    assert(digits@.take(len as int) =~= digits@);
    let ghost dv = digits_value(digits@);
    let w = match read_digits(digits, len) {
        Some(w) => w,
        None => {
            proof {
                lemma_pow10_mono(0, (pt - len) as nat);
                assert(dv * pow10((pt - len) as nat) >= dv) by (nonlinear_arith)
                    requires
                        pow10((pt - len) as nat) >= 1,
                ;
            }
            return None;
        },
    };
    let ghost span: int = p - len;
    let mut count: u128 = (p - len as i128) as u128;
    let mut v: u64 = w;
    assert(pow10(0) == 1);
    assert(w == dv);
    assert(span - count == 0);
    assert(pow10((span - count) as nat) == 1);
    assert(v as int == dv * pow10((span - count) as nat));
    while count > 0 && v != 0
        invariant
            0 <= count <= span,
            pt == places@,
            span == p - len,
            len == digits@.len() > 0,
            p >= len,
            p == pt || pt >= p,
            p != pt ==> p >= EXPONENT_CAP,
            dv == digits_value(digits@),
            v as int == dv * pow10((span - count) as nat),
        decreases count,
    {
        assert(pow10((span - count + 1) as nat) == 10 * pow10((span - count) as nat));
        assert(dv * pow10((span - count + 1) as nat) == v as int * 10) by (nonlinear_arith)
            requires
                pow10((span - count + 1) as nat) == 10 * pow10((span - count) as nat),
                v as int == dv * pow10((span - count) as nat),
        ;
        match v.checked_mul(10) {
            Some(x) => {
                v = x;
                count = count - 1;
            },
            None => {
                proof {
                    lemma_pow10_mono((span - count + 1) as nat, (pt - len) as nat);
                    assert(dv * pow10((pt - len) as nat) >= dv * pow10((span - count + 1) as nat))
                        by (nonlinear_arith)
                        requires
                            pow10((pt - len) as nat) >= pow10((span - count + 1) as nat),
                    ;
                    assert(v as int * 10 > u64::MAX);
                    assert(shifted_units(digits@, pt) == dv * pow10((pt - len) as nat));
                    assert(shifted_units(digits@, pt) > u64::MAX);
                }
                return None;
            },
        }
    }
    proof {
        lemma_pow10_mono(0, (span - count) as nat);
        if v == 0 {
            assert(dv == 0) by (nonlinear_arith)
                requires
                    0 == dv * pow10((span - count) as nat),
                    pow10((span - count) as nat) >= 1,
            ;
            assert(shifted_units(digits@, pt) == 0) by (nonlinear_arith)
                requires
                    dv == 0,
                    shifted_units(digits@, pt) == dv * pow10((pt - len) as nat),
            ;
        } else {
            assert(count == 0);
            assert(dv >= 1) by (nonlinear_arith)
                requires
                    v as int == dv * pow10((span - count) as nat),
                    v != 0,
                    dv >= 0,
            ;
            if p != pt {
                assert(span >= 20);
                lemma_pow10_large(span as nat);
                assert(dv * pow10(span as nat) >= pow10(span as nat)) by (nonlinear_arith)
                    requires
                        dv >= 1,
                ;
                assert(false);
            }
        }
    }
    Some(v)
}

/// The fixed-point price that a text such as `64123.45000000`, `.5`, `+1` or
/// `1.2e-5` gives, or nothing where the text is not of that form or the price
/// does not fit.
#[verifier::rlimit(60)]
pub fn parse_price(text: &[u8]) -> (r: Option<u64>)
    ensures
        r == price_of_text(text@),
{
    let n = text.len();
    let sl: usize = if n > 0 && text[0] == 43 {
        1
    } else {
        0
    };
    let ghost body = if text@.len() > 0 && text@[0] == 43 {
        text@.skip(1)
    } else {
        text@
    };
    assert(body =~= text@.subrange(sl as int, n as int));
    let m = find_either(text, sl, n, 101, 69);
    let ghost mant = body.take(m - sl);
    assert(mant =~= text@.subrange(sl as int, m as int));
    let d = find_either(text, sl, m, 46, 46);
    let fs: usize = if d < m {
        d + 1
    } else {
        m
    };
    let ghost int_part = mant.take(d - sl);
    let ghost frac = if d < m {
        mant.skip(d - sl + 1)
    } else {
        Seq::<u8>::empty()
    };
    assert(int_part =~= text@.subrange(sl as int, d as int));
    assert(frac =~= text@.subrange(fs as int, m as int));
    let mut digits: Vec<u8> = Vec::new();
    if !push_digits(text, sl, d, &mut digits) {
        return None;
    }
    if !push_digits(text, fs, m, &mut digits) {
        return None;
    }
    assert(digits@ =~= int_part + frac);
    if digits.len() == 0 {
        return None;
    }
    let ghost exp = if m < n {
        exponent_value(body.skip(m - sl + 1))
    } else {
        Some(0int)
    };
    let (neg, ev) = if m < n {
        assert(body.skip(m - sl + 1) =~= text@.subrange(m + 1, n as int));
        match read_exponent(text, m + 1) {
            Some(x) => x,
            None => {
                return None;
            },
        }
    } else {
        (false, 0)
    };
    let int_len: usize = d - sl;
    let p: i128 = if neg {
        int_len as i128 + 9 - ev as i128
    } else {
        int_len as i128 + 9 + ev as i128
    };
    let ghost pt: int = int_len + exp->Some_0 + 9;
    assert(decimal_units(text@) == Some(shifted_units(digits@, pt)));
    shift_digits(&digits, p, Ghost(pt))
}

} // verus!
