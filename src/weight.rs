use vstd::prelude::*;
use vstd::string::StrSliceExecFns;

verus! {

/// Weights are counted in thousandths: the declared weight `1.9` is `1900`.
pub const WEIGHT_SCALE: u64 = 1000;

/// The weight of a relation declared without one (`1`).
pub const DEFAULT_WEIGHT: u64 = 1000;

/// The largest accepted weight, in thousandths.
pub const MAX_WEIGHT: u64 = 1_000_000_000_000;

/// The largest accepted integer part of a weight.
const MAX_WHOLE: u64 = 1_000_000_000;

pub open spec fn is_digit(c: char) -> bool {
    '0' <= c && c <= '9'
}

pub open spec fn all_digits(s: Seq<char>) -> bool {
    forall|i: int| 0 <= i < s.len() ==> is_digit(#[trigger] s[i])
}

/// The value of a string of decimal digits.
pub open spec fn digits_value(s: Seq<char>) -> nat
    decreases s.len(),
{
    if s.len() == 0 {
        0
    } else {
        digits_value(s.drop_last()) * 10 + ((s.last() as nat) - ('0' as nat)) as nat
    }
}

/// `10` to the power `k`, for the few fractional digits.
pub open spec fn frac_scale(k: int) -> nat {
    if k == 0 {
        1000
    } else if k == 1 {
        100
    } else if k == 2 {
        10
    } else {
        1
    }
}

/// `s` is a whole part, a dot, and one to three fractional digits, with the
/// dot at position `p`.
pub open spec fn dot_at(s: Seq<char>, p: int) -> bool {
    &&& 0 < p < s.len() - 1
    &&& s[p] == '.'
    &&& all_digits(s.take(p))
    &&& all_digits(s.skip(p + 1))
    &&& s.len() - p - 1 <= 3
}

/// The value in thousandths of a decimal number written as digits with an
/// optional dot followed by one to three digits; `None` for other text.
pub open spec fn decimal_thousandths(s: Seq<char>) -> Option<nat> {
    if s.len() > 0 && all_digits(s) {
        Some(digits_value(s) * 1000)
    } else if exists|p: int| dot_at(s, p) {
        let p = choose|p: int| dot_at(s, p);
        Some(digits_value(s.take(p)) * 1000 + digits_value(s.skip(p + 1)) * frac_scale(s.len() - p - 1))
    } else {
        None
    }
}

/// The weight that the text `s` declares, if it is a positive decimal
/// number of at most `MAX_WEIGHT` thousandths.
pub open spec fn weight_of(s: Seq<char>) -> Option<nat> {
    match decimal_thousandths(s) {
        Some(v) => if 0 < v && v <= MAX_WEIGHT {
            Some(v)
        } else {
            None
        },
        None => None,
    }
}

proof fn lemma_digits_grow(s: Seq<char>, i: int)
    requires
        0 <= i <= s.len(),
    ensures
        digits_value(s.take(i)) <= digits_value(s),
    decreases s.len() - i,
{
    if i < s.len() {
        lemma_digits_grow(s, i + 1);
        assert(s.take(i + 1).drop_last() =~= s.take(i));
    } else {
        assert(s.take(i) =~= s);
    }
}

/// Reads the digits of `text` from `lo` up to `hi`: their value, where they
/// are all digits and the value is at most `MAX_WHOLE`.
fn read_digits(text: &str, lo: usize, hi: usize) -> (r: Option<u64>)
    requires
        lo <= hi <= text@.len(),
    ensures
        match r {
            Some(v) => all_digits(text@.subrange(lo as int, hi as int)) && v == digits_value(
                text@.subrange(lo as int, hi as int),
            ) && v <= MAX_WHOLE,
            None => !all_digits(text@.subrange(lo as int, hi as int)) || digits_value(
                text@.subrange(lo as int, hi as int),
            ) > MAX_WHOLE,
        },
{
    let ghost s = text@.subrange(lo as int, hi as int);
    let mut acc: u64 = 0;
    let mut i: usize = lo;
    while i < hi
        invariant
            lo <= i <= hi <= text@.len(),
            s == text@.subrange(lo as int, hi as int),
            all_digits(s.take(i - lo)),
            acc == digits_value(s.take(i - lo)),
            acc <= MAX_WHOLE,
        decreases hi - i,
    {
        let c = text.get_char(i);
        if c < '0' || c > '9' {
            assert(!is_digit(s[i - lo]));
            return None;
        }
        let d = (c as u64) - ('0' as u64);
        assert(s.take(i - lo + 1).drop_last() =~= s.take(i - lo));
        assert(s[i - lo] == c);
        if acc > (MAX_WHOLE - d) / 10 {
            assert(digits_value(s.take(i - lo + 1)) > MAX_WHOLE) by (nonlinear_arith)
                requires
                    digits_value(s.take(i - lo + 1)) == acc * 10 + d,
                    acc > (MAX_WHOLE - d) / 10,
                    d <= 9,
            ;
            proof {
                lemma_digits_grow(s, i - lo + 1);
            }
            return None;
        }
        assert(acc * 10 + d <= MAX_WHOLE) by (nonlinear_arith)
            requires
                acc <= (MAX_WHOLE - d) / 10,
                d <= 9,
        ;
        acc = acc * 10 + d;
        i = i + 1;
    }
    assert(s.take(i - lo) =~= s);
    Some(acc)
}

/// Parses a declared weight: a positive decimal number with at most three
/// fractional digits, in thousandths.
pub fn parse_weight(text: &str) -> (r: Option<u64>)
    ensures
        match r {
            Some(v) => weight_of(text@) == Some(v as nat),
            None => weight_of(text@) is None,
        },
{
    let n = text.unicode_len();
    if n == 0 {
        return None;
    }
    let mut dot: usize = 0;
    let mut found = false;
    while dot < n
        invariant
            n == text@.len(),
            dot <= n,
            forall|j: int| 0 <= j < dot ==> text@[j] != '.',
            found ==> dot < n && text@[dot as int] == '.',
        ensures
            dot <= n,
            forall|j: int| 0 <= j < dot ==> text@[j] != '.',
            found ==> dot < n && text@[dot as int] == '.',
            !found ==> dot == n,
        decreases n - dot,
    {
        if text.get_char(dot) == '.' {
            found = true;
            break;
        }
        dot = dot + 1;
    }
    let ghost s = text@;
    if !found {
        assert(s.subrange(0, n as int) =~= s);
        assert forall|p: int| !dot_at(s, p) by {
            if 0 < p < s.len() - 1 {
                assert(s[p] != '.');
            }
        }
        match read_digits(text, 0, n) {
            Some(whole) => {
                let v = whole * WEIGHT_SCALE;
                if v == 0 {
                    return None;
                }
                return Some(v);
            },
            None => {
                return None;
            },
        }
    }
    if dot == 0 || dot + 1 >= n || n - dot - 1 > 3 {
        assert(!all_digits(s));
        assert(forall|p: int| !dot_at(s, p)) by {
            assert forall|p: int| dot_at(s, p) implies p == dot by {
                if p < dot {
                    assert(s[p] != '.');
                } else if p > dot {
                    assert(s.take(p)[dot as int] == '.');
                }
            }
        }
        return None;
    }
    assert(!all_digits(s)) by {
        assert(!is_digit(s[dot as int]));
    }
    assert(s.subrange(0, dot as int) =~= s.take(dot as int));
    assert(s.subrange(dot + 1, n as int) =~= s.skip(dot + 1));
    assert forall|p: int| dot_at(s, p) implies p == dot by {
        if p < dot {
            assert(s[p] != '.');
        } else if p > dot {
            assert(s.take(p)[dot as int] == '.');
        }
    }
    let whole = match read_digits(text, 0, dot) {
        Some(w) => w,
        None => {
            proof {
                if all_digits(s.take(dot as int)) && all_digits(s.skip(dot + 1)) {
                    assert(dot_at(s, dot as int));
                }
            }
            return None;
        },
    };
    let frac = match read_digits(text, dot + 1, n) {
        Some(f) => f,
        None => {
            proof {
                if all_digits(s.skip(dot + 1)) {
                    assert(dot_at(s, dot as int));
                    assert(digits_value(s.skip(dot + 1)) > MAX_WHOLE);
                    lemma_small_digits(s.skip(dot + 1));
                }
            }
            return None;
        },
    };
    let k = n - dot - 1;
    let scale: u64 = if k == 1 {
        100
    } else if k == 2 {
        10
    } else {
        1
    };
    proof {
        assert(dot_at(s, dot as int));
        lemma_small_digits(s.skip(dot + 1));
    }
    let v = whole * WEIGHT_SCALE + frac * scale;
    if v == 0 || v > MAX_WEIGHT {
        return None;
    }
    Some(v)
}

/// At most three digits are worth less than a thousand.
proof fn lemma_small_digits(s: Seq<char>)
    requires
        all_digits(s),
        s.len() <= 3,
    ensures
        digits_value(s) < 1000,
        s.len() <= 2 ==> digits_value(s) < 100,
        s.len() <= 1 ==> digits_value(s) < 10,
        s.len() == 0 ==> digits_value(s) == 0,
    decreases s.len(),
{
    if s.len() > 0 {
        assert(all_digits(s.drop_last())) by {
            assert forall|i: int| 0 <= i < s.drop_last().len() implies is_digit(#[trigger] s.drop_last()[i]) by {
                assert(s.drop_last()[i] == s[i]);
            }
        }
        lemma_small_digits(s.drop_last());
        assert(is_digit(s[s.len() - 1]));
    }
}

} // verus!
