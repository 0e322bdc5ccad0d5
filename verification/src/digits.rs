//! Decimal numerals over bytes: the mathematical form of the digit strings
//! the codec writes, and verified printing and parsing of them.

use vstd::prelude::*;

verus! {

/// An ASCII decimal digit.
pub open spec fn is_digit(c: u8) -> bool {
    48 <= c <= 57
}

/// The byte of a single decimal digit.
pub open spec fn digit_byte(n: nat) -> u8
    recommends
        n < 10,
{
    (48 + n) as u8
}

/// The shortest decimal numeral of `n`, most significant digit first.
pub open spec fn dec(n: nat) -> Seq<u8>
    decreases n,
{
    if n < 10 {
        seq![digit_byte(n)]
    } else {
        dec(n / 10).push(digit_byte(n % 10))
    }
}

/// The numeral of a signed value: a minus sign before the numeral of the
/// magnitude when the value is negative.
pub open spec fn sdec(v: int) -> Seq<u8> {
    if v < 0 {
        seq![45u8] + dec((-v) as nat)
    } else {
        dec(v as nat)
    }
}

/// The value of a digit string, most significant digit first.
pub open spec fn val_of(s: Seq<u8>) -> nat
    decreases s.len(),
{
    if s.len() == 0 {
        0
    } else {
        val_of(s.drop_last()) * 10 + (s.last() - 48) as nat
    }
}

/// Powers of ten.
pub open spec fn pow10(k: nat) -> nat
    decreases k,
{
    if k == 0 {
        1
    } else {
        10 * pow10((k - 1) as nat)
    }
}

/// The numeral of `n` stands at position `i` of `s`, and the byte after it,
/// if any, is not a digit: the numeral can be read back from there.
pub open spec fn num_at(s: Seq<u8>, i: int, n: nat) -> bool {
    &&& 0 <= i
    &&& i + dec(n).len() <= s.len()
    &&& s.subrange(i, i + dec(n).len()) == dec(n)
    &&& (i + dec(n).len() == s.len() || !is_digit(s[i + dec(n).len()]))
}

/// As `num_at`, for a signed numeral.
pub open spec fn inum_at(s: Seq<u8>, i: int, v: int) -> bool {
    if v < 0 {
        &&& 0 <= i < s.len()
        &&& s[i] == 45u8
        &&& num_at(s, i + 1, (-v) as nat)
    } else {
        num_at(s, i, v as nat)
    }
}

pub proof fn lemma_dec_digits(n: nat)
    ensures
        dec(n).len() >= 1,
        forall|t: int| 0 <= t < dec(n).len() ==> is_digit(#[trigger] dec(n)[t]),
    decreases n,
{
    if n < 10 {
        assert(is_digit(dec(n)[0]));
    } else {
        lemma_dec_digits(n / 10);
        assert forall|t: int| 0 <= t < dec(n).len() implies is_digit(#[trigger] dec(n)[t]) by {
            if t < dec(n / 10).len() {
                assert(dec(n)[t] == dec(n / 10)[t]);
            } else {
                assert(dec(n)[t] == digit_byte(n % 10));
            }
        }
    }
}

pub proof fn lemma_val_dec(n: nat)
    ensures
        val_of(dec(n)) == n,
    decreases n,
{
    if n < 10 {
        assert(dec(n).drop_last() =~= Seq::<u8>::empty());
        assert(val_of(Seq::<u8>::empty()) == 0);
        assert(dec(n).last() == digit_byte(n));
        assert(digit_byte(n) == 48 + n);
        assert(val_of(dec(n)) == (digit_byte(n) - 48) as nat);
    } else {
        lemma_val_dec(n / 10);
        assert(dec(n).drop_last() =~= dec(n / 10));
        assert(dec(n).last() == digit_byte(n % 10));
        assert(val_of(dec(n)) == (n / 10) * 10 + n % 10);
    }
}

pub proof fn lemma_pow10_mono(a: nat, b: nat)
    requires
        a <= b,
    ensures
        pow10(a) <= pow10(b),
        pow10(a) >= 1,
    decreases b,
{
    if b > 0 {
        if a <= b - 1 {
            lemma_pow10_mono(a, (b - 1) as nat);
        } else {
            lemma_pow10_mono(0, (b - 1) as nat);
        }
    }
}

pub proof fn lemma_pow10_concrete()
    ensures
        pow10(10) == 10000000000,
        pow10(11) == 100000000000,
{
    assert(pow10(0) == 1);
    assert(pow10(1) == 10);
    assert(pow10(2) == 100);
    assert(pow10(3) == 1000);
    assert(pow10(4) == 10000);
    assert(pow10(5) == 100000);
    assert(pow10(6) == 1000000);
    assert(pow10(7) == 10000000);
    assert(pow10(8) == 100000000);
    assert(pow10(9) == 1000000000);
    assert(pow10(10) == 10000000000);
    assert(pow10(11) == 100000000000);
}

/// A numeral never grows past the power of ten that bounds its value.
pub proof fn lemma_dec_len(n: nat, k: nat)
    requires
        n < pow10(k),
        k >= 1,
    ensures
        dec(n).len() <= k,
    decreases k,
{
    if n < 10 {
    } else {
        if k == 1 {
            assert(pow10(1) == 10 * pow10(0));
            assert(pow10(0) == 1);
            assert(false);
        }
        assert(pow10(k) == 10 * pow10((k - 1) as nat));
        assert(10 * (n / 10) <= n);
        assert(10 * (n / 10) < 10 * pow10((k - 1) as nat));
        assert(n / 10 < pow10((k - 1) as nat));
        lemma_dec_len(n / 10, (k - 1) as nat);
    }
}

/// If the numeral of `n` stands at `i` and a maximal digit run stretches from
/// `i` to `k`, the numeral is exactly that run, and `n` is its value.
pub proof fn lemma_num_at_run(s: Seq<u8>, i: int, k: int, n: nat)
    requires
        0 <= i <= k <= s.len(),
        forall|t: int| i <= t < k ==> is_digit(#[trigger] s[t]),
        k == s.len() || !is_digit(s[k]),
        num_at(s, i, n),
    ensures
        dec(n) == s.subrange(i, k),
        k == i + dec(n).len(),
        n == val_of(s.subrange(i, k)),
{
    lemma_dec_digits(n);
    let ln = dec(n).len() as int;
    if i + ln < k {
        // the byte after the numeral would be a digit inside the run
        assert(i + ln < s.len());
        assert(is_digit(s[i + ln]));
        assert(false);
    }
    if i + ln > k {
        // the run would end with a non-digit inside the numeral
        assert(k < s.len());
        assert(s.subrange(i, i + ln)[k - i] == s[k]);
        assert(is_digit(dec(n)[k - i]));
        assert(false);
    }
    assert(dec(n) == s.subrange(i, k));
    lemma_val_dec(n);
}

/// Only one numeral can stand at a given position: the numeral determines
/// its own length, because the byte after it is never a digit.
pub proof fn lemma_num_at_same(s: Seq<u8>, i: int, n1: nat, n2: nat)
    requires
        num_at(s, i, n1),
        num_at(s, i, n2),
    ensures
        n1 == n2,
{
    lemma_dec_digits(n1);
    lemma_dec_digits(n2);
    let l1 = dec(n1).len() as int;
    let l2 = dec(n2).len() as int;
    if l1 < l2 {
        assert(s.subrange(i, i + l2)[l1] == s[i + l1]);
        assert(is_digit(dec(n2)[l1]));
        assert(false);
    }
    if l2 < l1 {
        assert(s.subrange(i, i + l1)[l2] == s[i + l2]);
        assert(is_digit(dec(n1)[l2]));
        assert(false);
    }
    assert(dec(n1) == dec(n2));
    lemma_val_dec(n1);
    lemma_val_dec(n2);
}

/// Read a maximal run of up to ten digits starting at `i`, returning its
/// value and the position just past it; `None` when no unsigned numeral that
/// fits in 32 bits can stand at `i`.
pub fn parse_digits(b: &[u8], i: usize) -> (r: Option<(u64, usize)>)
    requires
        i <= b@.len(),
    ensures
        r matches Some(p) ==> {
            &&& i < p.1 <= b@.len()
            &&& p.1 - i <= 10
            &&& (forall|t: int| i <= t < p.1 ==> is_digit(#[trigger] b@[t]))
            &&& (p.1 == b@.len() || !is_digit(b@[p.1 as int]))
            &&& p.0 == val_of(b@.subrange(i as int, p.1 as int))
            &&& p.0 <= 9999999999
        },
        r is None ==> (forall|n: nat| n <= 0xffffffff ==> !num_at(b@, i as int, n)),
{
    let mut k: usize = i;
    let mut val: u64 = 0;
    proof {
        assert(b@.subrange(i as int, i as int) =~= Seq::<u8>::empty());
    }
    while k < b.len() && k - i < 11 && 48 <= b[k] && b[k] <= 57
        invariant
            i <= k <= b@.len(),
            k - i <= 11,
            forall|t: int| i <= t < k ==> is_digit(#[trigger] b@[t]),
            val == val_of(b@.subrange(i as int, k as int)),
            val < pow10((k - i) as nat),
        decreases b@.len() - k,
    {
        proof {
            lemma_pow10_mono((k - i) as nat, 10);
            lemma_pow10_concrete();
        }
        let d: u64 = (b[k] - 48) as u64;
        val = val * 10 + d;
        k = k + 1;
        proof {
            assert(b@.subrange(i as int, k as int).drop_last() =~= b@.subrange(
                i as int,
                (k - 1) as int,
            ));
            assert(b@.subrange(i as int, k as int).last() == b@[(k - 1) as int]);
            assert(pow10((k - i) as nat) == 10 * pow10((k - 1 - i) as nat));
        }
    }
    if k == i {
        proof {
            assert forall|n: nat| n <= 0xffffffff implies !num_at(b@, i as int, n) by {
                lemma_dec_digits(n);
                if num_at(b@, i as int, n) {
                    assert(b@.subrange(i as int, i + dec(n).len())[0] == dec(n)[0]);
                    assert(is_digit(b@[i as int]));
                    assert(false);
                }
            }
        }
        return None;
    }
    if k - i == 11 {
        proof {
            lemma_pow10_concrete();
            assert forall|n: nat| n <= 0xffffffff implies !num_at(b@, i as int, n) by {
                if num_at(b@, i as int, n) {
                    lemma_dec_digits(n);
                    lemma_dec_len(n, 10);
                    let after = i + dec(n).len();
                    assert(after < k);
                    assert(after < b@.len());
                    assert(is_digit(b@[after]));
                    assert(false);
                }
            }
        }
        return None;
    }
    proof {
        lemma_pow10_mono((k - i) as nat, 10);
        lemma_pow10_concrete();
    }
    Some((val, k))
}

/// Read a signed numeral at `i`: an optional minus sign and a digit run.
/// Wherever a signed 32-bit numeral stands at `i`, exactly that value and
/// the position just past its numeral are returned.
pub fn parse_signed(b: &[u8], i: usize) -> (r: Option<(i32, usize)>)
    requires
        i <= b@.len(),
    ensures
        r matches Some(p) ==> i < p.1 <= b@.len(),
        forall|v: i32|
            inum_at(b@, i as int, v as int) ==> r == Some::<(i32, usize)>(
                (v, (i + sdec(v as int).len()) as usize),
            ),
{
    if i < b.len() && b[i] == 45 {
        match parse_digits(b, i + 1) {
            Some((val, k)) => {
                if val == 0 || val > 0x80000000 {
                    proof {
                        assert forall|v: i32| inum_at(b@, i as int, v as int) implies false by {
                            neg_case_facts(b@, i as int, v as int, k as int);
                        }
                    }
                    return None;
                }
                let x: i32 = if val == 0x80000000 {
                    i32::MIN
                } else {
                    -(val as i32)
                };
                proof {
                    assert forall|v: i32| inum_at(b@, i as int, v as int) implies Some::<
                        (i32, usize),
                    >((x, k)) == Some::<(i32, usize)>((v, (i + sdec(v as int).len()) as usize)) by {
                        neg_case_facts(b@, i as int, v as int, k as int);
                    }
                }
                Some((x, k))
            },
            None => {
                proof {
                    assert forall|v: i32| inum_at(b@, i as int, v as int) implies false by {
                        if v as int >= 0 {
                            lemma_dec_digits((v as int) as nat);
                            assert(b@.subrange(i as int, i + dec((v as int) as nat).len())[0]
                                == dec((v as int) as nat)[0]);
                            assert(is_digit(b@[i as int]));
                            assert(false);
                        } else {
                            assert(num_at(b@, i + 1, (-(v as int)) as nat));
                            assert((-(v as int)) as nat <= 0xffffffff);
                            assert(false);
                        }
                    }
                }
                None
            },
        }
    } else {
        match parse_digits(b, i) {
            Some((val, k)) => {
                if val > 0x7fffffff {
                    proof {
                        assert forall|v: i32| inum_at(b@, i as int, v as int) implies false by {
                            pos_case_facts(b@, i as int, v as int, k as int);
                        }
                    }
                    return None;
                }
                let x: i32 = val as i32;
                proof {
                    assert forall|v: i32| inum_at(b@, i as int, v as int) implies Some::<
                        (i32, usize),
                    >((x, k)) == Some::<(i32, usize)>((v, (i + sdec(v as int).len()) as usize)) by {
                        pos_case_facts(b@, i as int, v as int, k as int);
                    }
                }
                Some((x, k))
            },
            None => {
                proof {
                    assert forall|v: i32| inum_at(b@, i as int, v as int) implies false by {
                        if v as int >= 0 {
                            assert(num_at(b@, i as int, (v as int) as nat));
                            assert((v as int) as nat <= 0xffffffff);
                        } else {
                            assert(b@[i as int] == 45u8);
                            assert(!(i < b@.len() && b@[i as int] == 45));
                        }
                        assert(false);
                    }
                }
                None
            },
        }
    }
}

/// Facts available when a signed numeral stands at `i`, the byte there is a
/// minus sign, and a maximal digit run was read from `i + 1` to `k`.
proof fn neg_case_facts(s: Seq<u8>, i: int, v: int, k: int)
    requires
        inum_at(s, i, v),
        i < s.len(),
        s[i] == 45u8,
        i + 1 <= k <= s.len(),
        forall|t: int| i + 1 <= t < k ==> is_digit(#[trigger] s[t]),
        k == s.len() || !is_digit(s[k]),
    ensures
        v < 0,
        (-v) as nat == val_of(s.subrange(i + 1, k)),
        sdec(v).len() == k - i,
{
    if v >= 0 {
        lemma_dec_digits(v as nat);
        assert(s.subrange(i, i + dec(v as nat).len())[0] == dec(v as nat)[0]);
        assert(is_digit(s[i]));
        assert(false);
    }
    lemma_num_at_run(s, i + 1, k, (-v) as nat);
}

/// Facts available when a signed numeral stands at `i`, the byte there is
/// not a minus sign, and a maximal digit run was read from `i` to `k`.
proof fn pos_case_facts(s: Seq<u8>, i: int, v: int, k: int)
    requires
        inum_at(s, i, v),
        i <= k <= s.len(),
        i < k,
        forall|t: int| i <= t < k ==> is_digit(#[trigger] s[t]),
        k == s.len() || !is_digit(s[k]),
    ensures
        v >= 0,
        v as nat == val_of(s.subrange(i, k)),
        sdec(v).len() == k - i,
{
    if v < 0 {
        assert(s[i] == 45u8);
        assert(is_digit(s[i]));
        assert(false);
    }
    lemma_num_at_run(s, i, k, v as nat);
}

/// Append the decimal numeral of `n`.
pub fn push_dec_u32(out: &mut Vec<u8>, n: u32)
    ensures
        final(out)@ == old(out)@ + dec(n as nat),
    decreases n,
{
    if n < 10 {
        out.push(48 + (n as u8));
        proof {
            assert(out@ =~= old(out)@ + dec(n as nat));
        }
    } else {
        push_dec_u32(out, n / 10);
        out.push(48 + ((n % 10) as u8));
        proof {
            assert(out@ =~= old(out)@ + dec(n as nat));
        }
    }
}

/// Append the numeral of a signed value.
pub fn push_dec_i32(out: &mut Vec<u8>, v: i32)
    ensures
        final(out)@ == old(out)@ + sdec(v as int),
{
    if v < 0 {
        out.push(45);
        let mag: u32 = if v == i32::MIN {
            2147483648
        } else {
            (-v) as u32
        };
        push_dec_u32(out, mag);
        proof {
            assert(mag as nat == (-(v as int)) as nat);
            assert(out@ =~= old(out)@ + sdec(v as int));
        }
    } else {
        push_dec_u32(out, v as u32);
        proof {
            assert((v as u32) as nat == (v as int) as nat);
        }
    }
}

} // verus!
