use vstd::prelude::*;

use vstd::slice::slice_subrange;
use vstd::string::StringSliceAdditionalSpecFns;

use crate::error::{Error, ErrorKind};

verus! {

/// Whether `c` is an ASCII hexadecimal digit.
pub open spec fn is_hex_digit(c: u8) -> bool {
    (48 <= c <= 57) || (97 <= c <= 102) || (65 <= c <= 70)
}

/// The value of one hexadecimal digit.
pub open spec fn hex_digit_val(c: u8) -> int {
    if 48 <= c <= 57 {
        c - 48
    } else if 97 <= c <= 102 {
        c - 87
    } else {
        c - 55
    }
}

/// Whether every byte is a hexadecimal digit.
pub open spec fn all_hex(s: Seq<u8>) -> bool {
    forall|i: int| 0 <= i < s.len() ==> is_hex_digit(#[trigger] s[i])
}

/// The number written in hexadecimal by `s`.
pub open spec fn hex_value(s: Seq<u8>) -> int
    decreases s.len(),
{
    if s.len() == 0 {
        0
    } else {
        hex_value(s.drop_last()) * 16 + hex_digit_val(s.last())
    }
}

/// Whether `c` is an ASCII decimal digit.
pub open spec fn is_dec_digit(c: u8) -> bool {
    48 <= c <= 57
}

/// Whether every byte is a decimal digit.
pub open spec fn all_dec(s: Seq<u8>) -> bool {
    forall|i: int| 0 <= i < s.len() ==> is_dec_digit(#[trigger] s[i])
}

/// The number written in decimal by `s`.
pub open spec fn dec_value(s: Seq<u8>) -> int
    decreases s.len(),
{
    if s.len() == 0 {
        0
    } else {
        dec_value(s.drop_last()) * 10 + (s.last() - 48)
    }
}

proof fn lemma_hex_nonneg(s: Seq<u8>)
    requires
        all_hex(s),
    ensures
        hex_value(s) >= 0,
    decreases s.len(),
{
    if s.len() > 0 {
        assert(all_hex(s.drop_last())) by {
            assert forall|i: int| 0 <= i < s.drop_last().len() implies is_hex_digit(
                #[trigger] s.drop_last()[i],
            ) by {
                assert(s.drop_last()[i] == s[i]);
            }
        }
        lemma_hex_nonneg(s.drop_last());
        assert(is_hex_digit(s.last()));
        assert(hex_value(s.drop_last()) * 16 >= 0) by (nonlinear_arith)
            requires
                hex_value(s.drop_last()) >= 0,
        ;
    }
}

proof fn lemma_hex_prefix_le(s: Seq<u8>, k: int)
    requires
        all_hex(s),
        0 <= k <= s.len(),
    ensures
        hex_value(s.take(k)) <= hex_value(s),
    decreases s.len() - k,
{
    if k < s.len() {
        let t = s.take(k + 1);
        assert(t.drop_last() =~= s.take(k));
        assert(all_hex(s.take(k))) by {
            assert forall|i: int| 0 <= i < s.take(k).len() implies is_hex_digit(
                #[trigger] s.take(k)[i],
            ) by {
                assert(s.take(k)[i] == s[i]);
            }
        }
        lemma_hex_nonneg(s.take(k));
        assert(t.last() == s[k]);
        assert(is_hex_digit(s[k]));
        assert(hex_value(t) == hex_value(s.take(k)) * 16 + hex_digit_val(s[k]));
        assert(hex_value(s.take(k)) * 16 >= hex_value(s.take(k))) by (nonlinear_arith)
            requires
                hex_value(s.take(k)) >= 0,
        ;
        lemma_hex_prefix_le(s, k + 1);
        assert(s.take(s.len() as int) =~= s);
    } else {
        assert(s.take(k) =~= s);
    }
}

proof fn lemma_dec_nonneg(s: Seq<u8>)
    requires
        all_dec(s),
    ensures
        dec_value(s) >= 0,
    decreases s.len(),
{
    if s.len() > 0 {
        assert(all_dec(s.drop_last())) by {
            assert forall|i: int| 0 <= i < s.drop_last().len() implies is_dec_digit(
                #[trigger] s.drop_last()[i],
            ) by {
                assert(s.drop_last()[i] == s[i]);
            }
        }
        lemma_dec_nonneg(s.drop_last());
        assert(dec_value(s.drop_last()) * 10 >= 0) by (nonlinear_arith)
            requires
                dec_value(s.drop_last()) >= 0,
        ;
    }
}

proof fn lemma_dec_prefix_le(s: Seq<u8>, k: int)
    requires
        all_dec(s),
        0 <= k <= s.len(),
    ensures
        dec_value(s.take(k)) <= dec_value(s),
    decreases s.len() - k,
{
    if k < s.len() {
        let t = s.take(k + 1);
        assert(t.drop_last() =~= s.take(k));
        assert(all_dec(s.take(k))) by {
            assert forall|i: int| 0 <= i < s.take(k).len() implies is_dec_digit(
                #[trigger] s.take(k)[i],
            ) by {
                assert(s.take(k)[i] == s[i]);
            }
        }
        lemma_dec_nonneg(s.take(k));
        assert(t.last() == s[k]);
        assert(is_dec_digit(s[k]));
        assert(dec_value(t) == dec_value(s.take(k)) * 10 + (s[k] - 48));
        assert(dec_value(s.take(k)) * 10 >= dec_value(s.take(k))) by (nonlinear_arith)
            requires
                dec_value(s.take(k)) >= 0,
        ;
        lemma_dec_prefix_le(s, k + 1);
        assert(s.take(s.len() as int) =~= s);
    } else {
        assert(s.take(k) =~= s);
    }
}

/// Parses a non-empty run of hexadecimal digits into a 64-bit number,
/// reporting exactly why it cannot.
pub fn parse_hex_u64(s: &[u8]) -> (r: Result<u64, Error>)
    ensures
        r is Ok <==> (s@.len() > 0 && all_hex(s@) && hex_value(s@) <= u64::MAX),
        match r {
            Ok(v) => v == hex_value(s@),
            Err(e) => {
                &&& (e == Error(ErrorKind::EmptyNumber) <==> s@.len() == 0)
                &&& (e == Error(ErrorKind::InvalidDigit) <==> (s@.len() > 0 && !all_hex(s@)))
                &&& (e == Error(ErrorKind::NumberTooLarge) <==> (s@.len() > 0 && all_hex(s@)
                    && hex_value(s@) > u64::MAX))
            },
        },
{
    let n = s.len();
    if n == 0 {
        return Err(Error(ErrorKind::EmptyNumber));
    }
    let mut i: usize = 0;
    while i < n
        invariant
            n == s@.len(),
            i <= n,
            forall|j: int| 0 <= j < i ==> is_hex_digit(#[trigger] s@[j]),
        decreases n - i,
    {
        let c = s[i];
        let ok = (48 <= c && c <= 57) || (97 <= c && c <= 102) || (65 <= c && c <= 70);
        if !ok {
            return Err(Error(ErrorKind::InvalidDigit));
        }
        i = i + 1;
    }
    let mut acc: u64 = 0;
    let mut i: usize = 0;
    proof {
        assert(s@.take(0) =~= Seq::<u8>::empty());
    }
    while i < n
        invariant
            n == s@.len(),
            i <= n,
            all_hex(s@),
            acc as int == hex_value(s@.take(i as int)),
        decreases n - i,
    {
        let ghost i0 = i as int;
        let c = s[i];
        let d: u64 = if 48 <= c && c <= 57 {
            (c - 48) as u64
        } else if 97 <= c && c <= 102 {
            (c - 87) as u64
        } else {
            (c - 55) as u64
        };
        proof {
            assert(d as int == hex_digit_val(s@[i0]));
            assert(d <= 15);
        }
        if acc > (u64::MAX - d) / 16 {
            proof {
                lemma_hex_nonneg(s@.take(i0));
                assert(s@.take(i0 + 1).drop_last() =~= s@.take(i0));
                assert(s@.take(i0 + 1).last() == s@[i0]);
                assert(hex_value(s@.take(i0 + 1)) == acc as int * 16 + d);
                assert(acc as int * 16 + d > u64::MAX) by (nonlinear_arith)
                    requires
                        acc as int > (u64::MAX - d as int) / 16,
                        0 <= d <= 15,
                        acc >= 0,
                ;
                lemma_hex_prefix_le(s@, i0 + 1);
                assert(hex_value(s@) > u64::MAX);
            }
            return Err(Error(ErrorKind::NumberTooLarge));
        }
        proof {
            assert(acc as int * 16 + d <= u64::MAX) by (nonlinear_arith)
                requires
                    acc as int <= (u64::MAX - d as int) / 16,
                    0 <= d <= 15,
                    acc >= 0,
            ;
        }
        acc = acc * 16 + d;
        i = i + 1;
        proof {
            assert(s@.take(i0 + 1).drop_last() =~= s@.take(i0));
            assert(s@.take(i0 + 1).last() == s@[i0]);
            assert(acc as int == hex_value(s@.take(i0 + 1)));
        }
    }
    proof {
        assert(s@.take(n as int) =~= s@);
    }
    Ok(acc)
}

/// Parses a non-empty run of decimal digits into a 64-bit number,
/// reporting exactly why it cannot.
pub fn parse_dec_u64(s: &[u8]) -> (r: Result<u64, Error>)
    ensures
        r is Ok <==> (s@.len() > 0 && all_dec(s@) && dec_value(s@) <= u64::MAX),
        match r {
            Ok(v) => v == dec_value(s@),
            Err(e) => {
                &&& (e == Error(ErrorKind::EmptyNumber) <==> s@.len() == 0)
                &&& (e == Error(ErrorKind::InvalidDigit) <==> (s@.len() > 0 && !all_dec(s@)))
                &&& (e == Error(ErrorKind::NumberTooLarge) <==> (s@.len() > 0 && all_dec(s@)
                    && dec_value(s@) > u64::MAX))
            },
        },
{
    let n = s.len();
    if n == 0 {
        return Err(Error(ErrorKind::EmptyNumber));
    }
    let mut i: usize = 0;
    while i < n
        invariant
            n == s@.len(),
            i <= n,
            forall|j: int| 0 <= j < i ==> is_dec_digit(#[trigger] s@[j]),
        decreases n - i,
    {
        let c = s[i];
        if !(48 <= c && c <= 57) {
            return Err(Error(ErrorKind::InvalidDigit));
        }
        i = i + 1;
    }
    let mut acc: u64 = 0;
    let mut i: usize = 0;
    proof {
        assert(s@.take(0) =~= Seq::<u8>::empty());
    }
    while i < n
        invariant
            n == s@.len(),
            i <= n,
            all_dec(s@),
            acc as int == dec_value(s@.take(i as int)),
        decreases n - i,
    {
        let ghost i0 = i as int;
        let c = s[i];
        let d: u64 = (c - 48) as u64;
        proof {
            assert(d <= 9);
        }
        if acc > (u64::MAX - d) / 10 {
            proof {
                lemma_dec_nonneg(s@.take(i0));
                assert(s@.take(i0 + 1).drop_last() =~= s@.take(i0));
                assert(s@.take(i0 + 1).last() == s@[i0]);
                assert(dec_value(s@.take(i0 + 1)) == acc as int * 10 + d);
                assert(acc as int * 10 + d > u64::MAX) by (nonlinear_arith)
                    requires
                        acc as int > (u64::MAX - d as int) / 10,
                        0 <= d <= 9,
                        acc >= 0,
                ;
                lemma_dec_prefix_le(s@, i0 + 1);
                assert(dec_value(s@) > u64::MAX);
            }
            return Err(Error(ErrorKind::NumberTooLarge));
        }
        proof {
            assert(acc as int * 10 + d <= u64::MAX) by (nonlinear_arith)
                requires
                    acc as int <= (u64::MAX - d as int) / 10,
                    0 <= d <= 9,
                    acc >= 0,
            ;
        }
        acc = acc * 10 + d;
        i = i + 1;
        proof {
            assert(s@.take(i0 + 1).drop_last() =~= s@.take(i0));
            assert(s@.take(i0 + 1).last() == s@[i0]);
            assert(acc as int == dec_value(s@.take(i0 + 1)));
        }
    }
    proof {
        assert(s@.take(n as int) =~= s@);
    }
    Ok(acc)
}

/// `s` without one leading `0x`, if present.
pub open spec fn strip_0x(s: Seq<u8>) -> Seq<u8> {
    if s.len() >= 2 && s[0] == 48 && s[1] == 120 {
        s.skip(2)
    } else {
        s
    }
}

/// `s` without one leading occurrence of `c`, if present.
pub open spec fn strip_lead(s: Seq<u8>, c: u8) -> Seq<u8> {
    if s.len() >= 1 && s[0] == c {
        s.skip(1)
    } else {
        s
    }
}

/// A user-selected target address, read from hexadecimal text with an
/// optional `0x` prefix.
pub struct Target(pub u64);

impl Target {
    /// Parses the target address.
    pub fn from_arg_value(value: &str) -> (r: Result<Target, Error>)
        ensures
            r is Ok <==> {
                let s = strip_0x(value.spec_bytes());
                s.len() > 0 && all_hex(s) && hex_value(s) <= u64::MAX
            },
            match r {
                Ok(t) => t.0 == hex_value(strip_0x(value.spec_bytes())),
                Err(_) => true,
            },
    {
        let b = value.as_bytes();
        let s: &[u8] = if b.len() >= 2 && b[0] == 48 && b[1] == 120 {
            slice_subrange(b, 2, b.len())
        } else {
            b
        };
        proof {
            if value.spec_bytes().len() >= 2 && value.spec_bytes()[0] == 48
                && value.spec_bytes()[1] == 120 {
                assert(s@ =~= strip_0x(value.spec_bytes()));
            } else {
                assert(s@ =~= strip_0x(value.spec_bytes()));
            }
        }
        match parse_hex_u64(s) {
            Ok(v) => Ok(Target(v)),
            Err(e) => Err(e),
        }
    }
}

/// The search window, read from text of the form `<behind>:<ahead>`,
/// where `<behind>` may carry a leading `-` and `<ahead>` a leading `+`.
pub struct Offset(pub (usize, usize));

/// `i` is the position of the first `:` in `s`.
pub open spec fn first_colon_at(s: Seq<u8>, i: int) -> bool {
    0 <= i < s.len() && s[i] == 58 && forall|j: int| 0 <= j < i ==> s[j] != 58
}

/// The window bound read from one side of the separator: the side parses
/// as decimal after its sign is stripped, and fits a machine word.
pub open spec fn side_ok(side: Seq<u8>, sign: u8) -> bool {
    let t = strip_lead(side, sign);
    t.len() > 0 && all_dec(t) && dec_value(t) <= usize::MAX
}

impl Offset {
    /// Parses the window.
    pub fn from_arg_value(value: &str) -> (r: Result<Offset, Error>)
        ensures
            match r {
                Ok(o) => exists|i: int|
                    {
                        &&& #[trigger] first_colon_at(value.spec_bytes(), i)
                        &&& side_ok(value.spec_bytes().take(i), 45)
                        &&& side_ok(value.spec_bytes().skip(i + 1), 43)
                        &&& o.0.0 == dec_value(strip_lead(value.spec_bytes().take(i), 45))
                        &&& o.0.1 == dec_value(strip_lead(value.spec_bytes().skip(i + 1), 43))
                    },
                Err(e) => {
                    &&& (e == Error(ErrorKind::MissingSeparator) <==> !exists|i: int|
                        first_colon_at(value.spec_bytes(), i))
                    &&& (e != Error(ErrorKind::MissingSeparator) ==> exists|i: int|
                        #[trigger] first_colon_at(value.spec_bytes(), i) && !(side_ok(
                            value.spec_bytes().take(i),
                            45,
                        ) && side_ok(value.spec_bytes().skip(i + 1), 43)))
                },
            },
            r is Ok <==> exists|i: int|
                #[trigger] first_colon_at(value.spec_bytes(), i) && side_ok(
                    value.spec_bytes().take(i),
                    45,
                ) && side_ok(value.spec_bytes().skip(i + 1), 43),
    {
        let b = value.as_bytes();
        let n = b.len();
        let mut i: usize = 0;
        let mut found = false;
        while i < n && !found
            invariant
                n == b@.len(),
                b@ == value.spec_bytes(),
                i <= n,
                found ==> i < n && b@[i as int] == 58,
                forall|j: int| 0 <= j < i ==> b@[j] != 58,
            decreases n - i + (if found { 0int } else { 1int }),
        {
            if b[i] == 58 {
                found = true;
            } else {
                i = i + 1;
            }
        }
        if !found {
            proof {
                assert forall|k: int| !first_colon_at(value.spec_bytes(), k) by {
                    if 0 <= k < n {
                        assert(b@[k] != 58);
                    }
                }
            }
            return Err(Error(ErrorKind::MissingSeparator));
        }
        proof {
            assert(first_colon_at(value.spec_bytes(), i as int));
        }
        let left: &[u8] = slice_subrange(b, 0, i);
        let right: &[u8] = slice_subrange(b, i + 1, n);
        proof {
            assert(left@ =~= value.spec_bytes().take(i as int));
            assert(right@ =~= value.spec_bytes().skip(i as int + 1));
        }
        let lt: &[u8] = if left.len() >= 1 && left[0] == 45 {
            slice_subrange(left, 1, left.len())
        } else {
            left
        };
        let rt: &[u8] = if right.len() >= 1 && right[0] == 43 {
            slice_subrange(right, 1, right.len())
        } else {
            right
        };
        proof {
            assert(lt@ =~= strip_lead(left@, 45));
            assert(rt@ =~= strip_lead(right@, 43));
        }
        let lv = match parse_dec_u64(lt) {
            Ok(v) => v,
            Err(e) => {
                return Err(e);
            },
        };
        let rv = match parse_dec_u64(rt) {
            Ok(v) => v,
            Err(e) => {
                return Err(e);
            },
        };
        if lv > usize::MAX as u64 || rv > usize::MAX as u64 {
            return Err(Error(ErrorKind::NumberTooLarge));
        }
        Ok(Offset(((lv as usize), (rv as usize))))
    }
}

} // verus!
