//! Decimal names: direct-store file names `<ring>_<slot>` and the PID text
//! in the server lock file.

use vstd::prelude::*;

use crate::error::{CliError, Error};
use crate::protocol::RingKind;

verus! {

/// The decimal digits of `n`, most significant first.
pub open spec fn spec_decimal(n: int) -> Seq<u8>
    decreases n,
{
    if n <= 0 {
        Seq::<u8>::empty()
    } else {
        spec_decimal(n / 10).push((48 + n % 10) as u8)
    }
}

/// The decimal rendering of `n` (`"0"` for zero).
pub open spec fn spec_u32_decimal(n: u32) -> Seq<u8> {
    if n == 0 {
        seq![48u8]
    } else {
        spec_decimal(n as int)
    }
}

/// The numeric value of a digit string (meaningful when all are digits).
pub open spec fn spec_decimal_value(s: Seq<u8>) -> int
    decreases s.len(),
{
    if s.len() == 0 {
        0
    } else {
        spec_decimal_value(s.drop_last()) * 10 + (s.last() - 48)
    }
}

pub open spec fn all_digits(s: Seq<u8>) -> bool {
    forall|i: int| 0 <= i < s.len() ==> 48 <= #[trigger] s[i] <= 57
}

/// Renders `n` in decimal.
pub fn u32_to_decimal(n: u32) -> (r: Vec<u8>)
    ensures
        r@ == spec_u32_decimal(n),
        all_digits(r@),
        r@.len() >= 1,
{
    if n == 0 {
        let mut r: Vec<u8> = Vec::new();
        r.push(48);
        proof {
            assert(r@ =~= seq![48u8]);
        }
        return r;
    }
    let mut rev: Vec<u8> = Vec::new();
    let mut m = n;
    while m > 0
        invariant
            m <= n,
            spec_decimal(n as int) == spec_decimal(m as int) + rev@.reverse(),
            m == 0 ==> rev@.len() >= 1,
        decreases m,
    {
        let ghost pre = rev@;
        rev.push(48 + (m % 10) as u8);
        proof {
            assert(rev@.reverse() =~= seq![(48 + (m as int) % 10) as u8] + pre.reverse());
            assert(spec_decimal(m as int) == spec_decimal(m as int / 10).push(
                (48 + (m as int) % 10) as u8,
            ));
            assert(spec_decimal(m as int / 10).push((48 + (m as int) % 10) as u8) + pre.reverse()
                =~= spec_decimal(m as int / 10) + (seq![(48 + (m as int) % 10) as u8]
                + pre.reverse()));
        }
        m = m / 10;
    }
    let mut r: Vec<u8> = Vec::new();
    let mut i = rev.len();
    while i > 0
        invariant
            i <= rev@.len(),
            r@ == rev@.subrange(i as int, rev@.len() as int).reverse(),
        decreases i,
    {
        i = i - 1;
        r.push(rev[i]);
        proof {
            assert(r@ =~= rev@.subrange(i as int, rev@.len() as int).reverse());
        }
    }
    proof {
        assert(rev@.subrange(0, rev@.len() as int) =~= rev@);
        assert(spec_decimal(0) + rev@.reverse() =~= rev@.reverse());
        lemma_decimal_digits(n as int);
    }
    r
}

/// Digits of a decimal rendering are digits.
pub proof fn lemma_decimal_digits(n: int)
    ensures
        all_digits(spec_decimal(n)),
    decreases (if n <= 0 {
        0int
    } else {
        n
    }),
{
    if n > 0 {
        lemma_decimal_digits(n / 10);
        let sub = spec_decimal(n / 10);
        let s2 = spec_decimal(n);
        assert(s2 == sub.push((48 + n % 10) as u8));
        assert forall|i: int| 0 <= i < s2.len() implies 48 <= #[trigger] s2[i] <= 57 by {
            if i < sub.len() {
                assert(s2[i] == sub[i]);
            } else {
                assert(s2[i] == (48 + n % 10) as u8);
            }
        }
    }
}

/// Reading back the decimal rendering gives the number.
pub proof fn lemma_decimal_roundtrip(n: u32)
    ensures
        spec_decimal_value(spec_u32_decimal(n)) == n,
{
    if n == 0 {
        assert(seq![48u8].drop_last() =~= Seq::<u8>::empty());
        assert(spec_decimal_value(Seq::<u8>::empty()) == 0);
        assert(seq![48u8].last() == 48u8);
        assert(spec_decimal_value(seq![48u8]) == 0);
    } else {
        lemma_decimal_value_of(n as int);
    }
}

proof fn lemma_decimal_value_of(n: int)
    requires
        n >= 0,
    ensures
        spec_decimal_value(spec_decimal(n)) == n,
    decreases n,
{
    if n > 0 {
        lemma_decimal_value_of(n / 10);
        assert(spec_decimal(n).drop_last() =~= spec_decimal(n / 10));
    }
}

/// Parses a non-empty digit string; `None` when empty, any non-digit, or a
/// value past `u32::MAX`.
pub fn parse_u32_decimal(s: &Vec<u8>) -> (r: Option<u32>)
    ensures
        match r {
            Some(v) => s@.len() >= 1 && all_digits(s@) && v == spec_decimal_value(s@),
            None => s@.len() == 0 || !all_digits(s@) || spec_decimal_value(s@) > u32::MAX,
        },
{
    if s.len() == 0 {
        return None;
    }
    let mut v: u64 = 0;
    let mut i: usize = 0;
    while i < s.len()
        invariant
            i <= s@.len(),
            all_digits(s@.take(i as int)),
            v == spec_decimal_value(s@.take(i as int)),
            v <= u32::MAX,
        decreases s@.len() - i,
    {
        let b = s[i];
        if b < 48 || b > 57 {
            proof {
                assert(!all_digits(s@)) by {
                    assert(s@[i as int] == b);
                }
            }
            return None;
        }
        let d = (b - 48) as u64;
        let next: u64 = v * 10 + d;
        proof {
            assert(s@.take(i + 1).drop_last() =~= s@.take(i as int));
            assert(s@.take(i + 1).last() == b);
        }
        if next > u32::MAX as u64 {
            proof {
                if all_digits(s@) {
                    lemma_decimal_value_monotone(s@, i + 1);
                }
            }
            return None;
        }
        v = next;
        i = i + 1;
    }
    proof {
        assert(s@.take(s@.len() as int) =~= s@);
    }
    Some(v as u32)
}

/// A digit prefix never exceeds the value of the whole digit string.
proof fn lemma_decimal_value_monotone(s: Seq<u8>, k: int)
    requires
        0 <= k <= s.len(),
        all_digits(s),
    ensures
        spec_decimal_value(s.take(k)) <= spec_decimal_value(s),
    decreases s.len() - k,
{
    if k < s.len() {
        lemma_decimal_value_monotone(s, k + 1);
        assert(s.take(k + 1).drop_last() =~= s.take(k));
        assert(48 <= s.take(k + 1).last() <= 57) by {
            assert(s.take(k + 1).last() == s[k]);
        };
        assert(spec_decimal_value(s.take(k)) * 10 <= spec_decimal_value(s.take(k)) * 10 + (s.take(
            k + 1,
        ).last() - 48));
        assert(spec_decimal_value(s.take(k)) <= spec_decimal_value(s.take(k)) * 10) by {
            lemma_decimal_value_nonneg(s.take(k));
        };
    } else {
        assert(s.take(k) =~= s);
    }
}

/// Digit strings have non-negative values.
proof fn lemma_decimal_value_nonneg(s: Seq<u8>)
    requires
        all_digits(s),
    ensures
        spec_decimal_value(s) >= 0,
    decreases s.len(),
{
    if s.len() > 0 {
        assert(s.drop_last().len() < s.len());
        assert(all_digits(s.drop_last()));
        lemma_decimal_value_nonneg(s.drop_last());
        assert(48 <= s.last() <= 57);
    }
}

/// The direct-store file name of the slot `slot` of ring `kind`:
/// `<ring>_<slot>` in decimal.
pub open spec fn spec_direct_file_name(kind: RingKind, slot: u32) -> Seq<u8> {
    spec_u32_decimal(kind.spec_value() as u32) + seq![95u8] + spec_u32_decimal(slot)
}

/// Builds the direct-store file name `<ring>_<slot>`.
pub fn direct_file_name(kind: RingKind, slot: u32) -> (r: Vec<u8>)
    ensures
        r@ == spec_direct_file_name(kind, slot),
{
    let mut r = u32_to_decimal(kind.value() as u32);
    r.push(95);
    let rest = u32_to_decimal(slot);
    let mut i: usize = 0;
    while i < rest.len()
        invariant
            i <= rest@.len(),
            r@ == spec_u32_decimal(kind.spec_value() as u32) + seq![95u8] + rest@.take(i as int),
        decreases rest@.len() - i,
    {
        r.push(rest[i]);
        proof {
            assert(r@ =~= spec_u32_decimal(kind.spec_value() as u32) + seq![95u8] + rest@.take(
                i + 1,
            ));
        }
        i = i + 1;
    }
    proof {
        assert(rest@.take(rest@.len() as int) =~= rest@);
        assert(r@ =~= spec_direct_file_name(kind, slot));
    }
    r
}

/// The name matches `<digits>_<digits>` with both values in u32 range,
/// split at the underscore `u`.
pub open spec fn valid_split_at(s: Seq<u8>, u: int) -> bool {
    &&& 0 < u < s.len()
    &&& s[u] == 95
    &&& all_digits(s.take(u))
    &&& all_digits(s.skip(u + 1))
    &&& s.skip(u + 1).len() >= 1
    &&& spec_decimal_value(s.take(u)) <= u32::MAX
    &&& spec_decimal_value(s.skip(u + 1)) <= u32::MAX
}

/// The name matches `<digits>_<digits>` with both values in u32 range.
pub open spec fn spec_valid_direct_name(s: Seq<u8>) -> bool {
    exists|u: int| #[trigger] valid_split_at(s, u)
}

/// A name has at most one well-formed split: the digits around the
/// underscore leave room for no second underscore.
pub proof fn lemma_split_unique(s: Seq<u8>, u1: int, u2: int)
    requires
        valid_split_at(s, u1),
        valid_split_at(s, u2),
    ensures
        u1 == u2,
{
    if u1 < u2 {
        assert(s.take(u2)[u1] == s[u1]);
    } else if u2 < u1 {
        assert(s.take(u1)[u2] == s[u2]);
    }
}

/// Splits a direct-store file name back into its ring and slot numbers;
/// names that do not match `<digits>_<digits>` (with values in range) fail
/// with `NotARingboard`.
pub fn parse_direct_file_name(name: &Vec<u8>) -> (r: Result<(u32, u32), Error>)
    ensures
        match r {
            Ok((ring, slot)) => {
                exists|u: int|
                    {
                        &&& #[trigger] valid_split_at(name@, u)
                        &&& ring == spec_decimal_value(name@.take(u))
                        &&& slot == spec_decimal_value(name@.skip(u + 1))
                    }
            },
            Err(e) => e is NotARingboard && !spec_valid_direct_name(name@),
        },
{
    let mut u: usize = 0;
    let mut found = false;
    while u < name.len() && !found
        invariant
            u <= name@.len(),
            forall|x: int| 0 <= x < u ==> name@[x] != 95,
            found ==> 0 <= (u as int) < name@.len() && name@[u as int] == 95,
        decreases name@.len() - u + (if found {
            0int
        } else {
            1int
        }),
    {
        if name[u] == 95 {
            found = true;
        } else {
            u = u + 1;
        }
    }
    if !found || u == 0 || u + 1 >= name.len() {
        proof {
            assert(!spec_valid_direct_name(name@)) by {
                if spec_valid_direct_name(name@) {
                    let u2 = choose|u2: int| valid_split_at(name@, u2);
                    if !found {
                        assert(name@[u2] == 95);
                    } else if u == 0 {
                        // the first underscore is at 0, so any split's ring part
                        // would contain it
                        assert(name@.take(u2)[0] == name@[0]);
                    } else {
                        // the first underscore is the last byte, so any split's
                        // slot part is empty or contains it
                        if u2 < u {
                            assert(name@[u2] == 95);
                        } else if u2 > u {
                            assert(name@.take(u2)[u as int] == name@[u as int]);
                        }
                    }
                }
            };
        }
        return Err(Error::NotARingboard { file: copy_bytes(name) });
    }
    let ring_part = copy_slice(name, 0, u);
    let slot_part = copy_slice(name, u + 1, name.len());
    proof {
        assert(ring_part@ == name@.take(u as int));
        assert(slot_part@ == name@.skip(u as int + 1));
        // any valid split is at this underscore
        assert forall|u2: int| #[trigger] valid_split_at(name@, u2) implies u2 == u as int by {
            if u2 < u {
                assert(name@[u2] == 95);
            } else if u2 > u {
                assert(name@.take(u2)[u as int] == name@[u as int]);
            }
        }
    }
    let ring = match crate::names::parse_u32_decimal(&ring_part) {
        Some(v) => v,
        None => {
            proof {
                assert(!valid_split_at(name@, u as int));
            }
            return Err(Error::NotARingboard { file: copy_bytes(name) });
        },
    };
    let slot = match crate::names::parse_u32_decimal(&slot_part) {
        Some(v) => v,
        None => {
            proof {
                assert(!valid_split_at(name@, u as int));
            }
            return Err(Error::NotARingboard { file: copy_bytes(name) });
        },
    };
    proof {
        assert(valid_split_at(name@, u as int));
    }
    Ok((ring, slot))
}

/// Copies a byte vector.
pub fn copy_bytes(v: &Vec<u8>) -> (r: Vec<u8>)
    ensures
        r@ == v@,
{
    copy_slice(v, 0, v.len())
}

/// Copies `v[from..to]`.
pub fn copy_slice(v: &Vec<u8>, from: usize, to: usize) -> (r: Vec<u8>)
    requires
        from <= to <= v@.len(),
    ensures
        r@ == v@.subrange(from as int, to as int),
{
    let mut r: Vec<u8> = Vec::new();
    let mut i = from;
    while i < to
        invariant
            from <= i <= to <= v@.len(),
            r@ == v@.subrange(from as int, i as int),
        decreases to - i,
    {
        r.push(v[i]);
        proof {
            assert(r@ =~= v@.subrange(from as int, i + 1));
        }
        i = i + 1;
    }
    r
}

/// Round trip: a built direct file name parses back to the same ring and
/// slot.
pub proof fn lemma_direct_file_name_roundtrip(kind: RingKind, slot: u32)
    ensures
        ({
            let name = spec_direct_file_name(kind, slot);
            let u = spec_u32_decimal(kind.spec_value() as u32).len() as int;
            &&& valid_split_at(name, u)
            &&& spec_decimal_value(name.take(u)) == kind.spec_value()
            &&& spec_decimal_value(name.skip(u + 1)) == slot
        }),
{
    let ring_digits = spec_u32_decimal(kind.spec_value() as u32);
    let slot_digits = spec_u32_decimal(slot);
    let name = spec_direct_file_name(kind, slot);
    let u = ring_digits.len() as int;
    lemma_decimal_digits(kind.spec_value() as int);
    lemma_decimal_digits(slot as int);
    assert(ring_digits.len() >= 1 && all_digits(ring_digits));
    assert(slot_digits.len() >= 1 && all_digits(slot_digits));
    assert(name.take(u) =~= ring_digits);
    assert(name.skip(u + 1) =~= slot_digits);
    lemma_decimal_roundtrip(kind.spec_value() as u32);
    lemma_decimal_roundtrip(slot);
}

/// What startup finds in the server lock file: recovery when empty, a live
/// owner's PID when parsable, corruption otherwise.
pub fn parse_lock_file(contents: &Vec<u8>) -> (r: Result<u32, CliError>)
    ensures
        match r {
            Ok(pid) => contents@.len() >= 1 && all_digits(contents@) && pid == spec_decimal_value(
                contents@,
            ),
            Err(CliError::UncleanShutdown) => contents@.len() == 0,
            Err(CliError::Core(e)) => contents@.len() >= 1 && e is InvalidPid && (!all_digits(
                contents@,
            ) || spec_decimal_value(contents@) > u32::MAX),
            Err(_) => false,
        },
{
    if contents.len() == 0 {
        return Err(CliError::UncleanShutdown);
    }
    match parse_u32_decimal(contents) {
        Some(pid) => Ok(pid),
        None => Err(
            CliError::Core(Error::InvalidPid { context: "lock file holds no parsable PID" }),
        ),
    }
}

} // verus!
