//! Byte-string helpers the payload readers share: prefixes, field splitting and the two decimal
//! number grammars the payloads use.
use vstd::prelude::*;

verus! {

/// Whether `s` begins with `prefix`.
pub open spec fn has_prefix(s: Seq<u8>, prefix: Seq<u8>) -> bool {
    prefix.len() <= s.len() && s.subrange(0, prefix.len() as int) == prefix
}

/// What is left of `s` after a prefix of length `n`.
pub open spec fn after(s: Seq<u8>, n: int) -> Seq<u8> {
    s.subrange(n, s.len() as int)
}

pub fn starts_with(s: &[u8], prefix: &[u8]) -> (found: bool)
    ensures
        found == has_prefix(s@, prefix@),
{
    if prefix.len() > s.len() {
        return false;
    }
    let mut i: usize = 0;
    while i < prefix.len()
        invariant
            prefix@.len() <= s@.len(),
            i <= prefix@.len(),
            s@.subrange(0, i as int) == prefix@.subrange(0, i as int),
        decreases prefix@.len() - i,
    {
        if s[i] != prefix[i] {
            assert(s@.subrange(0, prefix@.len() as int)[i as int] != prefix@[i as int]);
            return false;
        }
        assert(s@.subrange(0, i + 1) =~= s@.subrange(0, i as int).push(s@[i as int]));
        assert(prefix@.subrange(0, i + 1) =~= prefix@.subrange(0, i as int).push(prefix@[i as int]));
        i = i + 1;
    }
    assert(prefix@.subrange(0, prefix@.len() as int) =~= prefix@);
    true
}

/// Byte-for-byte equality of two slices.
pub fn bytes_equal(a: &[u8], b: &[u8]) -> (same: bool)
    ensures
        same == (a@ == b@),
{
    if a.len() != b.len() {
        return false;
    }
    let found = starts_with(a, b);
    proof {
        if found {
            assert(a@.subrange(0, b@.len() as int) =~= a@);
        } else {
            if a@ == b@ {
                assert(a@.subrange(0, b@.len() as int) =~= a@);
            }
        }
    }
    found
}

/// `s` cut at every `sep`, as `split` does it: `n` separators make `n + 1` fields, and an empty
/// string is one empty field.
pub open spec fn split_fields(s: Seq<u8>, sep: u8) -> Seq<Seq<u8>>
    decreases s.len(),
{
    if s.len() == 0 {
        seq![Seq::empty()]
    } else {
        let before = split_fields(s.drop_last(), sep);
        if s.last() == sep {
            before.push(Seq::empty())
        } else {
            before.update(before.len() - 1, before.last().push(s.last()))
        }
    }
}

pub proof fn lemma_split_nonempty(s: Seq<u8>, sep: u8)
    ensures
        split_fields(s, sep).len() >= 1,
    decreases s.len(),
{
    if s.len() > 0 {
        lemma_split_nonempty(s.drop_last(), sep);
    }
}

/// The fields of `s` between `sep` bytes, in order.
pub fn split(s: &[u8], sep: u8) -> (fields: Vec<Vec<u8>>)
    ensures
        fields@.map_values(|f: Vec<u8>| f@) == split_fields(s@, sep),
{
    let mut fields: Vec<Vec<u8>> = Vec::new();
    fields.push(Vec::new());
    let mut i: usize = 0;
    assert(fields@.map_values(|f: Vec<u8>| f@) =~= split_fields(s@.take(0), sep));
    while i < s.len()
        invariant
            i <= s@.len(),
            fields@.len() >= 1,
            fields@.map_values(|f: Vec<u8>| f@) == split_fields(s@.take(i as int), sep),
        decreases s@.len() - i,
    {
        let ghost before = fields@.map_values(|f: Vec<u8>| f@);
        assert(s@.take(i + 1).drop_last() =~= s@.take(i as int));
        assert(s@.take(i + 1).last() == s@[i as int]);
        let byte = s[i];
        if byte == sep {
            fields.push(Vec::new());
            assert(fields@.map_values(|f: Vec<u8>| f@) =~= before.push(Seq::empty()));
        } else {
            let last = fields.len() - 1;
            let mut field: Vec<u8> = Vec::new();
            std::mem::swap(&mut field, &mut fields[last]);
            assert(field@ == before[last as int]);
            field.push(byte);
            fields.set(last, field);
            assert(fields@.map_values(|f: Vec<u8>| f@) =~= before.update(
                before.len() - 1,
                before.last().push(byte),
            ));
        }
        i = i + 1;
    }
    assert(s@.take(s@.len() as int) =~= s@);
    fields
}

/// Append `more` to the end of `out`.
pub fn append(out: &mut Vec<u8>, more: &[u8])
    ensures
        final(out)@ == old(out)@ + more@,
{
    let mut i: usize = 0;
    while i < more.len()
        invariant
            i <= more@.len(),
            out@ == old(out)@ + more@.take(i as int),
        decreases more@.len() - i,
    {
        out.push(more[i]);
        assert(more@.take(i + 1) =~= more@.take(i as int).push(more@[i as int]));
        assert(out@ =~= old(out)@ + more@.take(i + 1));
        i = i + 1;
    }
    assert(more@.take(more@.len() as int) =~= more@);
}

/// A number written in decimal ASCII, most significant digit first, with no leading zeros.
pub open spec fn decimal(n: nat) -> Seq<u8>
    decreases n,
{
    if n < 10 {
        seq![(0x30 + n) as u8]
    } else {
        decimal(n / 10).push((0x30 + n % 10) as u8)
    }
}

/// Append `n` in decimal to `out`.
pub fn push_decimal(out: &mut Vec<u8>, n: u64)
    ensures
        final(out)@ == old(out)@ + decimal(n as nat),
    decreases n,
{
    if n < 10 {
        out.push(0x30 + n as u8);
        assert(out@ =~= old(out)@ + decimal(n as nat));
    } else {
        push_decimal(out, n / 10);
        out.push(0x30 + (n % 10) as u8);
        assert(out@ =~= old(out)@ + decimal(n as nat));
    }
}

/// An ASCII decimal digit.
pub open spec fn is_decimal(byte: u8) -> bool {
    0x30 <= byte <= 0x39
}

pub open spec fn all_decimal(s: Seq<u8>) -> bool {
    forall|i: int| 0 <= i < s.len() ==> is_decimal(#[trigger] s[i])
}

/// The number a run of decimal digits spells.
pub open spec fn decimal_value(s: Seq<u8>) -> nat
    decreases s.len(),
{
    if s.len() == 0 {
        0
    } else {
        decimal_value(s.drop_last()) * 10 + (s.last() - 0x30) as nat
    }
}

/// What `u32::from_str` reads: an optional `+`, then one or more digits, in range.
pub open spec fn parse_u32(s: Seq<u8>) -> Option<u32> {
    let digits = if s.len() > 0 && s[0] == 0x2b {
        s.drop_first()
    } else {
        s
    };
    if digits.len() > 0 && all_decimal(digits) && decimal_value(digits) <= u32::MAX {
        Some(decimal_value(digits) as u32)
    } else {
        None
    }
}

/// What `i32::from_str` reads: an optional `+` or `-`, then one or more digits, in range.
pub open spec fn parse_i32(s: Seq<u8>) -> Option<i32> {
    let negative = s.len() > 0 && s[0] == 0x2d;
    let digits = if s.len() > 0 && (s[0] == 0x2b || s[0] == 0x2d) {
        s.drop_first()
    } else {
        s
    };
    if digits.len() > 0 && all_decimal(digits) {
        let magnitude = decimal_value(digits) as int;
        let value = if negative {
            -magnitude
        } else {
            magnitude
        };
        if i32::MIN <= value <= i32::MAX {
            Some(value as i32)
        } else {
            None
        }
    } else {
        None
    }
}

pub proof fn lemma_decimal_grows(s: Seq<u8>, n: int)
    requires
        0 <= n <= s.len(),
        all_decimal(s),
    ensures
        decimal_value(s.take(n)) <= decimal_value(s),
    decreases s.len() - n,
{
    if n < s.len() {
        lemma_decimal_grows(s, n + 1);
        assert(s.take(n + 1).drop_last() =~= s.take(n));
    } else {
        assert(s.take(n) =~= s);
    }
}

/// Read a run of digits (after any sign), giving the magnitude when every byte is a digit, the run
/// is not empty, and the magnitude is at most `limit`; `None` otherwise.
fn digits_up_to(digits: &[u8], limit: u64) -> (value: Option<u64>)
    requires
        limit <= u32::MAX + 1,
    ensures
        value == (if digits@.len() > 0 && all_decimal(digits@) && decimal_value(digits@) <= limit {
            Some(decimal_value(digits@) as u64)
        } else {
            None
        }),
{
    if digits.len() == 0 {
        return None;
    }
    let mut value: u64 = 0;
    let mut i: usize = 0;
    while i < digits.len()
        invariant
            i <= digits@.len(),
            limit <= u32::MAX + 1,
            all_decimal(digits@.take(i as int)),
            value == decimal_value(digits@.take(i as int)),
            value <= limit,
        decreases digits@.len() - i,
    {
        let byte = digits[i];
        if byte < 0x30 || byte > 0x39 {
            assert(!is_decimal(digits@[i as int]));
            return None;
        }
        assert(digits@.take(i + 1).drop_last() =~= digits@.take(i as int));
        let next = value * 10 + (byte - 0x30) as u64;
        if next > limit {
            proof {
                assert(decimal_value(digits@.take(i + 1)) == next);
                if all_decimal(digits@) {
                    lemma_decimal_grows(digits@, i + 1);
                }
            }
            return None;
        }
        value = next;
        i = i + 1;
    }
    assert(digits@.take(digits@.len() as int) =~= digits@);
    Some(value)
}

/// The decimal number a field spells, as `u32::from_str` reads it.
pub fn to_u32(field: &[u8]) -> (value: Option<u32>)
    ensures
        value == parse_u32(field@),
{
    let digits = if field.len() > 0 && field[0] == 0x2b {
        &field[1..field.len()]
    } else {
        field
    };
    assert(field@.len() > 0 && field@[0] == 0x2b ==> digits@ =~= field@.drop_first());
    match digits_up_to(digits, u32::MAX as u64) {
        Some(v) => Some(v as u32),
        None => None,
    }
}

/// The decimal number a field spells, as `i32::from_str` reads it.
pub fn to_i32(field: &[u8]) -> (value: Option<i32>)
    ensures
        value == parse_i32(field@),
{
    let negative = field.len() > 0 && field[0] == 0x2d;
    let digits = if field.len() > 0 && (field[0] == 0x2b || field[0] == 0x2d) {
        &field[1..field.len()]
    } else {
        field
    };
    assert(field@.len() > 0 && (field@[0] == 0x2b || field@[0] == 0x2d) ==> digits@
        =~= field@.drop_first());
    let limit: u64 = if negative {
        0x8000_0000
    } else {
        0x7fff_ffff
    };
    match digits_up_to(digits, limit) {
        Some(v) => {
            if negative {
                Some((0 - (v as i64)) as i32)
            } else {
                Some(v as i32)
            }
        },
        None => None,
    }
}

} // verus!
