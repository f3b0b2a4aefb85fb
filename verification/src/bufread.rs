use vstd::prelude::*;

verus! {

/// A 16-bit little-endian quantity read at `pos`.
pub open spec fn spec_le16(s: Seq<u8>, pos: int) -> u16
    recommends
        0 <= pos,
        pos + 2 <= s.len(),
{
    (s[pos] + s[pos + 1] * 0x100) as u16
}

/// A 32-bit little-endian quantity read at `pos`.
pub open spec fn spec_le32(s: Seq<u8>, pos: int) -> u32
    recommends
        0 <= pos,
        pos + 4 <= s.len(),
{
    (s[pos] + s[pos + 1] * 0x100 + s[pos + 2] * 0x1_0000 + s[pos + 3] * 0x100_0000) as u32
}

/// A 64-bit little-endian quantity read at `pos`.
pub open spec fn spec_le64(s: Seq<u8>, pos: int) -> u64
    recommends
        0 <= pos,
        pos + 8 <= s.len(),
{
    (s[pos] + s[pos + 1] * 0x100 + s[pos + 2] * 0x1_0000 + s[pos + 3] * 0x100_0000 + s[pos + 4]
        * 0x1_0000_0000 + s[pos + 5] * 0x100_0000_0000 + s[pos + 6] * 0x1_0000_0000_0000 + s[pos
        + 7] * 0x100_0000_0000_0000) as u64
}

pub fn read_le16(s: &[u8], pos: usize) -> (r: u16)
    requires
        pos + 2 <= s@.len(),
    ensures
        r == spec_le16(s@, pos as int),
{
    (s[pos] as u16) + (s[pos + 1] as u16) * 0x100
}

pub fn read_le32(s: &[u8], pos: usize) -> (r: u32)
    requires
        pos + 4 <= s@.len(),
    ensures
        r == spec_le32(s@, pos as int),
{
    (s[pos] as u32) + (s[pos + 1] as u32) * 0x100 + (s[pos + 2] as u32) * 0x1_0000 + (s[pos
        + 3] as u32) * 0x100_0000
}

pub fn read_le64(s: &[u8], pos: usize) -> (r: u64)
    requires
        pos + 8 <= s@.len(),
    ensures
        r == spec_le64(s@, pos as int),
{
    (s[pos] as u64) + (s[pos + 1] as u64) * 0x100 + (s[pos + 2] as u64) * 0x1_0000 + (s[pos
        + 3] as u64) * 0x100_0000 + (s[pos + 4] as u64) * 0x1_0000_0000 + (s[pos + 5] as u64)
        * 0x100_0000_0000 + (s[pos + 6] as u64) * 0x1_0000_0000_0000 + (s[pos + 7] as u64)
        * 0x100_0000_0000_0000
}

/// Copies `s[start..end]` into a fresh vector.
pub fn copy_range(s: &[u8], start: usize, end: usize) -> (r: Vec<u8>)
    requires
        start <= end <= s@.len(),
    ensures
        r@ == s@.subrange(start as int, end as int),
{
    let mut r: Vec<u8> = Vec::new();
    let mut i = start;
    while i < end
        invariant
            start <= i <= end <= s@.len(),
            r@ == s@.subrange(start as int, i as int),
        decreases end - i,
    {
        r.push(s[i]);
        i = i + 1;
        assert(s@.subrange(start as int, i as int) =~= s@.subrange(
            start as int,
            i as int - 1,
        ).push(s@[i as int - 1]));
    }
    r
}

/// Appends `s[start..end]` onto `dst`.
pub fn append_range(dst: &mut Vec<u8>, s: &[u8], start: usize, end: usize)
    requires
        start <= end <= s@.len(),
    ensures
        final(dst)@ == old(dst)@ + s@.subrange(start as int, end as int),
{
    let mut i = start;
    while i < end
        invariant
            start <= i <= end <= s@.len(),
            dst@ == old(dst)@ + s@.subrange(start as int, i as int),
        decreases end - i,
    {
        dst.push(s[i]);
        i = i + 1;
        assert(old(dst)@ + s@.subrange(start as int, i as int) =~= (old(dst)@ + s@.subrange(
            start as int,
            i as int - 1,
        )).push(s@[i as int - 1]));
    }
    assert(dst@ =~= old(dst)@ + s@.subrange(start as int, end as int));
}

/// True exactly when the two byte slices hold the same bytes.
pub fn slices_equal(a: &[u8], b: &[u8]) -> (r: bool)
    ensures
        r == (a@ == b@),
{
    let n = a.len();
    if n != b.len() {
        return false;
    }
    let mut i: usize = 0;
    while i < n
        invariant
            i <= n,
            n == a@.len(),
            n == b@.len(),
            forall|j: int| 0 <= j < i ==> a@[j] == b@[j],
        decreases n - i,
    {
        if a[i] != b[i] {
            return false;
        }
        i = i + 1;
    }
    proof {
        assert(a@ =~= b@);
    }
    true
}

/// The numeric value of an all-digits decimal string.
pub open spec fn spec_dec_value(s: Seq<u8>) -> int
    decreases s.len(),
{
    if s.len() == 0 {
        0
    } else {
        spec_dec_value(s.drop_last()) * 10 + (s.last() - 48)
    }
}

pub open spec fn spec_all_digits(s: Seq<u8>) -> bool {
    forall|i: int| 0 <= i < s.len() ==> 48 <= #[trigger] s[i] <= 57
}

/// True when `s` is a non-empty decimal numeral whose value fits a `u16`.
pub open spec fn spec_is_dec_u16(s: Seq<u8>) -> bool {
    s.len() > 0 && spec_all_digits(s) && spec_dec_value(s) <= 65535
}

/// Parses an ASCII decimal numeral into a `u16`; anything that is empty,
/// holds a non-digit, or overflows is rejected.
pub fn parse_u16_dec(s: &[u8]) -> (r: Option<u16>)
    ensures
        match r {
            Some(v) => spec_is_dec_u16(s@) && v == spec_dec_value(s@),
            None => !spec_is_dec_u16(s@),
        },
{
    let n = s.len();
    if n == 0 {
        return None;
    }
    let mut acc: u32 = 0;
    let mut i: usize = 0;
    while i < n
        invariant
            0 <= i <= n,
            n == s@.len(),
            spec_all_digits(s@.take(i as int)),
            0 <= spec_dec_value(s@.take(i as int)),
            spec_dec_value(s@.take(i as int)) <= 65535 ==> acc == spec_dec_value(
                s@.take(i as int),
            ),
            spec_dec_value(s@.take(i as int)) > 65535 ==> acc > 65535,
            acc <= 660000,
        decreases n - i,
    {
        let b = s[i];
        if b < 48 || b > 57 {
            assert(!spec_all_digits(s@)) by {
                assert(!(48 <= s@[i as int] <= 57));
            }
            return None;
        }
        let d = (b - 48) as u32;
        if acc > 65535 {
            acc = 66000;
        } else {
            acc = acc * 10 + d;
        }
        proof {
            assert(s@.take(i as int + 1).drop_last() =~= s@.take(i as int));
            assert(s@.take(i as int + 1).last() == s@[i as int]);
        }
        i = i + 1;
    }
    proof {
        assert(s@.take(n as int) =~= s@);
    }
    if acc > 65535 {
        None
    } else {
        Some(acc as u16)
    }
}

} // verus!
