//! The pointer-indexed UTF-16 string table found inside many decompressed
//! payloads: a 32-bit little-endian entry count, that many 32-bit
//! little-endian absolute pointers, each addressing a null-terminated
//! little-endian UTF-16 code-unit sequence elsewhere in the same buffer.
use crate::wire::{le16_at, le32_at};
use vstd::prelude::*;

verus! {

/// Failure conditions of the string-table decoder.
#[derive(Debug, PartialEq, Eq, Clone, Copy)]
pub enum TextTableError {
    /// The buffer ended before the count or a pointer could be read.
    Io,
    /// A pointer addressed the table's own header, or lay outside the buffer.
    InvalidPointer,
    /// A string held an unpaired surrogate code unit.
    Utf16Decode,
}

/// The 16-bit code units stored from offset `p` up to a zero terminator or
/// the end of the buffer (a trailing odd byte is ignored). The terminator is
/// not included.
pub open spec fn units_from(data: Seq<u8>, p: int) -> Seq<u16>
    decreases data.len() - p,
{
    if p < 0 || p + 2 > data.len() {
        Seq::empty()
    } else if le16_at(data, p) == 0 {
        Seq::empty()
    } else {
        seq![le16_at(data, p) as u16] + units_from(data, p + 2)
    }
}

/// UTF-16 decoding of a code-unit sequence into scalar values, or `None` on
/// an unpaired surrogate.
pub open spec fn utf16_scalars(units: Seq<u16>) -> Option<Seq<u32>>
    decreases units.len(),
{
    if units.len() == 0 {
        Some(Seq::empty())
    } else if units[0] < 0xD800 || units[0] >= 0xE000 {
        match utf16_scalars(units.drop_first()) {
            Some(rest) => Some(seq![units[0] as u32] + rest),
            None => None,
        }
    } else if units[0] < 0xDC00 {
        if units.len() >= 2 && 0xDC00 <= units[1] < 0xE000 {
            let cp = 0x10000 + 0x400 * ((units[0] - 0xD800) as int) + (units[1] - 0xDC00);
            match utf16_scalars(units.skip(2)) {
                Some(rest) => Some(seq![cp as u32] + rest),
                None => None,
            }
        } else {
            None
        }
    } else {
        None
    }
}

/// What decoding entries `i`, `i+1`, ... of an `n`-entry table yields: for
/// each, the pointer read at offset `4 + 4*i`, checked against the header
/// size `n*4` and the buffer's length, then the UTF-16 string it addresses.
pub open spec fn entries_from(data: Seq<u8>, n: int, i: int) -> Result<Seq<Seq<u32>>, TextTableError>
    decreases n - i,
{
    if i >= n {
        Ok(Seq::empty())
    } else if 4 + 4 * i + 4 > data.len() {
        Err(TextTableError::Io)
    } else {
        let ptr = le32_at(data, 4 + 4 * i);
        if ptr < 4 * n || ptr > data.len() {
            Err(TextTableError::InvalidPointer)
        } else {
            match utf16_scalars(units_from(data, ptr)) {
                None => Err(TextTableError::Utf16Decode),
                Some(s) => match entries_from(data, n, i + 1) {
                    Ok(rest) => Ok(seq![s] + rest),
                    Err(e) => Err(e),
                },
            }
        }
    }
}

/// What decoding the whole table yields: each entry's string as a sequence
/// of Unicode scalar values.
pub open spec fn text_table_spec(data: Seq<u8>) -> Result<Seq<Seq<u32>>, TextTableError> {
    if data.len() < 4 {
        Err(TextTableError::Io)
    } else {
        entries_from(data, le32_at(data, 0), 0)
    }
}

/// True when the decoded strings `ss` spell out exactly the scalar-value
/// sequences `cps`.
pub open spec fn strings_match_scalars(ss: Seq<Seq<char>>, cps: Seq<Seq<u32>>) -> bool {
    ss.len() == cps.len() && forall|i: int|
        0 <= i < ss.len() ==> ss[i].map_values(|c: char| c as u32) == cps[i]
}

proof fn lemma_entry_error_propagates(data: Seq<u8>, n: int, j: int, i: int)
    requires
        0 <= j <= i < n,
        entries_from(data, n, i) is Err,
    ensures
        entries_from(data, n, j) is Err,
    decreases i - j,
{
    if j < i {
        lemma_entry_error_propagates(data, n, j + 1, i);
    }
}

/// A table-entry pointer strictly below the header size `entryCount * 4`
/// always fails: that entry yields `InvalidPointer`, and the table as a
/// whole can never decode successfully.
pub proof fn lemma_pointer_into_header_rejected(data: Seq<u8>, i: int)
    requires
        data.len() >= 4,
        0 <= i < le32_at(data, 0),
        4 + 4 * i + 4 <= data.len(),
        le32_at(data, 4 + 4 * i) < 4 * le32_at(data, 0),
    ensures
        entries_from(data, le32_at(data, 0), i) == Err::<Seq<Seq<u32>>, TextTableError>(
            TextTableError::InvalidPointer,
        ),
        text_table_spec(data) is Err,
{
    let n = le32_at(data, 0);
    if 0 < i {
        lemma_entry_error_propagates(data, n, 0, i);
    }
}

/// Relies on char::from_u32: it returns the char with the given scalar value
/// exactly when the value is a Unicode scalar value (not a surrogate, at
/// most 0x10FFFF).
pub assume_specification [ char::from_u32 ] (i: u32) -> (r: Option<char>)
    ensures
        match r {
            Some(c) => c as u32 == i && (i < 0xD800 || (0xE000 <= i && i <= 0x10FFFF)),
            None => !(i < 0xD800 || (0xE000 <= i && i <= 0x10FFFF)),
        },
;

/// Relies on String::push: it appends the given char to the end of the
/// string.
pub assume_specification [ String::push ] (s: &mut String, ch: char)
    ensures
        final(s)@ == old(s)@.push(ch),
;

/// Collects the zero-terminated 16-bit code units starting at offset `p`.
fn read_units(data: &[u8], p: usize) -> (r: Vec<u16>)
    requires
        p <= data@.len(),
    ensures
        r@ == units_from(data@, p as int),
{
    let mut units: Vec<u16> = Vec::new();
    let mut q: usize = p;
    loop
        invariant
            p <= q <= data@.len(),
            units_from(data@, p as int) == units@ + units_from(data@, q as int),
        decreases data@.len() - q,
    {
        if data.len() - q < 2 {
            proof {
                assert(units_from(data@, p as int) =~= units@);
            }
            return units;
        }
        let u = crate::wire::read_le16(data, q);
        if u == 0 {
            proof {
                assert(units_from(data@, p as int) =~= units@);
            }
            return units;
        }
        proof {
            assert(units@ + (seq![u] + units_from(data@, q + 2)) =~= units@.push(u) + units_from(
                data@,
                q + 2,
            ));
        }
        units.push(u);
        q = q + 2;
    }
}

/// Decodes one zero-terminated UTF-16 code-unit sequence into a string, or
/// reports an unpaired surrogate.
fn decode_utf16_units(units: &Vec<u16>) -> (r: Result<String, TextTableError>)
    ensures
        match r {
            Ok(s) => utf16_scalars(units@) == Some(s@.map_values(|c: char| c as u32)),
            Err(e) => utf16_scalars(units@) is None && e == TextTableError::Utf16Decode,
        },
{
    let mut s = String::new();
    let mut j: usize = 0;
    proof {
        assert(units@.skip(0) =~= units@);
        match utf16_scalars(units@) {
            Some(rest) => {
                assert(s@.map_values(|c: char| c as u32) + rest =~= rest);
            },
            None => {},
        }
    }
    loop
        invariant
            j <= units@.len(),
            utf16_scalars(units@) == match utf16_scalars(units@.skip(j as int)) {
                Some(rest) => Some(s@.map_values(|c: char| c as u32) + rest),
                None => None::<Seq<u32>>,
            },
        decreases units@.len() - j,
    {
        if j >= units.len() {
            proof {
                assert(units@.skip(j as int) =~= Seq::<u16>::empty());
                assert(s@.map_values(|c: char| c as u32) + Seq::<u32>::empty() =~= s@.map_values(
                    |c: char| c as u32,
                ));
            }
            return Ok(s);
        }
        let u0 = units[j];
        let ghost tail = units@.skip(j as int);
        proof {
            assert(tail[0] == units@[j as int]);
        }
        if u0 < 0xD800 || u0 >= 0xE000 {
            let c = match char::from_u32(u0 as u32) {
                Some(c) => c,
                None => {
                    return Err(TextTableError::Utf16Decode);
                },
            };
            let ghost s_old = s@;
            s.push(c);
            proof {
                assert(units@.skip(j as int).drop_first() =~= units@.skip(j + 1));
                assert(s@.map_values(|c: char| c as u32) =~= s_old.map_values(|c: char| c as u32)
                    + seq![u0 as u32]);
                match utf16_scalars(units@.skip(j + 1)) {
                    Some(rest) => {
                        assert(s_old.map_values(|c: char| c as u32) + (seq![u0 as u32] + rest)
                            =~= s@.map_values(|c: char| c as u32) + rest);
                    },
                    None => {},
                }
            }
            j = j + 1;
        } else if u0 < 0xDC00 {
            if j + 1 >= units.len() {
                return Err(TextTableError::Utf16Decode);
            }
            let u1 = units[j + 1];
            proof {
                assert(tail.len() >= 2 && tail[1] == units@[j + 1]);
            }
            if !(0xDC00 <= u1 && u1 < 0xE000) {
                return Err(TextTableError::Utf16Decode);
            }
            let cp: u32 = 0x10000 + 0x400 * ((u0 - 0xD800) as u32) + (u1 - 0xDC00) as u32;
            let c = match char::from_u32(cp) {
                Some(c) => c,
                None => {
                    return Err(TextTableError::Utf16Decode);
                },
            };
            let ghost s_old = s@;
            s.push(c);
            proof {
                assert(units@.skip(j as int).skip(2) =~= units@.skip(j + 2));
                assert(s@.map_values(|c: char| c as u32) =~= s_old.map_values(|c: char| c as u32)
                    + seq![cp]);
                match utf16_scalars(units@.skip(j + 2)) {
                    Some(rest) => {
                        assert(s_old.map_values(|c: char| c as u32) + (seq![cp] + rest) =~= s@
                            .map_values(|c: char| c as u32) + rest);
                    },
                    None => {},
                }
            }
            j = j + 2;
        } else {
            return Err(TextTableError::Utf16Decode);
        }
    }
}

/// Decodes a decompressed payload as a pointer-indexed UTF-16 string table.
/// Decoding is all-or-nothing: any invalid pointer or surrogate fails the
/// whole table.
pub fn parse_text_file(data: &[u8]) -> (r: Result<Vec<String>, TextTableError>)
    ensures
        match r {
            Ok(v) => match text_table_spec(data@) {
                Ok(cps) => strings_match_scalars(v.deep_view(), cps),
                Err(e) => false,
            },
            Err(e) => text_table_spec(data@) == Err::<Seq<Seq<u32>>, TextTableError>(e),
        },
{
    if data.len() < 4 {
        return Err(TextTableError::Io);
    }
    let n = crate::wire::read_le32(data, 0);
    let ghost n_int = le32_at(data@, 0);
    let mut out: Vec<String> = Vec::new();
    let mut i: u32 = 0;
    while i < n
        invariant
            i <= n,
            n == n_int,
            data@.len() >= 4,
            out.deep_view().len() == i,
            entries_from(data@, n_int, 0) == match entries_from(data@, n_int, i as int) {
                Ok(rest) => Ok::<Seq<Seq<u32>>, TextTableError>(
                    out.deep_view().map_values(|s: Seq<char>| s.map_values(|c: char| c as u32))
                        + rest,
                ),
                Err(e) => Err::<Seq<Seq<u32>>, TextTableError>(e),
            },
        decreases n - i,
    {
        let need: u64 = 4 + 4 * (i as u64) + 4;
        if need > data.len() as u64 {
            return Err(TextTableError::Io);
        }
        let off: usize = (4 + 4 * (i as u64)) as usize;
        let ptr = crate::wire::read_le32(data, off);
        if (ptr as u64) < 4 * (n as u64) || (ptr as u64) > data.len() as u64 {
            return Err(TextTableError::InvalidPointer);
        }
        let units = read_units(data, ptr as usize);
        let s = match decode_utf16_units(&units) {
            Ok(s) => s,
            Err(e) => {
                return Err(e);
            },
        };
        let ghost s_model = s@.map_values(|c: char| c as u32);
        let ghost old_deep = out.deep_view();
        let ghost maps = old_deep.map_values(|t: Seq<char>| t.map_values(|c: char| c as u32));
        out.push(s);
        proof {
            assert(out.deep_view() =~= old_deep.push(s@));
            assert(out.deep_view().map_values(|t: Seq<char>| t.map_values(|c: char| c as u32))
                =~= maps.push(s_model));
            match entries_from(data@, n_int, i + 1) {
                Ok(rest) => {
                    assert(maps + (seq![s_model] + rest) =~= maps.push(s_model) + rest);
                },
                Err(e) => {},
            }
        }
        i = i + 1;
    }
    proof {
        assert(out.deep_view().map_values(|s: Seq<char>| s.map_values(|c: char| c as u32))
            + Seq::<Seq<u32>>::empty() =~= out.deep_view().map_values(
            |s: Seq<char>| s.map_values(|c: char| c as u32),
        ));
    }
    Ok(out)
}

} // verus!
