//! The binary snapshot reader: a cursor over an immutable byte buffer. Each
//! primitive yields a value and the count of bytes it consumed; the loader
//! walks the record stream and fills the store.

use crate::store::{Database, Entry, EntryView};
use crate::text::{decimal_of, lossy_string, lossy_utf8, render_u64};
use vstd::prelude::*;
use vstd::slice::{slice_index_get, slice_subrange};
use vstd::string::StringExecFns;

verus! {

/// A decoded length field: either a payload length, or the width in bytes of
/// an integer that stands in for a string.
#[derive(Debug, PartialEq, Eq, Structural)]
pub enum ReadLength {
    Number(usize),
    Special(usize),
}

/// The value-type tag of a key-value record; only plain strings are carried.
#[derive(Debug, PartialEq, Eq, Structural)]
pub enum ValueType {
    String,
}

/// Why a snapshot failed to parse.
#[derive(Debug, PartialEq, Eq, Structural)]
pub enum RdbError {
    /// The file does not begin with the magic bytes `REDIS`.
    BadMagic,
    /// The four version bytes are not all decimal digits.
    BadVersion,
    /// The buffer ended inside a record.
    Truncated,
    /// A length byte selected an unsupported encoding.
    UnsupportedLength,
    /// A key-value record carried a value type other than a plain string.
    UnsupportedValueType,
}

/// The little-endian value of the bytes, least significant first.
pub open spec fn le_val(s: Seq<u8>) -> int
    decreases s.len(),
{
    if s.len() == 0 {
        0
    } else {
        s[0] + 256 * le_val(s.drop_first())
    }
}

/// An exclusive upper bound for the little-endian value of `n` bytes.
pub open spec fn byte_bound(n: int) -> int
    decreases n,
{
    if n <= 0 {
        1
    } else {
        256 * byte_bound(n - 1)
    }
}

pub proof fn lemma_le_val_bound(s: Seq<u8>)
    ensures
        0 <= le_val(s) < byte_bound(s.len() as int),
    decreases s.len(),
{
    if s.len() > 0 {
        lemma_le_val_bound(s.drop_first());
    }
}

/// The little-endian value of at most eight bytes fits in a 64-bit word.
pub proof fn lemma_le_val_u64(s: Seq<u8>)
    requires
        s.len() <= 8,
    ensures
        0 <= le_val(s) < 0x1_0000_0000_0000_0000,
{
    lemma_le_val_bound(s);
    assert(byte_bound(0) == 1);
    assert(byte_bound(1) == 0x100);
    assert(byte_bound(2) == 0x1_0000);
    assert(byte_bound(3) == 0x100_0000);
    assert(byte_bound(4) == 0x1_0000_0000);
    assert(byte_bound(5) == 0x100_0000_0000);
    assert(byte_bound(6) == 0x1_0000_0000_0000);
    assert(byte_bound(7) == 0x100_0000_0000_0000);
    assert(byte_bound(8) == 0x1_0000_0000_0000_0000);
}

fn le2(b0: u8, b1: u8) -> (r: u64)
    ensures
        r as int == le_val(seq![b0, b1]),
        r < 0x1_0000,
{
    proof {
        assert(le_val(Seq::<u8>::empty()) == 0);
        assert(seq![b1].drop_first() =~= Seq::<u8>::empty());
        assert(le_val(seq![b1]) == b1);
        assert(seq![b0, b1].drop_first() =~= seq![b1]);
        assert(le_val(seq![b0, b1]) == b0 + b1 * 256);
    }
    b0 as u64 + 256 * (b1 as u64)
}

fn le4(b0: u8, b1: u8, b2: u8, b3: u8) -> (r: u64)
    ensures
        r as int == le_val(seq![b0, b1, b2, b3]),
        r < 0x1_0000_0000,
{
    proof {
        assert(le_val(Seq::<u8>::empty()) == 0);
        assert(seq![b3].drop_first() =~= Seq::<u8>::empty());
        assert(le_val(seq![b3]) == b3);
        assert(seq![b2, b3].drop_first() =~= seq![b3]);
        assert(le_val(seq![b2, b3]) == b2 + b3 * 256);
        assert(seq![b1, b2, b3].drop_first() =~= seq![b2, b3]);
        assert(le_val(seq![b1, b2, b3]) == b1 + b2 * 256 + b3 * 65536);
        assert(seq![b0, b1, b2, b3].drop_first() =~= seq![b1, b2, b3]);
        assert(le_val(seq![b0, b1, b2, b3]) == b0 + b1 * 256 + b2 * 65536 + b3 * 16777216);
    }
    b0 as u64 + 256 * (b1 as u64) + 0x1_0000 * (b2 as u64) + 0x100_0000 * (b3 as u64)
}

fn le8(b0: u8, b1: u8, b2: u8, b3: u8, b4: u8, b5: u8, b6: u8, b7: u8) -> (r: u64)
    ensures
        r as int == le_val(seq![b0, b1, b2, b3, b4, b5, b6, b7]),
{
    proof {
        assert(le_val(Seq::<u8>::empty()) == 0);
        assert(seq![b7].drop_first() =~= Seq::<u8>::empty());
        assert(le_val(seq![b7]) == b7);
        assert(seq![b6, b7].drop_first() =~= seq![b7]);
        assert(le_val(seq![b6, b7]) == b6 + b7 * 256);
        assert(seq![b5, b6, b7].drop_first() =~= seq![b6, b7]);
        assert(le_val(seq![b5, b6, b7]) == b5 + b6 * 256 + b7 * 65536);
        assert(seq![b4, b5, b6, b7].drop_first() =~= seq![b5, b6, b7]);
        assert(le_val(seq![b4, b5, b6, b7]) == b4 + b5 * 256 + b6 * 65536 + b7 * 16777216);
        assert(seq![b3, b4, b5, b6, b7].drop_first() =~= seq![b4, b5, b6, b7]);
        assert(le_val(seq![b3, b4, b5, b6, b7]) == b3 + b4 * 256 + b5 * 65536 + b6 * 16777216 + b7 * 4294967296);
        assert(seq![b2, b3, b4, b5, b6, b7].drop_first() =~= seq![b3, b4, b5, b6, b7]);
        assert(le_val(seq![b2, b3, b4, b5, b6, b7]) == b2 + b3 * 256 + b4 * 65536 + b5 * 16777216 + b6 * 4294967296 + b7 * 1099511627776);
        assert(seq![b1, b2, b3, b4, b5, b6, b7].drop_first() =~= seq![b2, b3, b4, b5, b6, b7]);
        assert(le_val(seq![b1, b2, b3, b4, b5, b6, b7]) == b1 + b2 * 256 + b3 * 65536 + b4 * 16777216 + b5 * 4294967296 + b6 * 1099511627776 + b7 * 281474976710656);
        assert(seq![b0, b1, b2, b3, b4, b5, b6, b7].drop_first() =~= seq![b1, b2, b3, b4, b5, b6, b7]);
        assert(le_val(seq![b0, b1, b2, b3, b4, b5, b6, b7]) == b0 + b1 * 256 + b2 * 65536 + b3 * 16777216 + b4 * 4294967296 + b5 * 1099511627776 + b6 * 281474976710656 + b7 * 72057594037927936);
    }
    b0 as u64 + 256 * (b1 as u64) + 0x1_0000 * (b2 as u64) + 0x100_0000 * (b3 as u64)
        + 0x1_0000_0000 * (b4 as u64) + 0x100_0000_0000 * (b5 as u64) + 0x1_0000_0000_0000 * (
    b6 as u64) + 0x100_0000_0000_0000 * (b7 as u64)
}

/// The length field at the head of the bytes, and the count of bytes it
/// takes, selected by the top two bits of the leading byte: a 6-bit literal,
/// a 14-bit big-endian value, a 32-bit little-endian value, or a special
/// integer width of one, two or four bytes.
pub open spec fn spec_read_length(s: Seq<u8>) -> Result<(ReadLength, int), RdbError> {
    if s.len() < 1 {
        Err(RdbError::Truncated)
    } else {
        let kind = s[0] / 64;
        let b0 = (s[0] % 64) as usize;
        if kind == 0 {
            Ok((ReadLength::Number(b0), 1))
        } else if kind == 1 {
            if s.len() < 2 {
                Err(RdbError::Truncated)
            } else {
                Ok((ReadLength::Number((b0 * 256 + s[1]) as usize), 2))
            }
        } else if kind == 2 {
            if s.len() < 5 {
                Err(RdbError::Truncated)
            } else {
                Ok((ReadLength::Number(le_val(s.subrange(1, 5)) as usize), 5))
            }
        } else {
            if b0 == 0 {
                Ok((ReadLength::Special(1), 1))
            } else if b0 == 1 {
                Ok((ReadLength::Special(2), 1))
            } else if b0 == 2 {
                Ok((ReadLength::Special(4), 1))
            } else {
                Err(RdbError::UnsupportedLength)
            }
        }
    }
}

/// Reads a length field.
pub fn read_length(bytes: &[u8]) -> (r: Result<(ReadLength, usize), RdbError>)
    ensures
        match r {
            Ok((v, c)) => spec_read_length(bytes@) == Ok::<_, RdbError>((v, c as int)),
            Err(e) => spec_read_length(bytes@) == Err::<(ReadLength, int), _>(e),
        },
{
    if bytes.len() < 1 {
        return Err(RdbError::Truncated);
    }
    let lead = *slice_index_get(bytes, 0);
    let kind = lead / 64;
    let b0 = (lead % 64) as usize;
    if kind == 0 {
        Ok((ReadLength::Number(b0), 1))
    } else if kind == 1 {
        if bytes.len() < 2 {
            return Err(RdbError::Truncated);
        }
        let b1 = *slice_index_get(bytes, 1);
        Ok((ReadLength::Number(b0 * 256 + b1 as usize), 2))
    } else if kind == 2 {
        if bytes.len() < 5 {
            return Err(RdbError::Truncated);
        }
        let v = le4(
            *slice_index_get(bytes, 1),
            *slice_index_get(bytes, 2),
            *slice_index_get(bytes, 3),
            *slice_index_get(bytes, 4),
        );
        proof {
            assert(seq![bytes@[1], bytes@[2], bytes@[3], bytes@[4]] =~= bytes@.subrange(1, 5));
            lemma_le_val_u64(bytes@.subrange(1, 5));
        }
        Ok((ReadLength::Number(v as usize), 5))
    } else {
        if b0 == 0 {
            Ok((ReadLength::Special(1), 1))
        } else if b0 == 1 {
            Ok((ReadLength::Special(2), 1))
        } else if b0 == 2 {
            Ok((ReadLength::Special(4), 1))
        } else {
            Err(RdbError::UnsupportedLength)
        }
    }
}

pub proof fn lemma_read_length_count(s: Seq<u8>)
    ensures
        match spec_read_length(s) {
            Ok((v, c)) => 1 <= c <= s.len(),
            Err(_) => true,
        },
{
}

/// A number field: like a length field, but a special width selector reads
/// that many further bytes as a little-endian integer.
pub open spec fn spec_read_number(s: Seq<u8>) -> Result<(u32, int), RdbError> {
    if s.len() < 1 {
        Err(RdbError::Truncated)
    } else {
        let kind = s[0] / 64;
        let b0 = s[0] % 64;
        if kind == 0 {
            Ok((b0 as u32, 1))
        } else if kind == 1 {
            if s.len() < 2 {
                Err(RdbError::Truncated)
            } else {
                Ok(((b0 * 256 + s[1]) as u32, 2))
            }
        } else if kind == 2 {
            if s.len() < 5 {
                Err(RdbError::Truncated)
            } else {
                Ok((le_val(s.subrange(1, 5)) as u32, 5))
            }
        } else {
            if b0 == 0 {
                if s.len() < 2 {
                    Err(RdbError::Truncated)
                } else {
                    Ok((s[1] as u32, 2))
                }
            } else if b0 == 1 {
                if s.len() < 3 {
                    Err(RdbError::Truncated)
                } else {
                    Ok((le_val(s.subrange(1, 3)) as u32, 3))
                }
            } else if b0 == 2 {
                if s.len() < 5 {
                    Err(RdbError::Truncated)
                } else {
                    Ok((le_val(s.subrange(1, 5)) as u32, 5))
                }
            } else {
                Err(RdbError::UnsupportedLength)
            }
        }
    }
}

pub proof fn lemma_read_number_count(s: Seq<u8>)
    ensures
        match spec_read_number(s) {
            Ok((v, c)) => 1 <= c <= s.len(),
            Err(_) => true,
        },
{
}

/// Reads a number field.
pub fn read_number(bytes: &[u8]) -> (r: Result<(u32, usize), RdbError>)
    ensures
        match r {
            Ok((v, c)) => spec_read_number(bytes@) == Ok::<_, RdbError>((v, c as int)),
            Err(e) => spec_read_number(bytes@) == Err::<(u32, int), _>(e),
        },
{
    if bytes.len() < 1 {
        return Err(RdbError::Truncated);
    }
    let lead = *slice_index_get(bytes, 0);
    let kind = lead / 64;
    let b0 = lead % 64;
    if kind == 0 {
        Ok((b0 as u32, 1))
    } else if kind == 1 {
        if bytes.len() < 2 {
            return Err(RdbError::Truncated);
        }
        let b1 = *slice_index_get(bytes, 1);
        Ok(((b0 as u32) * 256 + b1 as u32, 2))
    } else if kind == 2 {
        if bytes.len() < 5 {
            return Err(RdbError::Truncated);
        }
        let v = le4(
            *slice_index_get(bytes, 1),
            *slice_index_get(bytes, 2),
            *slice_index_get(bytes, 3),
            *slice_index_get(bytes, 4),
        );
        proof {
            assert(seq![bytes@[1], bytes@[2], bytes@[3], bytes@[4]] =~= bytes@.subrange(1, 5));
        }
        Ok((v as u32, 5))
    } else {
        if b0 == 0 {
            if bytes.len() < 2 {
                return Err(RdbError::Truncated);
            }
            Ok((*slice_index_get(bytes, 1) as u32, 2))
        } else if b0 == 1 {
            if bytes.len() < 3 {
                return Err(RdbError::Truncated);
            }
            let v = le2(*slice_index_get(bytes, 1), *slice_index_get(bytes, 2));
            proof {
                assert(seq![bytes@[1], bytes@[2]] =~= bytes@.subrange(1, 3));
            }
            Ok((v as u32, 3))
        } else if b0 == 2 {
            if bytes.len() < 5 {
                return Err(RdbError::Truncated);
            }
            let v = le4(
                *slice_index_get(bytes, 1),
                *slice_index_get(bytes, 2),
                *slice_index_get(bytes, 3),
                *slice_index_get(bytes, 4),
            );
            proof {
                assert(seq![bytes@[1], bytes@[2], bytes@[3], bytes@[4]] =~= bytes@.subrange(1, 5));
            }
            Ok((v as u32, 5))
        } else {
            Err(RdbError::UnsupportedLength)
        }
    }
}

/// A string field: a length field followed by that many raw bytes read as
/// text — unless the length was special, in which case the string is the
/// decimal text of the little-endian integer of that width.
pub open spec fn spec_read_string(s: Seq<u8>) -> Result<(Seq<char>, int), RdbError> {
    match spec_read_length(s) {
        Err(e) => Err(e),
        Ok((ReadLength::Number(len), c)) => if s.len() < c + len {
            Err(RdbError::Truncated)
        } else {
            Ok((lossy_utf8(s.subrange(c, c + len)), c + len))
        },
        Ok((ReadLength::Special(w), c)) => if s.len() < c + w {
            Err(RdbError::Truncated)
        } else {
            Ok((decimal_of(le_val(s.subrange(c, c + w))), c + w))
        },
    }
}

pub proof fn lemma_read_string_count(s: Seq<u8>)
    ensures
        match spec_read_string(s) {
            Ok((v, c)) => 1 <= c <= s.len(),
            Err(_) => true,
        },
{
    lemma_read_length_count(s);
}

/// Reads a string field.
pub fn read_string(bytes: &[u8]) -> (r: Result<(String, usize), RdbError>)
    ensures
        match r {
            Ok((st, c)) => spec_read_string(bytes@) == Ok::<_, RdbError>((st@, c as int)),
            Err(e) => spec_read_string(bytes@) == Err::<(Seq<char>, int), _>(e),
        },
{
    let (rl, c) = match read_length(bytes) {
        Ok(x) => x,
        Err(e) => {
            return Err(e);
        },
    };
    proof {
        lemma_read_length_count(bytes@);
    }
    match rl {
        ReadLength::Number(len) => {
            if bytes.len() - c < len {
                return Err(RdbError::Truncated);
            }
            let sub = slice_subrange(bytes, c, c + len);
            let st = lossy_string(sub);
            Ok((st, c + len))
        },
        ReadLength::Special(w) => {
            proof {
                assert(w == 1 || w == 2 || w == 4);
            }
            if bytes.len() - c < w {
                return Err(RdbError::Truncated);
            }
            let v: u64 = if w == 1 {
                let b = *slice_index_get(bytes, c);
                proof {
                    assert(seq![bytes@[c as int]] =~= bytes@.subrange(c as int, c + 1));
                    assert(seq![bytes@[c as int]].drop_first() =~= Seq::<u8>::empty());
                    assert(le_val(Seq::<u8>::empty()) == 0);
                    assert(le_val(seq![bytes@[c as int]]) == bytes@[c as int]);
                }
                b as u64
            } else if w == 2 {
                let v = le2(*slice_index_get(bytes, c), *slice_index_get(bytes, c + 1));
                proof {
                    assert(seq![bytes@[c as int], bytes@[c + 1]] =~= bytes@.subrange(
                        c as int,
                        c + 2,
                    ));
                }
                v
            } else {
                let v = le4(
                    *slice_index_get(bytes, c),
                    *slice_index_get(bytes, c + 1),
                    *slice_index_get(bytes, c + 2),
                    *slice_index_get(bytes, c + 3),
                );
                proof {
                    assert(seq![
                        bytes@[c as int],
                        bytes@[c + 1],
                        bytes@[c + 2],
                        bytes@[c + 3],
                    ] =~= bytes@.subrange(c as int, c + 4));
                }
                v
            };
            let st = render_u64(v);
            Ok((st, c + w))
        },
    }
}

/// The magic bytes `REDIS` that open every snapshot.
pub open spec fn magic_bytes() -> Seq<u8> {
    seq![0x52u8, 0x45u8, 0x44u8, 0x49u8, 0x53u8]
}

/// A decimal digit as a byte.
pub open spec fn is_digit_byte(b: u8) -> bool {
    48 <= b <= 57
}

/// The header: the five magic bytes, then four digit bytes read as the
/// decimal version number; nine bytes in all.
pub open spec fn spec_read_headers(s: Seq<u8>) -> Result<(u32, int), RdbError> {
    if s.len() < 9 {
        Err(RdbError::Truncated)
    } else if s.subrange(0, 5) != magic_bytes() {
        Err(RdbError::BadMagic)
    } else if !(is_digit_byte(s[5]) && is_digit_byte(s[6]) && is_digit_byte(s[7]) && is_digit_byte(
        s[8],
    )) {
        Err(RdbError::BadVersion)
    } else {
        Ok(
            (
                ((s[5] - 48) * 1000 + (s[6] - 48) * 100 + (s[7] - 48) * 10 + (s[8] - 48)) as u32,
                9,
            ),
        )
    }
}

/// Reads the header, yielding the version and the count of bytes consumed.
pub fn read_headers(bytes: &[u8]) -> (r: Result<(u32, usize), RdbError>)
    ensures
        match r {
            Ok((v, c)) => spec_read_headers(bytes@) == Ok::<_, RdbError>((v, c as int)),
            Err(e) => spec_read_headers(bytes@) == Err::<(u32, int), _>(e),
        },
{
    if bytes.len() < 9 {
        return Err(RdbError::Truncated);
    }
    let m0 = *slice_index_get(bytes, 0);
    let m1 = *slice_index_get(bytes, 1);
    let m2 = *slice_index_get(bytes, 2);
    let m3 = *slice_index_get(bytes, 3);
    let m4 = *slice_index_get(bytes, 4);
    if !(m0 == 0x52 && m1 == 0x45 && m2 == 0x44 && m3 == 0x49 && m4 == 0x53) {
        proof {
            assert(bytes@.subrange(0, 5) != magic_bytes()) by {
                if bytes@.subrange(0, 5) == magic_bytes() {
                    assert(bytes@.subrange(0, 5)[0] == magic_bytes()[0]);
                    assert(bytes@.subrange(0, 5)[1] == magic_bytes()[1]);
                    assert(bytes@.subrange(0, 5)[2] == magic_bytes()[2]);
                    assert(bytes@.subrange(0, 5)[3] == magic_bytes()[3]);
                    assert(bytes@.subrange(0, 5)[4] == magic_bytes()[4]);
                }
            }
        }
        return Err(RdbError::BadMagic);
    }
    proof {
        assert(bytes@.subrange(0, 5) =~= magic_bytes());
    }
    let d0 = *slice_index_get(bytes, 5);
    let d1 = *slice_index_get(bytes, 6);
    let d2 = *slice_index_get(bytes, 7);
    let d3 = *slice_index_get(bytes, 8);
    if !(48 <= d0 && d0 <= 57 && 48 <= d1 && d1 <= 57 && 48 <= d2 && d2 <= 57 && 48 <= d3 && d3
        <= 57) {
        return Err(RdbError::BadVersion);
    }
    let version = (d0 - 48) as u32 * 1000 + (d1 - 48) as u32 * 100 + (d2 - 48) as u32 * 10 + (d3
        - 48) as u32;
    Ok((version, 9))
}

/// A metadata record's payload: a string key, then a string value.
pub open spec fn spec_read_auxiliary(s: Seq<u8>) -> Result<((Seq<char>, Seq<char>), int), RdbError> {
    match spec_read_string(s) {
        Err(e) => Err(e),
        Ok((k, c1)) => match spec_read_string(s.skip(c1)) {
            Err(e) => Err(e),
            Ok((v, c2)) => Ok(((k, v), c1 + c2)),
        },
    }
}

pub proof fn lemma_read_auxiliary_count(s: Seq<u8>)
    ensures
        match spec_read_auxiliary(s) {
            Ok((v, c)) => 1 <= c <= s.len(),
            Err(_) => true,
        },
{
    lemma_read_string_count(s);
    if spec_read_string(s) is Ok {
        let (k, c1) = spec_read_string(s)->Ok_0;
        lemma_read_string_count(s.skip(c1));
    }
}

/// Reads a metadata key and value.
pub fn read_auxiliary(bytes: &[u8]) -> (r: Result<((String, String), usize), RdbError>)
    ensures
        match r {
            Ok(((k, v), c)) => spec_read_auxiliary(bytes@) == Ok::<_, RdbError>(
                ((k@, v@), c as int),
            ),
            Err(e) => spec_read_auxiliary(bytes@) == Err::<((Seq<char>, Seq<char>), int), _>(e),
        },
{
    let (key, c1) = match read_string(bytes) {
        Ok(x) => x,
        Err(e) => {
            return Err(e);
        },
    };
    proof {
        lemma_read_string_count(bytes@);
    }
    let rest = slice_subrange(bytes, c1, bytes.len());
    proof {
        assert(rest@ =~= bytes@.skip(c1 as int));
    }
    let (value, c2) = match read_string(rest) {
        Ok(x) => x,
        Err(e) => {
            return Err(e);
        },
    };
    proof {
        lemma_read_string_count(rest@);
    }
    Ok(((key, value), c1 + c2))
}

/// Reads the database index that follows a database-selector opcode.
pub fn read_db_number(bytes: &[u8]) -> (r: Result<(u32, usize), RdbError>)
    ensures
        match r {
            Ok((v, c)) => spec_read_number(bytes@) == Ok::<_, RdbError>((v, c as int)),
            Err(e) => spec_read_number(bytes@) == Err::<(u32, int), _>(e),
        },
{
    read_number(bytes)
}

/// A resize record's payload: the two hash-table size hints.
pub open spec fn spec_read_resize_db(s: Seq<u8>) -> Result<((u32, u32), int), RdbError> {
    match spec_read_number(s) {
        Err(e) => Err(e),
        Ok((a, c1)) => match spec_read_number(s.skip(c1)) {
            Err(e) => Err(e),
            Ok((b, c2)) => Ok(((a, b), c1 + c2)),
        },
    }
}

pub proof fn lemma_read_resize_db_count(s: Seq<u8>)
    ensures
        match spec_read_resize_db(s) {
            Ok((v, c)) => 1 <= c <= s.len(),
            Err(_) => true,
        },
{
    lemma_read_number_count(s);
    if spec_read_number(s) is Ok {
        let (a, c1) = spec_read_number(s)->Ok_0;
        lemma_read_number_count(s.skip(c1));
    }
}

/// Reads the two hash-table size hints of a resize record.
pub fn read_resize_db(bytes: &[u8]) -> (r: Result<((u32, u32), usize), RdbError>)
    ensures
        match r {
            Ok(((a, b), c)) => spec_read_resize_db(bytes@) == Ok::<_, RdbError>(
                ((a, b), c as int),
            ),
            Err(e) => spec_read_resize_db(bytes@) == Err::<((u32, u32), int), _>(e),
        },
{
    let (size_hash_table, c1) = match read_number(bytes) {
        Ok(x) => x,
        Err(e) => {
            return Err(e);
        },
    };
    proof {
        lemma_read_number_count(bytes@);
    }
    let rest = slice_subrange(bytes, c1, bytes.len());
    proof {
        assert(rest@ =~= bytes@.skip(c1 as int));
    }
    let (size_expiry_hash_table, c2) = match read_number(rest) {
        Ok(x) => x,
        Err(e) => {
            return Err(e);
        },
    };
    proof {
        lemma_read_number_count(rest@);
    }
    Ok(((size_hash_table, size_expiry_hash_table), c1 + c2))
}

impl ValueType {
    /// Classifies a value-type tag; only the plain string tag is carried.
    pub fn try_from(value: u8) -> (r: Result<ValueType, RdbError>)
        ensures
            value == 0 ==> r == Ok::<_, RdbError>(ValueType::String),
            value != 0 ==> r == Err::<ValueType, _>(RdbError::UnsupportedValueType),
    {
        if value == 0 {
            Ok(ValueType::String)
        } else {
            Err(RdbError::UnsupportedValueType)
        }
    }
}

/// A key-value record: a value-type tag (only the string tag is carried),
/// then a string key and a string value.
pub open spec fn spec_read_key_value(s: Seq<u8>) -> Result<((Seq<char>, Seq<char>), int), RdbError> {
    if s.len() < 1 {
        Err(RdbError::Truncated)
    } else if s[0] != 0 {
        Err(RdbError::UnsupportedValueType)
    } else {
        match spec_read_auxiliary(s.skip(1)) {
            Err(e) => Err(e),
            Ok(((k, v), c)) => Ok(((k, v), c + 1)),
        }
    }
}

pub proof fn lemma_read_key_value_count(s: Seq<u8>)
    ensures
        match spec_read_key_value(s) {
            Ok((v, c)) => 1 <= c <= s.len(),
            Err(_) => true,
        },
{
    if s.len() >= 1 && s[0] == 0 {
        lemma_read_auxiliary_count(s.skip(1));
    }
}

/// Reads a key-value record without an expiry.
pub fn read_key_value(bytes: &[u8]) -> (r: Result<((String, String), usize), RdbError>)
    ensures
        match r {
            Ok(((k, v), c)) => spec_read_key_value(bytes@) == Ok::<_, RdbError>(
                ((k@, v@), c as int),
            ),
            Err(e) => spec_read_key_value(bytes@) == Err::<((Seq<char>, Seq<char>), int), _>(e),
        },
{
    if bytes.len() < 1 {
        return Err(RdbError::Truncated);
    }
    let tag = *slice_index_get(bytes, 0);
    match ValueType::try_from(tag) {
        Err(e) => Err(e),
        Ok(ValueType::String) => {
            let rest = slice_subrange(bytes, 1, bytes.len());
            proof {
                assert(rest@ =~= bytes@.skip(1));
            }
            match read_auxiliary(rest) {
                Err(e) => Err(e),
                Ok(((key, value), c)) => {
                    proof {
                        lemma_read_auxiliary_count(rest@);
                    }
                    Ok(((key, value), c + 1))
                },
            }
        },
    }
}

/// An expiring key-value record: an eight-byte little-endian absolute
/// millisecond timestamp, then a key-value record.
pub open spec fn spec_read_key_value_ms(s: Seq<u8>) -> Result<((Seq<char>, EntryView), int), RdbError> {
    if s.len() < 8 {
        Err(RdbError::Truncated)
    } else {
        match spec_read_key_value(s.skip(8)) {
            Err(e) => Err(e),
            Ok(((k, v), c)) => Ok(
                (
                    (k, EntryView { value: v, expires_at: Some(le_val(s.take(8)) as u128) }),
                    c + 8,
                ),
            ),
        }
    }
}

pub proof fn lemma_read_key_value_ms_count(s: Seq<u8>)
    ensures
        match spec_read_key_value_ms(s) {
            Ok((v, c)) => 1 <= c <= s.len(),
            Err(_) => true,
        },
{
    if s.len() >= 8 {
        lemma_read_key_value_count(s.skip(8));
    }
}

/// Reads an expiring key-value record.
pub fn read_key_value_with_ms_expiry(bytes: &[u8]) -> (r: Result<((String, Entry), usize), RdbError>)
    ensures
        match r {
            Ok(((k, e), c)) => spec_read_key_value_ms(bytes@) == Ok::<_, RdbError>(
                ((k@, e@), c as int),
            ),
            Err(e) => spec_read_key_value_ms(bytes@) == Err::<((Seq<char>, EntryView), int), _>(e),
        },
{
    if bytes.len() < 8 {
        return Err(RdbError::Truncated);
    }
    let expiry_ms = le8(
        *slice_index_get(bytes, 0),
        *slice_index_get(bytes, 1),
        *slice_index_get(bytes, 2),
        *slice_index_get(bytes, 3),
        *slice_index_get(bytes, 4),
        *slice_index_get(bytes, 5),
        *slice_index_get(bytes, 6),
        *slice_index_get(bytes, 7),
    );
    proof {
        assert(seq![
            bytes@[0],
            bytes@[1],
            bytes@[2],
            bytes@[3],
            bytes@[4],
            bytes@[5],
            bytes@[6],
            bytes@[7],
        ] =~= bytes@.take(8));
        lemma_le_val_u64(bytes@.take(8));
    }
    let rest = slice_subrange(bytes, 8, bytes.len());
    proof {
        assert(rest@ =~= bytes@.skip(8));
    }
    match read_key_value(rest) {
        Err(e) => Err(e),
        Ok(((key, value), c)) => {
            proof {
                lemma_read_key_value_count(rest@);
            }
            let entry = Entry { value, expires_at: Some(expiry_ms as u128) };
            Ok(((key, entry), c + 8))
        },
    }
}


/// The view of collected metadata pairs as mathematical values.
pub open spec fn aux_pairs_view(v: Seq<(String, String)>) -> Seq<(Seq<char>, Seq<char>)> {
    v.map_values(|p: (String, String)| (p.0@, p.1@))
}

/// The view of collected entry pairs as mathematical values.
pub open spec fn entry_pairs_view(v: Seq<(String, Entry)>) -> Seq<(Seq<char>, EntryView)> {
    v.map_values(|p: (String, Entry)| (p.0@, p.1@))
}

/// The records of a snapshot body, walked from the front: metadata pairs and
/// entries in stream order. An end-of-file opcode, or the recognized but
/// unsupported seconds-expiry opcode, stops the walk and keeps what was read;
/// a byte that is no opcode starts an implicit unexpiring key-value record;
/// a buffer that ends without an end-of-file opcode is truncated.
pub open spec fn spec_parse_records(s: Seq<u8>) -> Result<
    (Seq<(Seq<char>, Seq<char>)>, Seq<(Seq<char>, EntryView)>),
    RdbError,
>
    decreases s.len(),
{
    if s.len() == 0 {
        Err(RdbError::Truncated)
    } else {
        let op = s[0];
        if op == 0xff || op == 0xfd {
            Ok((Seq::empty(), Seq::empty()))
        } else if op == 0xfa {
            match spec_read_auxiliary(s.skip(1)) {
                Err(e) => Err(e),
                Ok((kv, c)) => {
                    proof {
                        lemma_read_auxiliary_count(s.skip(1));
                    }
                    match spec_parse_records(s.skip(1 + c)) {
                        Err(e) => Err(e),
                        Ok((metas, entries)) => Ok((seq![kv] + metas, entries)),
                    }
                },
            }
        } else if op == 0xfe {
            match spec_read_number(s.skip(1)) {
                Err(e) => Err(e),
                Ok((db, c)) => {
                    proof {
                        lemma_read_number_count(s.skip(1));
                    }
                    spec_parse_records(s.skip(1 + c))
                },
            }
        } else if op == 0xfb {
            match spec_read_resize_db(s.skip(1)) {
                Err(e) => Err(e),
                Ok((sizes, c)) => {
                    proof {
                        lemma_read_resize_db_count(s.skip(1));
                    }
                    spec_parse_records(s.skip(1 + c))
                },
            }
        } else if op == 0xfc {
            match spec_read_key_value_ms(s.skip(1)) {
                Err(e) => Err(e),
                Ok((ke, c)) => {
                    proof {
                        lemma_read_key_value_ms_count(s.skip(1));
                    }
                    match spec_parse_records(s.skip(1 + c)) {
                        Err(e) => Err(e),
                        Ok((metas, entries)) => Ok((metas, seq![ke] + entries)),
                    }
                },
            }
        } else {
            match spec_read_key_value(s) {
                Err(e) => Err(e),
                Ok((kv, c)) => {
                    proof {
                        lemma_read_key_value_count(s);
                    }
                    match spec_parse_records(s.skip(c)) {
                        Err(e) => Err(e),
                        Ok((metas, entries)) => Ok(
                            (
                                metas,
                                seq![
                                    (kv.0, EntryView { value: kv.1, expires_at: None }),
                                ] + entries,
                            ),
                        ),
                    }
                },
            }
        }
    }
}

/// Everything a snapshot carries: the header version, the metadata pairs in
/// stream order, and the entries in stream order.
#[derive(Debug)]
pub struct SnapshotContents {
    pub version: u32,
    pub metadata: Vec<(String, String)>,
    pub entries: Vec<(String, Entry)>,
}

impl SnapshotContents {
    /// The metadata pairs as mathematical values.
    pub open spec fn metadata_view(&self) -> Seq<(Seq<char>, Seq<char>)> {
        aux_pairs_view(self.metadata@)
    }

    /// The entry pairs as mathematical values.
    pub open spec fn entries_view(&self) -> Seq<(Seq<char>, EntryView)> {
        entry_pairs_view(self.entries@)
    }
}

/// A whole snapshot: the header, then the record stream.
pub open spec fn spec_parse_snapshot(s: Seq<u8>) -> Result<
    (u32, Seq<(Seq<char>, Seq<char>)>, Seq<(Seq<char>, EntryView)>),
    RdbError,
> {
    match spec_read_headers(s) {
        Err(e) => Err(e),
        Ok((v, c)) => match spec_parse_records(s.skip(c)) {
            Err(e) => Err(e),
            Ok((metas, entries)) => Ok((v, metas, entries)),
        },
    }
}

#[verifier::rlimit(100)]
#[verifier::spinoff_prover]
fn parse_records(bytes: &[u8]) -> (r: Result<
    (Vec<(String, String)>, Vec<(String, Entry)>),
    RdbError,
>)
    ensures
        match r {
            Ok((m, e)) => spec_parse_records(bytes@) == Ok::<_, RdbError>(
                (aux_pairs_view(m@), entry_pairs_view(e@)),
            ),
            Err(err) => spec_parse_records(bytes@) == Err::<
                (Seq<(Seq<char>, Seq<char>)>, Seq<(Seq<char>, EntryView)>),
                _,
            >(err),
        },
    decreases bytes@.len(),
{
    if bytes.len() == 0 {
        return Err(RdbError::Truncated);
    }
    let op = *slice_index_get(bytes, 0);
    if op == 0xff || op == 0xfd {
        let m: Vec<(String, String)> = Vec::new();
        let e: Vec<(String, Entry)> = Vec::new();
        proof {
            assert(aux_pairs_view(m@) =~= Seq::<(Seq<char>, Seq<char>)>::empty());
            assert(entry_pairs_view(e@) =~= Seq::<(Seq<char>, EntryView)>::empty());
        }
        return Ok((m, e));
    }
    let rest = slice_subrange(bytes, 1, bytes.len());
    proof {
        assert(rest@ =~= bytes@.skip(1));
    }
    if op == 0xfa {
        let ((key, value), c) = match read_auxiliary(rest) {
            Ok(x) => x,
            Err(e) => {
                return Err(e);
            },
        };
        proof {
            lemma_read_auxiliary_count(rest@);
        }
        let tail = slice_subrange(bytes, 1 + c, bytes.len());
        proof {
            assert(tail@ =~= bytes@.skip(1 + c as int));
        }
        let (mut m, e) = match parse_records(tail) {
            Ok(x) => x,
            Err(e) => {
                return Err(e);
            },
        };
        let ghost m0 = m@;
        let ghost kv = (key@, value@);
        m.insert(0, (key, value));
        proof {
            assert(aux_pairs_view(m@) =~= seq![kv] + aux_pairs_view(m0));
        }
        Ok((m, e))
    } else if op == 0xfe {
        let (_db_index, c) = match read_number(rest) {
            Ok(x) => x,
            Err(e) => {
                return Err(e);
            },
        };
        proof {
            lemma_read_number_count(rest@);
        }
        let tail = slice_subrange(bytes, 1 + c, bytes.len());
        proof {
            assert(tail@ =~= bytes@.skip(1 + c as int));
        }
        parse_records(tail)
    } else if op == 0xfb {
        let (_sizes, c) = match read_resize_db(rest) {
            Ok(x) => x,
            Err(e) => {
                return Err(e);
            },
        };
        proof {
            lemma_read_resize_db_count(rest@);
        }
        let tail = slice_subrange(bytes, 1 + c, bytes.len());
        proof {
            assert(tail@ =~= bytes@.skip(1 + c as int));
        }
        parse_records(tail)
    } else if op == 0xfc {
        let ((key, entry), c) = match read_key_value_with_ms_expiry(rest) {
            Ok(x) => x,
            Err(e) => {
                return Err(e);
            },
        };
        proof {
            lemma_read_key_value_ms_count(rest@);
        }
        let tail = slice_subrange(bytes, 1 + c, bytes.len());
        proof {
            assert(tail@ =~= bytes@.skip(1 + c as int));
        }
        let (m, mut e) = match parse_records(tail) {
            Ok(x) => x,
            Err(e) => {
                return Err(e);
            },
        };
        let ghost e0 = e@;
        let ghost ke = (key@, entry@);
        e.insert(0, (key, entry));
        proof {
            assert(entry_pairs_view(e@) =~= seq![ke] + entry_pairs_view(e0));
        }
        Ok((m, e))
    } else {
        let ((key, value), c) = match read_key_value(bytes) {
            Ok(x) => x,
            Err(e) => {
                return Err(e);
            },
        };
        proof {
            lemma_read_key_value_count(bytes@);
        }
        let tail = slice_subrange(bytes, c, bytes.len());
        proof {
            assert(tail@ =~= bytes@.skip(c as int));
        }
        let (m, mut e) = match parse_records(tail) {
            Ok(x) => x,
            Err(e) => {
                return Err(e);
            },
        };
        let entry = Entry { value, expires_at: None };
        let ghost e0 = e@;
        let ghost ke = (key@, entry@);
        e.insert(0, (key, entry));
        proof {
            assert(entry_pairs_view(e@) =~= seq![ke] + entry_pairs_view(e0));
        }
        Ok((m, e))
    }
}

/// Parses a snapshot buffer into its contents.
pub fn parse_snapshot(bytes: &[u8]) -> (r: Result<SnapshotContents, RdbError>)
    ensures
        match r {
            Ok(sc) => spec_parse_snapshot(bytes@) == Ok::<_, RdbError>(
                (sc.version, sc.metadata_view(), sc.entries_view()),
            ),
            Err(e) => spec_parse_snapshot(bytes@) == Err::<
                (u32, Seq<(Seq<char>, Seq<char>)>, Seq<(Seq<char>, EntryView)>),
                _,
            >(e),
        },
{
    let (version, hc) = match read_headers(bytes) {
        Ok(x) => x,
        Err(e) => {
            return Err(e);
        },
    };
    proof {
        assert(hc == 9);
    }
    let body = slice_subrange(bytes, hc, bytes.len());
    proof {
        assert(body@ =~= bytes@.skip(9));
    }
    match parse_records(body) {
        Err(e) => Err(e),
        Ok((metadata, entries)) => Ok(SnapshotContents { version, metadata, entries }),
    }
}

/// The metadata map after recording the pairs in stream order; a later pair
/// for the same key overwrites an earlier one.
pub open spec fn spec_apply_aux(
    meta: Map<Seq<char>, Seq<char>>,
    pairs: Seq<(Seq<char>, Seq<char>)>,
) -> Map<Seq<char>, Seq<char>>
    decreases pairs.len(),
{
    if pairs.len() == 0 {
        meta
    } else {
        spec_apply_aux(meta, pairs.drop_last()).insert(pairs.last().0, pairs.last().1)
    }
}

/// The entry map after storing the snapshot entries in stream order.
pub open spec fn spec_apply_entries(
    entries: Seq<(Seq<char>, EntryView)>,
    es: Seq<(Seq<char>, EntryView)>,
) -> Seq<(Seq<char>, EntryView)>
    decreases es.len(),
{
    if es.len() == 0 {
        entries
    } else {
        crate::store::spec_set(
            spec_apply_entries(entries, es.drop_last()),
            es.last().0,
            es.last().1,
        )
    }
}

impl Database {
    /// Parses a snapshot buffer and hydrates the store from it: the version
    /// and the metadata pairs go to the metadata map, the entries to the
    /// entry map. A buffer that does not parse leaves the store untouched.
    pub fn load_snapshot(&mut self, bytes: &[u8]) -> (r: Result<(), RdbError>)
        requires
            old(self).wf(),
        ensures
            final(self).wf(),
            final(self).config_map() == old(self).config_map(),
            match r {
                Err(e) => spec_parse_snapshot(bytes@) == Err::<
                    (u32, Seq<(Seq<char>, Seq<char>)>, Seq<(Seq<char>, EntryView)>),
                    _,
                >(e) && final(self).entries() == old(self).entries()
                    && final(self).metadata_map() == old(self).metadata_map(),
                Ok(_) => spec_parse_snapshot(bytes@) matches Ok((v, metas, es))
                    && final(self).metadata_map() == spec_apply_aux(
                    old(self).metadata_map().insert("version"@, decimal_of(v as int)),
                    metas,
                ) && final(self).entries() == spec_apply_entries(old(self).entries(), es),
            },
    {
        let sc = match parse_snapshot(bytes) {
            Ok(sc) => sc,
            Err(e) => {
                return Err(e);
            },
        };
        let ghost metas = sc.metadata_view();
        let ghost es = sc.entries_view();
        let version_text = render_u64(sc.version as u64);
        self.metadata_set(String::from_str("version"), version_text);
        let ghost meta_base = self.metadata_map();
        let mut i: usize = 0;
        proof {
            assert(metas.take(0) =~= Seq::<(Seq<char>, Seq<char>)>::empty());
        }
        while i < sc.metadata.len()
            invariant
                metas == sc.metadata_view(),
                metas.len() == sc.metadata@.len(),
                0 <= i <= metas.len(),
                self.metadata_map() == spec_apply_aux(meta_base, metas.take(i as int)),
                self.entries() == old(self).entries(),
                self.config_map() == old(self).config_map(),
                meta_base == old(self).metadata_map().insert(
                    "version"@,
                    decimal_of(sc.version as int),
                ),
            decreases metas.len() - i,
        {
            let key = sc.metadata[i].0.clone();
            let value = sc.metadata[i].1.clone();
            self.metadata_set(key, value);
            proof {
                assert(metas.take(i + 1).drop_last() =~= metas.take(i as int));
                assert(metas.take(i + 1).last() == metas[i as int]);
            }
            i += 1;
        }
        proof {
            assert(metas.take(metas.len() as int) =~= metas);
        }
        let ghost entries_base = self.entries();
        let mut j: usize = 0;
        proof {
            assert(es.take(0) =~= Seq::<(Seq<char>, EntryView)>::empty());
        }
        while j < sc.entries.len()
            invariant
                es == sc.entries_view(),
                es.len() == sc.entries@.len(),
                0 <= j <= es.len(),
                self.wf(),
                self.entries() == spec_apply_entries(entries_base, es.take(j as int)),
                self.config_map() == old(self).config_map(),
                self.metadata_map() == spec_apply_aux(meta_base, metas),
                entries_base == old(self).entries(),
                meta_base == old(self).metadata_map().insert(
                    "version"@,
                    decimal_of(sc.version as int),
                ),
            decreases es.len() - j,
        {
            let key = sc.entries[j].0.clone();
            let value = sc.entries[j].1.value.clone();
            let expires_at = sc.entries[j].1.expires_at;
            self.set(key, value, expires_at);
            proof {
                assert(es.take(j + 1).drop_last() =~= es.take(j as int));
                assert(es.take(j + 1).last() == es[j as int]);
            }
            j += 1;
        }
        proof {
            assert(es.take(es.len() as int) =~= es);
        }
        Ok(())
    }
}

} // verus!
