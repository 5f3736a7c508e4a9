use vstd::prelude::*;

verus! {

/// The signed reading of a byte, two's complement.
pub open spec fn to_i8(n: u8) -> i8 {
    if n < 0x80 {
        n as i8
    } else {
        (n as int - 0x100) as i8
    }
}

/// The signed reading of a 16-bit word, two's complement.
pub open spec fn to_i16(n: u16) -> i16 {
    if n < 0x8000 {
        n as i16
    } else {
        (n as int - 0x1_0000) as i16
    }
}

/// The signed reading of a 32-bit word, two's complement.
pub open spec fn to_i32(n: u32) -> i32 {
    if n < 0x8000_0000 {
        n as i32
    } else {
        (n as int - 0x1_0000_0000) as i32
    }
}

/// The signed reading of a 64-bit word, two's complement.
pub open spec fn to_i64(n: u64) -> i64 {
    if n < 0x8000_0000_0000_0000 {
        n as i64
    } else {
        (n as int - 0x1_0000_0000_0000_0000) as i64
    }
}

/// The byte whose two's-complement reading is `x`.
pub open spec fn u8_of_int(x: int) -> u8
    recommends
        -0x80 <= x <= 0xff,
{
    if x >= 0 {
        x as u8
    } else {
        (x + 0x100) as u8
    }
}

/// The 16-bit word whose two's-complement reading is `x`.
pub open spec fn u16_of_int(x: int) -> u16
    recommends
        -0x8000 <= x <= 0xffff,
{
    if x >= 0 {
        x as u16
    } else {
        (x + 0x1_0000) as u16
    }
}

/// The 32-bit word whose two's-complement reading is `x`.
pub open spec fn u32_of_int(x: int) -> u32
    recommends
        -0x8000_0000 <= x <= 0xffff_ffff,
{
    if x >= 0 {
        x as u32
    } else {
        (x + 0x1_0000_0000) as u32
    }
}

/// The 64-bit word whose two's-complement reading is `x`.
pub open spec fn u64_of_int(x: int) -> u64
    recommends
        -0x8000_0000_0000_0000 <= x <= 0xffff_ffff_ffff_ffff,
{
    if x >= 0 {
        x as u64
    } else {
        (x + 0x1_0000_0000_0000_0000) as u64
    }
}

/// Reading a word as signed and writing the signed value back yields the
/// word; writing an in-range integer and reading it back yields the integer.
pub proof fn lemma_signed_round_trip()
    ensures
        forall|n: u8| #![trigger to_i8(n)] u8_of_int(to_i8(n) as int) == n,
        forall|n: u16| #![trigger to_i16(n)] u16_of_int(to_i16(n) as int) == n,
        forall|n: u32| #![trigger to_i32(n)] u32_of_int(to_i32(n) as int) == n,
        forall|n: u64| #![trigger to_i64(n)] u64_of_int(to_i64(n) as int) == n,
        forall|x: int|
            #![trigger u8_of_int(x)]
            -0x80 <= x <= 0x7f ==> to_i8(u8_of_int(x)) as int == x,
        forall|x: int|
            #![trigger u16_of_int(x)]
            -0x8000 <= x <= 0x7fff ==> to_i16(u16_of_int(x)) as int == x,
        forall|x: int|
            #![trigger u32_of_int(x)]
            -0x8000_0000 <= x <= 0x7fff_ffff ==> to_i32(u32_of_int(x)) as int == x,
        forall|x: int|
            #![trigger u64_of_int(x)]
            -0x8000_0000_0000_0000 <= x <= 0x7fff_ffff_ffff_ffff ==> to_i64(u64_of_int(x)) as int
                == x,
{
}

/// Reads a 16-bit word as a signed integer.
pub fn read_i16(n: u16) -> (r: i16)
    ensures
        r == to_i16(n),
{
    if n < 0x8000 {
        n as i16
    } else {
        ((n as i32) - 0x1_0000) as i16
    }
}

/// Reads a 32-bit word as a signed integer.
pub fn read_i32(n: u32) -> (r: i32)
    ensures
        r == to_i32(n),
{
    if n < 0x8000_0000 {
        n as i32
    } else {
        ((n as i64) - 0x1_0000_0000) as i32
    }
}

/// Reads a 64-bit word as a signed integer.
pub fn read_i64(n: u64) -> (r: i64)
    ensures
        r == to_i64(n),
{
    if n < 0x8000_0000_0000_0000 {
        n as i64
    } else {
        ((n as i128) - 0x1_0000_0000_0000_0000) as i64
    }
}

/// Writes a signed integer in `-0x80 ..= 0xff` as a byte.
pub fn write_u8(x: i64) -> (r: u8)
    requires
        -0x80 <= x <= 0xff,
    ensures
        r == u8_of_int(x as int),
{
    if x >= 0 {
        x as u8
    } else {
        ((x + 0x100) as u8)
    }
}

/// Writes a signed integer in `-0x8000 ..= 0xffff` as a 16-bit word.
pub fn write_u16(x: i64) -> (r: u16)
    requires
        -0x8000 <= x <= 0xffff,
    ensures
        r == u16_of_int(x as int),
{
    if x >= 0 {
        x as u16
    } else {
        ((x + 0x1_0000) as u16)
    }
}

/// Writes a signed integer in `-0x8000_0000 ..= 0xffff_ffff` as a 32-bit
/// word.
pub fn write_u32(x: i64) -> (r: u32)
    requires
        -0x8000_0000 <= x <= 0xffff_ffff,
    ensures
        r == u32_of_int(x as int),
{
    if x >= 0 {
        x as u32
    } else {
        ((x + 0x1_0000_0000) as u32)
    }
}

/// Writes a signed 64-bit integer as its two's-complement word.
pub fn write_u64_signed(x: i64) -> (r: u64)
    ensures
        r == u64_of_int(x as int),
{
    if x >= 0 {
        x as u64
    } else {
        (((x as i128) + 0x1_0000_0000_0000_0000) as u64)
    }
}

} // verus!
