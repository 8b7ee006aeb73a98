//! Flag words taken apart into named fields, and the rules on how the
//! fields may be combined.
use crate::constants::{
    MDBX_ALLDUPS, MDBX_APPEND, MDBX_APPENDDUP, MDBX_CREATE, MDBX_CURRENT, MDBX_DB_ACCEDE,
    MDBX_DUPFIXED, MDBX_DUPSORT, MDBX_INTEGERDUP, MDBX_INTEGERKEY, MDBX_MULTIPLE, MDBX_NODUPDATA,
    MDBX_NOOVERWRITE, MDBX_RESERVE, MDBX_REVERSEDUP, MDBX_REVERSEKEY,
};
use crate::error::MdbxError;
use crate::order::ByteOrder;
use libc::c_int;
use vstd::prelude::*;

verus! {

/// Whether the flag word `bits` has a bit of `flag` set.
pub open spec fn spec_has(bits: u32, flag: c_int) -> bool {
    bits & (flag as u32) != 0
}

/// Whether the flag word `bits` has a bit of `flag` set.
pub fn has(bits: u32, flag: c_int) -> (b: bool)
    requires
        flag >= 0,
    ensures
        b == spec_has(bits, flag),
{
    bits & (flag as u32) != 0
}

/// The bits that a sub-database can be opened with.
pub open spec fn spec_db_flag_mask() -> u32 {
    (MDBX_REVERSEKEY as u32) | (MDBX_DUPSORT as u32) | (MDBX_INTEGERKEY as u32) | (
    MDBX_DUPFIXED as u32) | (MDBX_INTEGERDUP as u32) | (MDBX_REVERSEDUP as u32) | (MDBX_CREATE as u32)
        | (MDBX_DB_ACCEDE as u32)
}

/// The bits that a put can be given.
pub open spec fn spec_put_flag_mask() -> u32 {
    (MDBX_NOOVERWRITE as u32) | (MDBX_NODUPDATA as u32) | (MDBX_CURRENT as u32) | (
    MDBX_ALLDUPS as u32) | (MDBX_RESERVE as u32) | (MDBX_APPEND as u32) | (MDBX_APPENDDUP as u32) | (
    MDBX_MULTIPLE as u32)
}

/// How a sub-database orders and holds its pairs. These are the flags that
/// are stored with the sub-database.
#[derive(Debug, Copy, Clone, PartialEq, Eq, Structural)]
pub struct DbFlags {
    /// Keys are compared from their last byte to their first.
    pub reverse_key: bool,
    /// A key may have several values, kept sorted.
    pub dup_sort: bool,
    /// Keys are unsigned integers of four or eight bytes.
    pub integer_key: bool,
    /// All values have one length.
    pub dup_fixed: bool,
    /// Values are unsigned integers of four or eight bytes.
    pub integer_dup: bool,
    /// Values are compared from their last byte to their first.
    pub reverse_dup: bool,
}

/// What opening a sub-database asks for: how it is ordered, and whether it
/// may be created or its stored flags taken over.
#[derive(Debug, Copy, Clone, PartialEq, Eq, Structural)]
pub struct DbOpen {
    /// The flags that the sub-database is to have.
    pub flags: DbFlags,
    /// Create the sub-database if it does not exist.
    pub create: bool,
    /// Take the stored flags of an existing sub-database.
    pub accede: bool,
}

impl DbFlags {
    /// The flags of a plain sub-database: one value per key, keys in
    /// lexical order.
    pub open spec fn plain() -> DbFlags {
        DbFlags {
            reverse_key: false,
            dup_sort: false,
            integer_key: false,
            dup_fixed: false,
            integer_dup: false,
            reverse_dup: false,
        }
    }

    /// The combinations that make sense: what concerns duplicate values
    /// needs `dup_sort`, integer values are of fixed length, and no string is
    /// both an integer and compared in reverse.
    pub open spec fn valid(self) -> bool {
        &&& (self.dup_fixed || self.integer_dup || self.reverse_dup) ==> self.dup_sort
        &&& self.integer_dup ==> self.dup_fixed
        &&& !(self.integer_key && self.reverse_key)
        &&& !(self.integer_dup && self.reverse_dup)
    }

    /// The order of the keys.
    pub open spec fn key_order(self) -> ByteOrder {
        if self.integer_key {
            ByteOrder::Integer
        } else if self.reverse_key {
            ByteOrder::Reverse
        } else {
            ByteOrder::Lexical
        }
    }

    /// The order of the values of one key.
    pub open spec fn dup_order(self) -> ByteOrder {
        if self.integer_dup {
            ByteOrder::Integer
        } else if self.reverse_dup {
            ByteOrder::Reverse
        } else {
            ByteOrder::Lexical
        }
    }

    /// The fields that the bits of `bits` select.
    pub open spec fn spec_of_bits(bits: u32) -> DbFlags {
        DbFlags {
            reverse_key: spec_has(bits, MDBX_REVERSEKEY),
            dup_sort: spec_has(bits, MDBX_DUPSORT),
            integer_key: spec_has(bits, MDBX_INTEGERKEY),
            dup_fixed: spec_has(bits, MDBX_DUPFIXED),
            integer_dup: spec_has(bits, MDBX_INTEGERDUP),
            reverse_dup: spec_has(bits, MDBX_REVERSEDUP),
        }
    }

    /// The flag word with the bits of the fields that are set.
    pub open spec fn spec_bits(self) -> int {
        (if self.reverse_key { MDBX_REVERSEKEY as int } else { 0 })
        + (if self.dup_sort { MDBX_DUPSORT as int } else { 0 })
        + (if self.integer_key { MDBX_INTEGERKEY as int } else { 0 })
        + (if self.dup_fixed { MDBX_DUPFIXED as int } else { 0 })
        + (if self.integer_dup { MDBX_INTEGERDUP as int } else { 0 })
        + (if self.reverse_dup { MDBX_REVERSEDUP as int } else { 0 })
    }

    /// What opening with the flag word `bits` asks for. A word with a bit
    /// that no sub-database flag has is an invalid argument; a combination
    /// that makes no sense is incompatible.
    pub open spec fn spec_parse(bits: u32) -> Result<DbOpen, MdbxError> {
        let flags = DbFlags::spec_of_bits(bits);
        if bits & !spec_db_flag_mask() != 0 {
            Err(MdbxError::InvalidArgument)
        } else if !flags.valid() {
            Err(MdbxError::Incompatible)
        } else {
            Ok(DbOpen { flags, create: spec_has(bits, MDBX_CREATE), accede: spec_has(bits, MDBX_DB_ACCEDE) })
        }
    }

    /// Whether the combination of the fields makes sense.
    pub fn is_valid(&self) -> (b: bool)
        ensures
            b == self.valid(),
    {
        (!(self.dup_fixed || self.integer_dup || self.reverse_dup) || self.dup_sort) && (
        !self.integer_dup || self.dup_fixed) && !(self.integer_key && self.reverse_key) && !(
        self.integer_dup && self.reverse_dup)
    }

    /// Takes the flag word of an open call apart and checks it.
    pub fn parse(bits: u32) -> (r: Result<DbOpen, MdbxError>)
        ensures
            r == DbFlags::spec_parse(bits),
    {
        let mask: u32 = (MDBX_REVERSEKEY as u32) | (MDBX_DUPSORT as u32) | (MDBX_INTEGERKEY as u32)
            | (MDBX_DUPFIXED as u32) | (MDBX_INTEGERDUP as u32) | (MDBX_REVERSEDUP as u32) | (
        MDBX_CREATE as u32) | (MDBX_DB_ACCEDE as u32);
        let flags = DbFlags {
            reverse_key: has(bits, MDBX_REVERSEKEY),
            dup_sort: has(bits, MDBX_DUPSORT),
            integer_key: has(bits, MDBX_INTEGERKEY),
            dup_fixed: has(bits, MDBX_DUPFIXED),
            integer_dup: has(bits, MDBX_INTEGERDUP),
            reverse_dup: has(bits, MDBX_REVERSEDUP),
        };
        if bits & !mask != 0 {
            Err(MdbxError::InvalidArgument)
        } else if !flags.is_valid() {
            Err(MdbxError::Incompatible)
        } else {
            Ok(DbOpen { flags, create: has(bits, MDBX_CREATE), accede: has(bits, MDBX_DB_ACCEDE) })
        }
    }

    /// The flag word that holds exactly these flags.
    pub fn bits(&self) -> (b: u32)
        ensures
            b == self.spec_bits(),
    {
        let mut b: u32 = 0;
        if self.reverse_key {
            b = b + 0x02;
        }
        if self.dup_sort {
            b = b + 0x04;
        }
        if self.integer_key {
            b = b + 0x08;
        }
        if self.dup_fixed {
            b = b + 0x10;
        }
        if self.integer_dup {
            b = b + 0x20;
        }
        if self.reverse_dup {
            b = b + 0x40;
        }
        b
    }

    /// The order of the keys.
    pub fn get_key_order(&self) -> (o: ByteOrder)
        ensures
            o == self.key_order(),
    {
        if self.integer_key {
            ByteOrder::Integer
        } else if self.reverse_key {
            ByteOrder::Reverse
        } else {
            ByteOrder::Lexical
        }
    }

    /// The order of the values of one key.
    pub fn get_dup_order(&self) -> (o: ByteOrder)
        ensures
            o == self.dup_order(),
    {
        if self.integer_dup {
            ByteOrder::Integer
        } else if self.reverse_dup {
            ByteOrder::Reverse
        } else {
            ByteOrder::Lexical
        }
    }
}

/// How a put treats a key or a pair that is already there.
#[derive(Debug, Copy, Clone, PartialEq, Eq, Structural)]
pub struct PutFlags {
    /// Fail with key-exists if the key is there, whatever its values.
    pub no_overwrite: bool,
    /// Fail with key-exists if the key has this very value.
    pub no_dup_data: bool,
    /// Replace the value of a key that is there; do not insert.
    pub current: bool,
    /// Replace all values of the key with the given one.
    pub all_dups: bool,
    /// The caller fills the value in afterwards; only its length counts.
    pub reserve: bool,
    /// The key sorts after every key that is there.
    pub append: bool,
    /// The value sorts after every value that the key has.
    pub append_dup: bool,
    /// The value is an array of values of one length.
    pub multiple: bool,
}

impl PutFlags {
    /// A put without flags: insert, or replace what is there.
    pub open spec fn upsert() -> PutFlags {
        PutFlags {
            no_overwrite: false,
            no_dup_data: false,
            current: false,
            all_dups: false,
            reserve: false,
            append: false,
            append_dup: false,
            multiple: false,
        }
    }

    /// Whether a put into a sub-database with the flags `db` may carry these
    /// flags: what concerns duplicate values needs `dup_sort`, an array of
    /// values needs values of one length, a reserved value cannot be sorted,
    /// and a replacement is no insertion.
    pub open spec fn fits(self, db: DbFlags) -> bool {
        &&& (self.no_dup_data || self.all_dups || self.append_dup) ==> db.dup_sort
        &&& self.multiple ==> db.dup_fixed
        &&& self.reserve ==> !db.dup_sort
        &&& !(self.current && (self.no_overwrite || self.append || self.append_dup))
    }

    /// The fields that the bits of `bits` select.
    pub open spec fn spec_of_bits(bits: u32) -> PutFlags {
        PutFlags {
            no_overwrite: spec_has(bits, MDBX_NOOVERWRITE),
            no_dup_data: spec_has(bits, MDBX_NODUPDATA),
            current: spec_has(bits, MDBX_CURRENT),
            all_dups: spec_has(bits, MDBX_ALLDUPS),
            reserve: spec_has(bits, MDBX_RESERVE),
            append: spec_has(bits, MDBX_APPEND),
            append_dup: spec_has(bits, MDBX_APPENDDUP),
            multiple: spec_has(bits, MDBX_MULTIPLE),
        }
    }

    /// The put flags in the word `bits`; a word with a bit that no put flag
    /// has is an invalid argument.
    pub open spec fn spec_parse(bits: u32) -> Result<PutFlags, MdbxError> {
        if bits & !spec_put_flag_mask() != 0 {
            Err(MdbxError::InvalidArgument)
        } else {
            Ok(PutFlags::spec_of_bits(bits))
        }
    }

    /// Takes the flag word of a put apart.
    pub fn parse(bits: u32) -> (r: Result<PutFlags, MdbxError>)
        ensures
            r == PutFlags::spec_parse(bits),
    {
        let mask: u32 = (MDBX_NOOVERWRITE as u32) | (MDBX_NODUPDATA as u32) | (MDBX_CURRENT as u32)
            | (MDBX_ALLDUPS as u32) | (MDBX_RESERVE as u32) | (MDBX_APPEND as u32) | (
        MDBX_APPENDDUP as u32) | (MDBX_MULTIPLE as u32);
        if bits & !mask != 0 {
            Err(MdbxError::InvalidArgument)
        } else {
            Ok(
                PutFlags {
                    no_overwrite: has(bits, MDBX_NOOVERWRITE),
                    no_dup_data: has(bits, MDBX_NODUPDATA),
                    current: has(bits, MDBX_CURRENT),
                    all_dups: has(bits, MDBX_ALLDUPS),
                    reserve: has(bits, MDBX_RESERVE),
                    append: has(bits, MDBX_APPEND),
                    append_dup: has(bits, MDBX_APPENDDUP),
                    multiple: has(bits, MDBX_MULTIPLE),
                },
            )
        }
    }

    /// Whether a put into a sub-database with the flags `db` may carry these
    /// flags.
    pub fn check(&self, db: &DbFlags) -> (b: bool)
        ensures
            b == self.fits(*db),
    {
        (!(self.no_dup_data || self.all_dups || self.append_dup) || db.dup_sort) && (!self.multiple
            || db.dup_fixed) && (!self.reserve || !db.dup_sort) && !(self.current && (
        self.no_overwrite || self.append || self.append_dup))
    }
}

/// A flag word of a sub-database that is made of its fields parses back
/// into the same fields.
pub proof fn law_flag_words_round_trip(f: DbFlags)
    requires
        f.valid(),
    ensures
        DbFlags::spec_parse(f.spec_bits() as u32) == Ok::<DbOpen, MdbxError>(
            DbOpen { flags: f, create: false, accede: false },
        ),
{
    let b = f.spec_bits() as u32;
    let r: u32 = if f.reverse_key { 2 } else { 0 };
    let d: u32 = if f.dup_sort { 4 } else { 0 };
    let i: u32 = if f.integer_key { 8 } else { 0 };
    let x: u32 = if f.dup_fixed { 16 } else { 0 };
    let n: u32 = if f.integer_dup { 32 } else { 0 };
    let v: u32 = if f.reverse_dup { 64 } else { 0 };
    assert(b == r + d + i + x + n + v);
    assert((r == 0 || r == 2) && (d == 0 || d == 4) && (i == 0 || i == 8) && (x == 0 || x == 16)
        && (n == 0 || n == 32) && (v == 0 || v == 64) && b == r + d + i + x + n + v ==> ((b & 2
        != 0) == (r == 2) && (b & 4 != 0) == (d == 4) && (b & 8 != 0) == (i == 8) && (b & 16 != 0)
        == (x == 16) && (b & 32 != 0) == (n == 32) && (b & 64 != 0) == (v == 64) && b & 0x40000u32
        == 0 && b & 0x40000000u32 == 0 && b & !(0x02u32 | 0x04u32 | 0x08u32 | 0x10u32 | 0x20u32
        | 0x40u32 | 0x40000u32 | 0x40000000u32) == 0)) by (bit_vector);
}

} // verus!
