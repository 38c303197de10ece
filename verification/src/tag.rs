//! The one-byte tags that open every datum of a row.
//!
//! The tags of the integer types are laid out in runs, one run for each type
//! and sign, so that the tag of a value is the first tag of its run plus the
//! number of bytes that the value takes.

use vstd::prelude::*;

verus! {

/// What kind of datum follows, and for integers in how many bytes.
#[allow(non_camel_case_types)]
#[derive(Debug, Clone, Copy, PartialEq, Eq, Structural)]
pub enum Tag {
    Null,
    False,
    True,
    Int16,
    Int32,
    Int64,
    UInt8,
    UInt32,
    Float32,
    Float64,
    Date,
    Time,
    Timestamp,
    TimestampTz,
    Interval,
    BytesTiny,
    BytesShort,
    BytesLong,
    BytesHuge,
    StringTiny,
    StringShort,
    StringLong,
    StringHuge,
    Uuid,
    Array,
    ListTiny,
    ListShort,
    ListLong,
    ListHuge,
    Dict,
    JsonNull,
    Dummy,
    Numeric,
    UInt16,
    UInt64,
    MzTimestamp,
    Range,
    MzAclItem,
    AclItem,
    /// A timestamp that fits in 64 bits of nanoseconds since the Unix epoch.
    CheapTimestamp,
    /// A timestamp with time zone that fits in 64 bits of nanoseconds since
    /// the Unix epoch.
    CheapTimestampTz,
    /// A 16-bit integer that is zero; the tags that follow hold a
    /// non-negative one in one and in two bytes.
    NonNegativeInt16_0,
    NonNegativeInt16_8,
    NonNegativeInt16_16,
    NonNegativeInt32_0,
    NonNegativeInt32_8,
    NonNegativeInt32_16,
    NonNegativeInt32_24,
    NonNegativeInt32_32,
    NonNegativeInt64_0,
    NonNegativeInt64_8,
    NonNegativeInt64_16,
    NonNegativeInt64_24,
    NonNegativeInt64_32,
    NonNegativeInt64_40,
    NonNegativeInt64_48,
    NonNegativeInt64_56,
    NonNegativeInt64_64,
    /// A 16-bit integer that is -1; the tags that follow hold a negative one
    /// in one and in two bytes.
    NegativeInt16_0,
    NegativeInt16_8,
    NegativeInt16_16,
    NegativeInt32_0,
    NegativeInt32_8,
    NegativeInt32_16,
    NegativeInt32_24,
    NegativeInt32_32,
    NegativeInt64_0,
    NegativeInt64_8,
    NegativeInt64_16,
    NegativeInt64_24,
    NegativeInt64_32,
    NegativeInt64_40,
    NegativeInt64_48,
    NegativeInt64_56,
    NegativeInt64_64,
    /// An unsigned 8-bit integer that is zero.
    UInt8_0,
    UInt8_8,
    UInt16_0,
    UInt16_8,
    UInt16_16,
    UInt32_0,
    UInt32_8,
    UInt32_16,
    UInt32_24,
    UInt32_32,
    UInt64_0,
    UInt64_8,
    UInt64_16,
    UInt64_24,
    UInt64_32,
    UInt64_40,
    UInt64_48,
    UInt64_56,
    UInt64_64,
}

/// The number of tags: every byte below it is a tag.
pub const TAG_COUNT: u8 = 94;

impl Tag {
    /// The byte that stands for this tag.
    pub open spec fn byte(self) -> u8 {
        match self {
            Tag::Null => 0,
            Tag::False => 1,
            Tag::True => 2,
            Tag::Int16 => 3,
            Tag::Int32 => 4,
            Tag::Int64 => 5,
            Tag::UInt8 => 6,
            Tag::UInt32 => 7,
            Tag::Float32 => 8,
            Tag::Float64 => 9,
            Tag::Date => 10,
            Tag::Time => 11,
            Tag::Timestamp => 12,
            Tag::TimestampTz => 13,
            Tag::Interval => 14,
            Tag::BytesTiny => 15,
            Tag::BytesShort => 16,
            Tag::BytesLong => 17,
            Tag::BytesHuge => 18,
            Tag::StringTiny => 19,
            Tag::StringShort => 20,
            Tag::StringLong => 21,
            Tag::StringHuge => 22,
            Tag::Uuid => 23,
            Tag::Array => 24,
            Tag::ListTiny => 25,
            Tag::ListShort => 26,
            Tag::ListLong => 27,
            Tag::ListHuge => 28,
            Tag::Dict => 29,
            Tag::JsonNull => 30,
            Tag::Dummy => 31,
            Tag::Numeric => 32,
            Tag::UInt16 => 33,
            Tag::UInt64 => 34,
            Tag::MzTimestamp => 35,
            Tag::Range => 36,
            Tag::MzAclItem => 37,
            Tag::AclItem => 38,
            Tag::CheapTimestamp => 39,
            Tag::CheapTimestampTz => 40,
            Tag::NonNegativeInt16_0 => 41,
            Tag::NonNegativeInt16_8 => 42,
            Tag::NonNegativeInt16_16 => 43,
            Tag::NonNegativeInt32_0 => 44,
            Tag::NonNegativeInt32_8 => 45,
            Tag::NonNegativeInt32_16 => 46,
            Tag::NonNegativeInt32_24 => 47,
            Tag::NonNegativeInt32_32 => 48,
            Tag::NonNegativeInt64_0 => 49,
            Tag::NonNegativeInt64_8 => 50,
            Tag::NonNegativeInt64_16 => 51,
            Tag::NonNegativeInt64_24 => 52,
            Tag::NonNegativeInt64_32 => 53,
            Tag::NonNegativeInt64_40 => 54,
            Tag::NonNegativeInt64_48 => 55,
            Tag::NonNegativeInt64_56 => 56,
            Tag::NonNegativeInt64_64 => 57,
            Tag::NegativeInt16_0 => 58,
            Tag::NegativeInt16_8 => 59,
            Tag::NegativeInt16_16 => 60,
            Tag::NegativeInt32_0 => 61,
            Tag::NegativeInt32_8 => 62,
            Tag::NegativeInt32_16 => 63,
            Tag::NegativeInt32_24 => 64,
            Tag::NegativeInt32_32 => 65,
            Tag::NegativeInt64_0 => 66,
            Tag::NegativeInt64_8 => 67,
            Tag::NegativeInt64_16 => 68,
            Tag::NegativeInt64_24 => 69,
            Tag::NegativeInt64_32 => 70,
            Tag::NegativeInt64_40 => 71,
            Tag::NegativeInt64_48 => 72,
            Tag::NegativeInt64_56 => 73,
            Tag::NegativeInt64_64 => 74,
            Tag::UInt8_0 => 75,
            Tag::UInt8_8 => 76,
            Tag::UInt16_0 => 77,
            Tag::UInt16_8 => 78,
            Tag::UInt16_16 => 79,
            Tag::UInt32_0 => 80,
            Tag::UInt32_8 => 81,
            Tag::UInt32_16 => 82,
            Tag::UInt32_24 => 83,
            Tag::UInt32_32 => 84,
            Tag::UInt64_0 => 85,
            Tag::UInt64_8 => 86,
            Tag::UInt64_16 => 87,
            Tag::UInt64_24 => 88,
            Tag::UInt64_32 => 89,
            Tag::UInt64_40 => 90,
            Tag::UInt64_48 => 91,
            Tag::UInt64_56 => 92,
            Tag::UInt64_64 => 93,
        }
    }

    /// The tag that `b` stands for, if it is one.
    pub open spec fn of_byte(b: u8) -> Option<Tag> {
        if b == 0 {
            Some(Tag::Null)
        } else if b == 1 {
            Some(Tag::False)
        } else if b == 2 {
            Some(Tag::True)
        } else if b == 3 {
            Some(Tag::Int16)
        } else if b == 4 {
            Some(Tag::Int32)
        } else if b == 5 {
            Some(Tag::Int64)
        } else if b == 6 {
            Some(Tag::UInt8)
        } else if b == 7 {
            Some(Tag::UInt32)
        } else if b == 8 {
            Some(Tag::Float32)
        } else if b == 9 {
            Some(Tag::Float64)
        } else if b == 10 {
            Some(Tag::Date)
        } else if b == 11 {
            Some(Tag::Time)
        } else if b == 12 {
            Some(Tag::Timestamp)
        } else if b == 13 {
            Some(Tag::TimestampTz)
        } else if b == 14 {
            Some(Tag::Interval)
        } else if b == 15 {
            Some(Tag::BytesTiny)
        } else if b == 16 {
            Some(Tag::BytesShort)
        } else if b == 17 {
            Some(Tag::BytesLong)
        } else if b == 18 {
            Some(Tag::BytesHuge)
        } else if b == 19 {
            Some(Tag::StringTiny)
        } else if b == 20 {
            Some(Tag::StringShort)
        } else if b == 21 {
            Some(Tag::StringLong)
        } else if b == 22 {
            Some(Tag::StringHuge)
        } else if b == 23 {
            Some(Tag::Uuid)
        } else if b == 24 {
            Some(Tag::Array)
        } else if b == 25 {
            Some(Tag::ListTiny)
        } else if b == 26 {
            Some(Tag::ListShort)
        } else if b == 27 {
            Some(Tag::ListLong)
        } else if b == 28 {
            Some(Tag::ListHuge)
        } else if b == 29 {
            Some(Tag::Dict)
        } else if b == 30 {
            Some(Tag::JsonNull)
        } else if b == 31 {
            Some(Tag::Dummy)
        } else if b == 32 {
            Some(Tag::Numeric)
        } else if b == 33 {
            Some(Tag::UInt16)
        } else if b == 34 {
            Some(Tag::UInt64)
        } else if b == 35 {
            Some(Tag::MzTimestamp)
        } else if b == 36 {
            Some(Tag::Range)
        } else if b == 37 {
            Some(Tag::MzAclItem)
        } else if b == 38 {
            Some(Tag::AclItem)
        } else if b == 39 {
            Some(Tag::CheapTimestamp)
        } else if b == 40 {
            Some(Tag::CheapTimestampTz)
        } else if b == 41 {
            Some(Tag::NonNegativeInt16_0)
        } else if b == 42 {
            Some(Tag::NonNegativeInt16_8)
        } else if b == 43 {
            Some(Tag::NonNegativeInt16_16)
        } else if b == 44 {
            Some(Tag::NonNegativeInt32_0)
        } else if b == 45 {
            Some(Tag::NonNegativeInt32_8)
        } else if b == 46 {
            Some(Tag::NonNegativeInt32_16)
        } else if b == 47 {
            Some(Tag::NonNegativeInt32_24)
        } else if b == 48 {
            Some(Tag::NonNegativeInt32_32)
        } else if b == 49 {
            Some(Tag::NonNegativeInt64_0)
        } else if b == 50 {
            Some(Tag::NonNegativeInt64_8)
        } else if b == 51 {
            Some(Tag::NonNegativeInt64_16)
        } else if b == 52 {
            Some(Tag::NonNegativeInt64_24)
        } else if b == 53 {
            Some(Tag::NonNegativeInt64_32)
        } else if b == 54 {
            Some(Tag::NonNegativeInt64_40)
        } else if b == 55 {
            Some(Tag::NonNegativeInt64_48)
        } else if b == 56 {
            Some(Tag::NonNegativeInt64_56)
        } else if b == 57 {
            Some(Tag::NonNegativeInt64_64)
        } else if b == 58 {
            Some(Tag::NegativeInt16_0)
        } else if b == 59 {
            Some(Tag::NegativeInt16_8)
        } else if b == 60 {
            Some(Tag::NegativeInt16_16)
        } else if b == 61 {
            Some(Tag::NegativeInt32_0)
        } else if b == 62 {
            Some(Tag::NegativeInt32_8)
        } else if b == 63 {
            Some(Tag::NegativeInt32_16)
        } else if b == 64 {
            Some(Tag::NegativeInt32_24)
        } else if b == 65 {
            Some(Tag::NegativeInt32_32)
        } else if b == 66 {
            Some(Tag::NegativeInt64_0)
        } else if b == 67 {
            Some(Tag::NegativeInt64_8)
        } else if b == 68 {
            Some(Tag::NegativeInt64_16)
        } else if b == 69 {
            Some(Tag::NegativeInt64_24)
        } else if b == 70 {
            Some(Tag::NegativeInt64_32)
        } else if b == 71 {
            Some(Tag::NegativeInt64_40)
        } else if b == 72 {
            Some(Tag::NegativeInt64_48)
        } else if b == 73 {
            Some(Tag::NegativeInt64_56)
        } else if b == 74 {
            Some(Tag::NegativeInt64_64)
        } else if b == 75 {
            Some(Tag::UInt8_0)
        } else if b == 76 {
            Some(Tag::UInt8_8)
        } else if b == 77 {
            Some(Tag::UInt16_0)
        } else if b == 78 {
            Some(Tag::UInt16_8)
        } else if b == 79 {
            Some(Tag::UInt16_16)
        } else if b == 80 {
            Some(Tag::UInt32_0)
        } else if b == 81 {
            Some(Tag::UInt32_8)
        } else if b == 82 {
            Some(Tag::UInt32_16)
        } else if b == 83 {
            Some(Tag::UInt32_24)
        } else if b == 84 {
            Some(Tag::UInt32_32)
        } else if b == 85 {
            Some(Tag::UInt64_0)
        } else if b == 86 {
            Some(Tag::UInt64_8)
        } else if b == 87 {
            Some(Tag::UInt64_16)
        } else if b == 88 {
            Some(Tag::UInt64_24)
        } else if b == 89 {
            Some(Tag::UInt64_32)
        } else if b == 90 {
            Some(Tag::UInt64_40)
        } else if b == 91 {
            Some(Tag::UInt64_48)
        } else if b == 92 {
            Some(Tag::UInt64_56)
        } else if b == 93 {
            Some(Tag::UInt64_64)
        } else {
            None
        }
    }

    /// A byte is a tag exactly when it is below `TAG_COUNT`, and the tag of a
    /// tag's byte is that tag.
    pub proof fn lemma_byte_of_byte(b: u8)
        ensures
            Tag::of_byte(b) is Some <==> b < TAG_COUNT,
            Tag::of_byte(b) matches Some(t) ==> t.byte() == b,
    {
    }

    pub proof fn lemma_of_byte_byte(self)
        ensures
            Tag::of_byte(self.byte()) == Some(self),
            self.byte() < TAG_COUNT,
    {
    }

    /// The byte that stands for this tag.
    pub fn to_byte(self) -> (b: u8)
        ensures
            b == self.byte(),
    {
        match self {
            Tag::Null => 0,
            Tag::False => 1,
            Tag::True => 2,
            Tag::Int16 => 3,
            Tag::Int32 => 4,
            Tag::Int64 => 5,
            Tag::UInt8 => 6,
            Tag::UInt32 => 7,
            Tag::Float32 => 8,
            Tag::Float64 => 9,
            Tag::Date => 10,
            Tag::Time => 11,
            Tag::Timestamp => 12,
            Tag::TimestampTz => 13,
            Tag::Interval => 14,
            Tag::BytesTiny => 15,
            Tag::BytesShort => 16,
            Tag::BytesLong => 17,
            Tag::BytesHuge => 18,
            Tag::StringTiny => 19,
            Tag::StringShort => 20,
            Tag::StringLong => 21,
            Tag::StringHuge => 22,
            Tag::Uuid => 23,
            Tag::Array => 24,
            Tag::ListTiny => 25,
            Tag::ListShort => 26,
            Tag::ListLong => 27,
            Tag::ListHuge => 28,
            Tag::Dict => 29,
            Tag::JsonNull => 30,
            Tag::Dummy => 31,
            Tag::Numeric => 32,
            Tag::UInt16 => 33,
            Tag::UInt64 => 34,
            Tag::MzTimestamp => 35,
            Tag::Range => 36,
            Tag::MzAclItem => 37,
            Tag::AclItem => 38,
            Tag::CheapTimestamp => 39,
            Tag::CheapTimestampTz => 40,
            Tag::NonNegativeInt16_0 => 41,
            Tag::NonNegativeInt16_8 => 42,
            Tag::NonNegativeInt16_16 => 43,
            Tag::NonNegativeInt32_0 => 44,
            Tag::NonNegativeInt32_8 => 45,
            Tag::NonNegativeInt32_16 => 46,
            Tag::NonNegativeInt32_24 => 47,
            Tag::NonNegativeInt32_32 => 48,
            Tag::NonNegativeInt64_0 => 49,
            Tag::NonNegativeInt64_8 => 50,
            Tag::NonNegativeInt64_16 => 51,
            Tag::NonNegativeInt64_24 => 52,
            Tag::NonNegativeInt64_32 => 53,
            Tag::NonNegativeInt64_40 => 54,
            Tag::NonNegativeInt64_48 => 55,
            Tag::NonNegativeInt64_56 => 56,
            Tag::NonNegativeInt64_64 => 57,
            Tag::NegativeInt16_0 => 58,
            Tag::NegativeInt16_8 => 59,
            Tag::NegativeInt16_16 => 60,
            Tag::NegativeInt32_0 => 61,
            Tag::NegativeInt32_8 => 62,
            Tag::NegativeInt32_16 => 63,
            Tag::NegativeInt32_24 => 64,
            Tag::NegativeInt32_32 => 65,
            Tag::NegativeInt64_0 => 66,
            Tag::NegativeInt64_8 => 67,
            Tag::NegativeInt64_16 => 68,
            Tag::NegativeInt64_24 => 69,
            Tag::NegativeInt64_32 => 70,
            Tag::NegativeInt64_40 => 71,
            Tag::NegativeInt64_48 => 72,
            Tag::NegativeInt64_56 => 73,
            Tag::NegativeInt64_64 => 74,
            Tag::UInt8_0 => 75,
            Tag::UInt8_8 => 76,
            Tag::UInt16_0 => 77,
            Tag::UInt16_8 => 78,
            Tag::UInt16_16 => 79,
            Tag::UInt32_0 => 80,
            Tag::UInt32_8 => 81,
            Tag::UInt32_16 => 82,
            Tag::UInt32_24 => 83,
            Tag::UInt32_32 => 84,
            Tag::UInt64_0 => 85,
            Tag::UInt64_8 => 86,
            Tag::UInt64_16 => 87,
            Tag::UInt64_24 => 88,
            Tag::UInt64_32 => 89,
            Tag::UInt64_40 => 90,
            Tag::UInt64_48 => 91,
            Tag::UInt64_56 => 92,
            Tag::UInt64_64 => 93,
        }
    }

    /// The tag that `b` stands for; `None` where it stands for none.
    pub fn from_byte(b: u8) -> (t: Option<Tag>)
        ensures
            t == Tag::of_byte(b),
    {
        match b {
            0 => Some(Tag::Null),
            1 => Some(Tag::False),
            2 => Some(Tag::True),
            3 => Some(Tag::Int16),
            4 => Some(Tag::Int32),
            5 => Some(Tag::Int64),
            6 => Some(Tag::UInt8),
            7 => Some(Tag::UInt32),
            8 => Some(Tag::Float32),
            9 => Some(Tag::Float64),
            10 => Some(Tag::Date),
            11 => Some(Tag::Time),
            12 => Some(Tag::Timestamp),
            13 => Some(Tag::TimestampTz),
            14 => Some(Tag::Interval),
            15 => Some(Tag::BytesTiny),
            16 => Some(Tag::BytesShort),
            17 => Some(Tag::BytesLong),
            18 => Some(Tag::BytesHuge),
            19 => Some(Tag::StringTiny),
            20 => Some(Tag::StringShort),
            21 => Some(Tag::StringLong),
            22 => Some(Tag::StringHuge),
            23 => Some(Tag::Uuid),
            24 => Some(Tag::Array),
            25 => Some(Tag::ListTiny),
            26 => Some(Tag::ListShort),
            27 => Some(Tag::ListLong),
            28 => Some(Tag::ListHuge),
            29 => Some(Tag::Dict),
            30 => Some(Tag::JsonNull),
            31 => Some(Tag::Dummy),
            32 => Some(Tag::Numeric),
            33 => Some(Tag::UInt16),
            34 => Some(Tag::UInt64),
            35 => Some(Tag::MzTimestamp),
            36 => Some(Tag::Range),
            37 => Some(Tag::MzAclItem),
            38 => Some(Tag::AclItem),
            39 => Some(Tag::CheapTimestamp),
            40 => Some(Tag::CheapTimestampTz),
            41 => Some(Tag::NonNegativeInt16_0),
            42 => Some(Tag::NonNegativeInt16_8),
            43 => Some(Tag::NonNegativeInt16_16),
            44 => Some(Tag::NonNegativeInt32_0),
            45 => Some(Tag::NonNegativeInt32_8),
            46 => Some(Tag::NonNegativeInt32_16),
            47 => Some(Tag::NonNegativeInt32_24),
            48 => Some(Tag::NonNegativeInt32_32),
            49 => Some(Tag::NonNegativeInt64_0),
            50 => Some(Tag::NonNegativeInt64_8),
            51 => Some(Tag::NonNegativeInt64_16),
            52 => Some(Tag::NonNegativeInt64_24),
            53 => Some(Tag::NonNegativeInt64_32),
            54 => Some(Tag::NonNegativeInt64_40),
            55 => Some(Tag::NonNegativeInt64_48),
            56 => Some(Tag::NonNegativeInt64_56),
            57 => Some(Tag::NonNegativeInt64_64),
            58 => Some(Tag::NegativeInt16_0),
            59 => Some(Tag::NegativeInt16_8),
            60 => Some(Tag::NegativeInt16_16),
            61 => Some(Tag::NegativeInt32_0),
            62 => Some(Tag::NegativeInt32_8),
            63 => Some(Tag::NegativeInt32_16),
            64 => Some(Tag::NegativeInt32_24),
            65 => Some(Tag::NegativeInt32_32),
            66 => Some(Tag::NegativeInt64_0),
            67 => Some(Tag::NegativeInt64_8),
            68 => Some(Tag::NegativeInt64_16),
            69 => Some(Tag::NegativeInt64_24),
            70 => Some(Tag::NegativeInt64_32),
            71 => Some(Tag::NegativeInt64_40),
            72 => Some(Tag::NegativeInt64_48),
            73 => Some(Tag::NegativeInt64_56),
            74 => Some(Tag::NegativeInt64_64),
            75 => Some(Tag::UInt8_0),
            76 => Some(Tag::UInt8_8),
            77 => Some(Tag::UInt16_0),
            78 => Some(Tag::UInt16_8),
            79 => Some(Tag::UInt16_16),
            80 => Some(Tag::UInt32_0),
            81 => Some(Tag::UInt32_8),
            82 => Some(Tag::UInt32_16),
            83 => Some(Tag::UInt32_24),
            84 => Some(Tag::UInt32_32),
            85 => Some(Tag::UInt64_0),
            86 => Some(Tag::UInt64_8),
            87 => Some(Tag::UInt64_16),
            88 => Some(Tag::UInt64_24),
            89 => Some(Tag::UInt64_32),
            90 => Some(Tag::UInt64_40),
            91 => Some(Tag::UInt64_48),
            92 => Some(Tag::UInt64_56),
            93 => Some(Tag::UInt64_64),
            _ => None,
        }
    }

    /// For the tags of integers stored in as few bytes as hold them: that
    /// number of bytes.
    pub open spec fn int_length(self) -> Option<nat> {
        match self {
            Tag::NonNegativeInt16_0 | Tag::NonNegativeInt32_0 | Tag::NonNegativeInt64_0 | Tag::NegativeInt16_0 | Tag::NegativeInt32_0 | Tag::NegativeInt64_0 | Tag::UInt8_0 | Tag::UInt16_0 | Tag::UInt32_0 | Tag::UInt64_0 => Some(0),
            Tag::NonNegativeInt16_8 | Tag::NonNegativeInt32_8 | Tag::NonNegativeInt64_8 | Tag::NegativeInt16_8 | Tag::NegativeInt32_8 | Tag::NegativeInt64_8 | Tag::UInt8_8 | Tag::UInt16_8 | Tag::UInt32_8 | Tag::UInt64_8 => Some(1),
            Tag::NonNegativeInt16_16 | Tag::NonNegativeInt32_16 | Tag::NonNegativeInt64_16 | Tag::NegativeInt16_16 | Tag::NegativeInt32_16 | Tag::NegativeInt64_16 | Tag::UInt16_16 | Tag::UInt32_16 | Tag::UInt64_16 => Some(2),
            Tag::NonNegativeInt32_24 | Tag::NonNegativeInt64_24 | Tag::NegativeInt32_24 | Tag::NegativeInt64_24 | Tag::UInt32_24 | Tag::UInt64_24 => Some(3),
            Tag::NonNegativeInt32_32 | Tag::NonNegativeInt64_32 | Tag::NegativeInt32_32 | Tag::NegativeInt64_32 | Tag::UInt32_32 | Tag::UInt64_32 => Some(4),
            Tag::NonNegativeInt64_40 | Tag::NegativeInt64_40 | Tag::UInt64_40 => Some(5),
            Tag::NonNegativeInt64_48 | Tag::NegativeInt64_48 | Tag::UInt64_48 => Some(6),
            Tag::NonNegativeInt64_56 | Tag::NegativeInt64_56 | Tag::UInt64_56 => Some(7),
            Tag::NonNegativeInt64_64 | Tag::NegativeInt64_64 | Tag::UInt64_64 => Some(8),
            _ => None,
        }
    }

    /// For the tags of integers stored in as few bytes as hold them: that
    /// number of bytes. `None` for every other tag.
    pub fn actual_int_length(self) -> (n: Option<usize>)
        ensures
            n.is_some() == self.int_length().is_some(),
            n matches Some(k) ==> self.int_length() == Some(k as nat) && k <= 8,
    {
        let val: usize = match self {
            Tag::NonNegativeInt16_0 | Tag::NonNegativeInt32_0 | Tag::NonNegativeInt64_0 | Tag::UInt8_0 | Tag::UInt16_0 | Tag::UInt32_0 | Tag::UInt64_0 => 0,
            Tag::NonNegativeInt16_8 | Tag::NonNegativeInt32_8 | Tag::NonNegativeInt64_8 | Tag::UInt8_8 | Tag::UInt16_8 | Tag::UInt32_8 | Tag::UInt64_8 => 1,
            Tag::NonNegativeInt16_16 | Tag::NonNegativeInt32_16 | Tag::NonNegativeInt64_16 | Tag::UInt16_16 | Tag::UInt32_16 | Tag::UInt64_16 => 2,
            Tag::NonNegativeInt32_24 | Tag::NonNegativeInt64_24 | Tag::UInt32_24 | Tag::UInt64_24 => 3,
            Tag::NonNegativeInt32_32 | Tag::NonNegativeInt64_32 | Tag::UInt32_32 | Tag::UInt64_32 => 4,
            Tag::NonNegativeInt64_40 | Tag::UInt64_40 => 5,
            Tag::NonNegativeInt64_48 | Tag::UInt64_48 => 6,
            Tag::NonNegativeInt64_56 | Tag::UInt64_56 => 7,
            Tag::NonNegativeInt64_64 | Tag::UInt64_64 => 8,
            Tag::NegativeInt16_0 | Tag::NegativeInt32_0 | Tag::NegativeInt64_0 => 0,
            Tag::NegativeInt16_8 | Tag::NegativeInt32_8 | Tag::NegativeInt64_8 => 1,
            Tag::NegativeInt16_16 | Tag::NegativeInt32_16 | Tag::NegativeInt64_16 => 2,
            Tag::NegativeInt32_24 | Tag::NegativeInt64_24 => 3,
            Tag::NegativeInt32_32 | Tag::NegativeInt64_32 => 4,
            Tag::NegativeInt64_40 => 5,
            Tag::NegativeInt64_48 => 6,
            Tag::NegativeInt64_56 => 7,
            Tag::NegativeInt64_64 => 8,
            _ => return None,
        };
        Some(val)
    }
}

} // verus!
