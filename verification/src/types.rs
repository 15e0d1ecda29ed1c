//! Core data types of the dictionary reader.

use vstd::prelude::*;

verus! {

/// File kind.
#[derive(Debug, Clone, Copy, PartialEq, Eq, Structural)]
pub enum FileExt {
    Mdx,
    Mdd,
}

impl FileExt {
    /// The lowercase file extension this kind uses.
    pub fn as_str(&self) -> (r: &'static str)
        ensures
            *self is Mdx ==> r@ == "mdx"@,
            *self is Mdd ==> r@ == "mdd"@,
    {
        match self {
            FileExt::Mdx => "mdx",
            FileExt::Mdd => "mdd",
        }
    }
}

/// Text encoding of keys and definitions.
#[derive(Debug, Clone, Copy, PartialEq, Eq, Structural)]
pub enum Encoding {
    Utf8,
    Utf16Le,
    Gb18030,
    Big5,
}

/// Encryption coverage declared by the header.
#[derive(Debug, Clone, Copy, PartialEq, Eq, Structural)]
pub enum EncryptType {
    Unencrypted,
    RecordBlock,
    KeyInfoBlock,
}

impl EncryptType {
    /// The encryption kind a numeric header value names; unknown values
    /// mean no encryption.
    pub fn from_code(value: u8) -> (r: EncryptType)
        ensures
            r == EncryptType::spec_from_code(value),
    {
        match value {
            1 => EncryptType::RecordBlock,
            2 => EncryptType::KeyInfoBlock,
            _ => EncryptType::Unencrypted,
        }
    }

    /// The encryption kind a numeric header value names.
    pub open spec fn spec_from_code(value: u8) -> EncryptType {
        if value == 1 {
            EncryptType::RecordBlock
        } else if value == 2 {
            EncryptType::KeyInfoBlock
        } else {
            EncryptType::Unencrypted
        }
    }
}

/// Block compression kind, named by the first four bytes of each block.
#[derive(Debug, Clone, Copy, PartialEq, Eq, Structural)]
pub enum CompressionType {
    Uncompressed,
    Lzo,
    Zlib,
}

impl CompressionType {
    /// The compression kind the 4-byte little-endian code names.
    pub open spec fn spec_from_bytes(bytes: Seq<u8>) -> Option<CompressionType> {
        if bytes.len() < 4 {
            Option::None
        } else if bytes[0] == 0 && bytes[1] == 0 && bytes[2] == 0 && bytes[3] == 0 {
            Option::Some(CompressionType::Uncompressed)
        } else if bytes[0] == 1 && bytes[1] == 0 && bytes[2] == 0 && bytes[3] == 0 {
            Option::Some(CompressionType::Lzo)
        } else if bytes[0] == 2 && bytes[1] == 0 && bytes[2] == 0 && bytes[3] == 0 {
            Option::Some(CompressionType::Zlib)
        } else {
            Option::None
        }
    }

    /// Read the compression kind from a block's first four bytes.
    pub fn from_bytes(bytes: &[u8]) -> (r: Option<CompressionType>)
        ensures
            r == CompressionType::spec_from_bytes(bytes@),
    {
        if bytes.len() < 4 {
            return None;
        }
        if bytes[0] == 0x00 && bytes[1] == 0x00 && bytes[2] == 0x00 && bytes[3] == 0x00 {
            Some(CompressionType::Uncompressed)
        } else if bytes[0] == 0x01 && bytes[1] == 0x00 && bytes[2] == 0x00 && bytes[3] == 0x00 {
            Some(CompressionType::Lzo)
        } else if bytes[0] == 0x02 && bytes[1] == 0x00 && bytes[2] == 0x00 && bytes[3] == 0x00 {
            Some(CompressionType::Zlib)
        } else {
            None
        }
    }
}

/// Width of the big-endian integers in the index tables.
#[derive(Debug, Clone, Copy, PartialEq, Eq, Structural)]
pub enum NumFmt {
    Uint32,
    Uint64,
}

impl NumFmt {
    /// The integer width in bytes.
    pub fn width(&self) -> (r: usize)
        ensures
            *self is Uint32 ==> r == 4,
            *self is Uint64 ==> r == 8,
    {
        match self {
            NumFmt::Uint32 => 4,
            NumFmt::Uint64 => 8,
        }
    }
}

/// Dictionary metadata, immutable after the header parse.  The format
/// version is kept as its two decimal components.
#[derive(Debug, Clone)]
pub struct DictMeta {
    pub version_major: u64,
    pub version_minor: u64,
    pub encoding: Encoding,
    pub encrypt: EncryptType,
    pub num_fmt: NumFmt,
    pub num_width: usize,
    pub ext: FileExt,
    pub passcode: Option<String>,
}

/// Key header information.
#[derive(Debug, Clone)]
pub struct KeyHeader {
    /// Number of keyword blocks.
    pub keyword_blocks_num: u64,
    /// Total number of keywords.
    pub keyword_num: u64,
    /// Decompressed size of key info.
    pub key_info_unpack_size: u64,
    /// Compressed size of key info.
    pub key_info_packed_size: u64,
    /// Total size of all key blocks.
    pub keyword_block_packed_size: u64,
}

/// Key block info item.
#[derive(Debug, Clone)]
pub struct KeyInfoItem {
    /// First keyword in this block.
    pub first_key: String,
    /// Last keyword in this block.
    pub last_key: String,
    /// Compressed size of this key block.
    pub key_block_pack_size: u64,
    /// Accumulated compressed offset.
    pub key_block_pack_accumulator: u64,
    /// Decompressed size of this key block.
    pub key_block_unpack_size: u64,
    /// Accumulated decompressed offset.
    pub key_block_unpack_accumulator: u64,
    /// Number of entries in this block.
    pub key_block_entries_num: u64,
    /// Accumulated entry count.
    pub key_block_entries_num_accumulator: u64,
    /// Index of this key block info.
    pub key_block_info_index: usize,
}

/// Keyword item.
#[derive(Debug, Clone)]
pub struct KeyWordItem {
    /// Start offset in the decompressed record address space.
    pub record_start_offset: u64,
    /// End offset in the decompressed record address space; zero means "to
    /// the end of the containing record block".
    pub record_end_offset: u64,
    /// Keyword text.
    pub key_text: String,
    /// Index of the key block this keyword belongs to.
    pub key_block_idx: usize,
}

/// Record header information.
#[derive(Debug, Clone)]
pub struct RecordHeader {
    /// Number of record blocks.
    pub record_blocks_num: u64,
    /// Total number of entries.
    pub entries_num: u64,
    /// Compressed size of record info.
    pub record_info_comp_size: u64,
    /// Total compressed size of record blocks.
    pub record_block_comp_size: u64,
}

/// Record block info.
#[derive(Debug, Clone)]
pub struct RecordInfo {
    /// Compressed size.
    pub pack_size: u64,
    /// Accumulated compressed offset.
    pub pack_accumulate_offset: u64,
    /// Decompressed size.
    pub unpack_size: u64,
    /// Accumulated decompressed offset.
    pub unpack_accumulate_offset: u64,
}

/// Lookup result.
#[derive(Debug, Clone)]
pub struct LookupResult {
    /// The keyword.
    pub key_text: String,
    /// The definition or resource data.
    pub definition: String,
}

/// Fuzzy search result.
#[derive(Debug, Clone)]
pub struct FuzzyWord {
    /// The keyword item.
    pub item: KeyWordItem,
    /// Edit distance to the query.
    pub edit_distance: usize,
}

} // verus!
