//! The container parser and query engine shared by MDX and MDD files: the
//! six parse phases over the file's bytes, the sorted keyword index, and the
//! lookup, prefix, associate and record-fetch operations.

use vstd::prelude::*;

use crate::error::MdictError;
use crate::shims;
use crate::types::DictMeta;
use crate::types::Encoding;
use crate::types::EncryptType;
use crate::types::FileExt;
use crate::types::NumFmt;
use crate::utils;

verus! {

// ---------------------------------------------------------------------------
// Canonical keys and comparison
// ---------------------------------------------------------------------------

/// The canonical comparison form of a key: stripped when the header asks for
/// it, lowercased when comparison is case-insensitive, always trimmed.
pub open spec fn canon_spec(s: Seq<char>, strip: bool, lower: bool, is_mdd: bool) -> Seq<char> {
    let s1 = if strip {
        utils::strip_key_spec(s, is_mdd)
    } else {
        s
    };
    let s2 = if lower {
        shims::lower_of(s1)
    } else {
        s1
    };
    utils::trim_spec(s2)
}

/// The canonical form of a key, as a character vector.
pub fn canon_key(key: &str, strip: bool, lower: bool, is_mdd: bool) -> (r: Vec<char>)
    ensures
        r@ == canon_spec(key@, strip, lower, is_mdd),
{
    let s1: String = if strip {
        utils::strip_key(key, is_mdd)
    } else {
        String::from_str(key)
    };
    let s2: String = if lower {
        shims::lowercase(s1.as_str())
    } else {
        s1
    };
    let v = shims::str_chars(s2.as_str());
    utils::trim_chars(&v)
}

/// Three-way comparison of two raw keys in canonical order.
pub open spec fn cmp_keys_spec(a: Seq<char>, b: Seq<char>, strip: bool, lower: bool, is_mdd: bool) -> int {
    utils::lex_cmp(canon_spec(a, strip, lower, is_mdd), canon_spec(b, strip, lower, is_mdd))
}

// ---------------------------------------------------------------------------
// Small text scanners used by the header
// ---------------------------------------------------------------------------

/// A decimal digit.
pub open spec fn is_digit(c: char) -> bool {
    '0' <= c && c <= '9'
}

/// Whether every character of `s` is a decimal digit.
pub open spec fn all_digits(s: Seq<char>) -> bool {
    forall|i: int| 0 <= i < s.len() ==> is_digit(#[trigger] s[i])
}

/// The decimal value of a digit run (non-digits count as zero).
pub open spec fn digits_val(s: Seq<char>) -> nat
    decreases s.len(),
{
    if s.len() == 0 {
        0
    } else {
        let d = s.last() as int - '0' as int;
        digits_val(s.drop_last()) * 10 + (if 0 <= d <= 9 {
            d as nat
        } else {
            0
        })
    }
}

/// A digit run's value only grows as the run extends.
pub proof fn lemma_digits_val_prefix(s: Seq<char>, k: int)
    requires
        0 <= k <= s.len(),
    ensures
        digits_val(s.take(k)) <= digits_val(s),
    decreases s.len(),
{
    if k < s.len() {
        lemma_digits_val_prefix(s.drop_last(), k);
        assert(s.drop_last().take(k) =~= s.take(k));
    } else {
        assert(s.take(k) =~= s);
    }
}

/// First position of a `.` at or after `i`.
pub open spec fn find_dot_from(s: Seq<char>, i: int) -> Option<int>
    decreases s.len() - i,
    when 0 <= i <= s.len()
{
    if i >= s.len() {
        None
    } else if s[i] == '.' {
        Some(i)
    } else {
        find_dot_from(s, i + 1)
    }
}

/// The format version a header value names, as its two decimal components;
/// anything unreadable means the default, 1.2.
pub open spec fn version_spec(s: Seq<char>) -> (nat, nat) {
    let maj = match find_dot_from(s, 0) {
        Some(d) => s.take(d),
        None => s,
    };
    let min = match find_dot_from(s, 0) {
        Some(d) => s.skip(d + 1),
        None => Seq::<char>::empty(),
    };
    if all_digits(maj) && all_digits(min) && (maj.len() > 0 || min.len() > 0) && find_dot_from(
        min,
        0,
    ) is None && digits_val(maj) <= 0xFFFF_FFFF && digits_val(min) <= 0xFFFF_FFFF {
        (digits_val(maj), digits_val(min))
    } else {
        (1, 2)
    }
}

/// The digits of `v` between `a` and `b` as a number, refused when a
/// non-digit occurs or the value overflows 32 bits.
fn digits_value(v: &Vec<char>, a: usize, b: usize) -> (r: Option<u64>)
    requires
        a <= b <= v@.len(),
    ensures
        match r {
            Some(x) => all_digits(v@.subrange(a as int, b as int)) && x as nat == digits_val(
                v@.subrange(a as int, b as int),
            ) && x <= 0xFFFF_FFFF,
            None => !(all_digits(v@.subrange(a as int, b as int)) && digits_val(
                v@.subrange(a as int, b as int),
            ) <= 0xFFFF_FFFF),
        },
{
    let ghost whole = v@.subrange(a as int, b as int);
    let mut val: u64 = 0;
    let mut i: usize = a;
    proof {
        assert(v@.subrange(a as int, a as int) =~= Seq::<char>::empty());
    }
    while i < b
        invariant
            a <= i <= b <= v@.len(),
            whole == v@.subrange(a as int, b as int),
            all_digits(v@.subrange(a as int, i as int)),
            val as nat == digits_val(v@.subrange(a as int, i as int)),
            val <= 0xFFFF_FFFF,
        decreases b - i,
    {
        let c = v[i];
        proof {
            assert(v@.subrange(a as int, i + 1).drop_last() =~= v@.subrange(a as int, i as int));
            assert(v@.subrange(a as int, i + 1).last() == v@[i as int]);
        }
        if c < '0' || c > '9' {
            proof {
                assert(whole[i - a] == v@[i as int]);
                assert(!all_digits(whole));
            }
            return None;
        }
        let d = (c as u32) - ('0' as u32);
        val = val * 10 + (d as u64);
        if val > 0xFFFF_FFFF {
            proof {
                assert(val as nat == digits_val(v@.subrange(a as int, i + 1)));
                lemma_digits_val_prefix(whole, i + 1 - a);
                assert(whole.take(i + 1 - a) =~= v@.subrange(a as int, i + 1));
                assert(digits_val(whole) > 0xFFFF_FFFF);
            }
            return None;
        }
        i = i + 1;
    }
    proof {
        assert(v@.subrange(a as int, b as int) =~= whole);
    }
    Some(val)
}

/// Parse a version string into its two decimal components; unreadable
/// values give the default 1.2.
pub fn parse_version(s: &str) -> (r: (u64, u64))
    ensures
        (r.0 as nat, r.1 as nat) == version_spec(s@),
{
    let v = shims::str_chars(s);
    let n = v.len();
    let mut dot: usize = 0;
    let mut has_dot = false;
    loop
        invariant_except_break
            !has_dot,
        invariant
            dot <= n,
            n == v@.len(),
            find_dot_from(v@, 0) == find_dot_from(v@, dot as int),
        ensures
            dot <= n,
            if has_dot {
                find_dot_from(v@, 0) == Some(dot as int)
            } else {
                find_dot_from(v@, 0) is None
            },
        decreases n - dot,
    {
        if dot >= n {
            break;
        }
        if v[dot] == '.' {
            has_dot = true;
            break;
        }
        dot = dot + 1;
    }
    let (maj_end, min_start, min_end) = if has_dot {
        (dot, dot + 1, n)
    } else {
        (n, n, n)
    };
    let ghost maj = if has_dot {
        v@.take(dot as int)
    } else {
        v@
    };
    let ghost min = if has_dot {
        v@.skip(dot + 1)
    } else {
        Seq::<char>::empty()
    };
    proof {
        assert(maj =~= v@.subrange(0, maj_end as int));
        assert(min =~= v@.subrange(min_start as int, min_end as int));
    }
    // the minor part may not hold another dot
    let mut j: usize = min_start;
    let mut second_dot = false;
    proof {
        assert(min.skip(0) =~= min);
    }
    loop
        invariant_except_break
            !second_dot,
        invariant
            min_start <= j <= min_end <= n,
            n == v@.len(),
            min == v@.subrange(min_start as int, min_end as int),
            find_dot_from(min, 0) == find_dot_from(min, j - min_start),
        ensures
            if second_dot {
                find_dot_from(min, 0) is Some
            } else {
                find_dot_from(min, 0) is None
            },
        decreases min_end - j,
    {
        if j >= min_end {
            break;
        }
        proof {
            assert(min[j - min_start] == v@[j as int]);
        }
        if v[j] == '.' {
            second_dot = true;
            break;
        }
        j = j + 1;
    }
    if second_dot || (maj_end == 0 && min_start >= min_end) {
        proof {
            if !second_dot {
                assert(maj.len() == 0 && min.len() == 0);
            }
        }
        return (1, 2);
    }
    let mj = digits_value(&v, 0, maj_end);
    let mn = digits_value(&v, min_start, min_end);
    match (mj, mn) {
        (Some(x), Some(y)) => (x, y),
        _ => (1, 2),
    }
}

// ---------------------------------------------------------------------------
// Header attribute access and metadata derivation
// ---------------------------------------------------------------------------

/// The attribute pairs as character sequences.
pub open spec fn attrs_view(h: Seq<(String, String)>) -> Seq<(Seq<char>, Seq<char>)> {
    h.map_values(|p: (String, String)| (p.0@, p.1@))
}

/// The value of the last attribute named `name`, as a map-like reader sees
/// it (a later occurrence wins).
pub open spec fn attrs_get(attrs: Seq<(Seq<char>, Seq<char>)>, name: Seq<char>) -> Option<
    Seq<char>,
>
    decreases attrs.len(),
{
    if attrs.len() == 0 {
        None
    } else if attrs.last().0 == name {
        Some(attrs.last().1)
    } else {
        attrs_get(attrs.drop_last(), name)
    }
}

/// Look an attribute up by name; the last occurrence wins.
pub fn header_get(header: &Vec<(String, String)>, name: &str) -> (r: Option<String>)
    ensures
        match r {
            Some(s) => attrs_get(attrs_view(header@), name@) == Some(s@),
            None => attrs_get(attrs_view(header@), name@) is None,
        },
{
    let n = header.len();
    let mut i: usize = n;
    proof {
        assert(attrs_view(header@).take(n as int) =~= attrs_view(header@));
    }
    while i > 0
        invariant
            i <= n,
            n == header@.len(),
            attrs_get(attrs_view(header@), name@) == attrs_get(
                attrs_view(header@).take(i as int),
                name@,
            ),
        decreases i,
    {
        let hit = utils::str_eq(header[i - 1].0.as_str(), name);
        proof {
            assert(attrs_view(header@).take(i as int).last() == (
                header@[i - 1].0@,
                header@[i - 1].1@,
            ));
            assert(attrs_view(header@).take(i as int).drop_last() =~= attrs_view(
                header@,
            ).take(i - 1));
        }
        if hit {
            let out = header[i - 1].1.clone();
            return Some(out);
        }
        i = i - 1;
    }
    proof {
        assert(attrs_view(header@).take(0) =~= Seq::<(Seq<char>, Seq<char>)>::empty());
    }
    None
}

/// The encoding a header value names; MDD files always use UTF-16LE.
pub open spec fn encoding_spec(v: Option<Seq<char>>, ext: FileExt) -> Encoding {
    if ext is Mdd {
        Encoding::Utf16Le
    } else {
        let e = match v {
            Some(s) => shims::lower_of(s),
            None => Seq::<char>::empty(),
        };
        if e == "gbk"@ || e == "gb2312"@ {
            Encoding::Gb18030
        } else if e == "big5"@ {
            Encoding::Big5
        } else if e == "utf16"@ || e == "utf-16"@ {
            Encoding::Utf16Le
        } else {
            Encoding::Utf8
        }
    }
}

/// The encryption coverage a header value names: nothing, `Yes` for record
/// blocks, or a numeric code.
pub open spec fn encrypt_spec(v: Option<Seq<char>>) -> EncryptType {
    let s = match v {
        Some(s) => s,
        None => Seq::<char>::empty(),
    };
    if s.len() == 0 || s == "No"@ {
        EncryptType::Unencrypted
    } else if s == "Yes"@ {
        EncryptType::RecordBlock
    } else {
        let t = if s[0] == '+' {
            s.skip(1)
        } else {
            s
        };
        if all_digits(t) && t.len() > 0 && digits_val(t) <= 255 {
            EncryptType::spec_from_code(digits_val(t) as u8)
        } else {
            EncryptType::Unencrypted
        }
    }
}

/// Derive the encryption kind from the header value.
fn parse_encrypt(v: &Option<String>) -> (r: EncryptType)
    ensures
        r == encrypt_spec(match v {
            Some(s) => Some(s@),
            None => None,
        }),
{
    let s: &str = match v {
        Some(s) => s.as_str(),
        None => "",
    };
    proof {
        reveal_strlit("");
    }
    let cs = shims::str_chars(s);
    if cs.len() == 0 || utils::str_eq(s, "No") {
        return EncryptType::Unencrypted;
    }
    if utils::str_eq(s, "Yes") {
        return EncryptType::RecordBlock;
    }
    let start: usize = if cs[0] == '+' {
        1
    } else {
        0
    };
    let ghost t = if s@[0] == '+' {
        s@.skip(1)
    } else {
        s@
    };
    proof {
        assert(t =~= cs@.subrange(start as int, cs@.len() as int));
    }
    if start == cs.len() {
        proof {
            assert(t.len() == 0);
        }
        return EncryptType::Unencrypted;
    }
    match digits_value(&cs, start, cs.len()) {
        Some(x) => {
            if x <= 255 {
                EncryptType::from_code(x as u8)
            } else {
                EncryptType::Unencrypted
            }
        },
        None => EncryptType::Unencrypted,
    }
}

/// Derive the encoding from the header value.
fn parse_encoding(v: &Option<String>, ext: FileExt) -> (r: Encoding)
    ensures
        r == encoding_spec(
            match v {
                Some(s) => Some(s@),
                None => None,
            },
            ext,
        ),
{
    if let FileExt::Mdd = ext {
        return Encoding::Utf16Le;
    }
    let low: String = match v {
        Some(s) => shims::lowercase(s.as_str()),
        None => String::new(),
    };
    let e = low.as_str();
    proof {
        if v is None {
            assert(low@ =~= Seq::<char>::empty());
        }
    }
    if utils::str_eq(e, "gbk") || utils::str_eq(e, "gb2312") {
        Encoding::Gb18030
    } else if utils::str_eq(e, "big5") {
        Encoding::Big5
    } else if utils::str_eq(e, "utf16") || utils::str_eq(e, "utf-16") {
        Encoding::Utf16Le
    } else {
        Encoding::Utf8
    }
}

// ---------------------------------------------------------------------------
// Positioned reads
// ---------------------------------------------------------------------------

/// Read `length` bytes at `offset`; a read outside the bytes is an I/O
/// error.
pub fn read_buffer(data: &Vec<u8>, offset: u64, length: usize) -> (r: Result<Vec<u8>, MdictError>)
    ensures
        match r {
            Ok(v) => offset + length <= data@.len() && v@ == data@.subrange(
                offset as int,
                offset as int + length as int,
            ),
            Err(e) => e is Io && offset + length > data@.len(),
        },
{
    let n = data.len();
    if length > n || offset > ((n - length) as u64) {
        return Err(MdictError::Io(String::from_str("read past end of file")));
    }
    let off = offset as usize;
    Ok(utils::bytes_range(data.as_slice(), off, off + length))
}


// ---------------------------------------------------------------------------
// Key header
// ---------------------------------------------------------------------------

/// The key header: five width-sized big-endian fields for v2.0+, four for
/// v1.x (which has no decompressed key-info size), then a 4-byte checksum
/// for v2.0+ only.
pub open spec fn key_header_ok(
    data: Seq<u8>,
    off: int,
    w: int,
    v2: bool,
    kh: crate::types::KeyHeader,
    end: int,
) -> bool {
    let msize: int = if v2 {
        40
    } else {
        16
    };
    &&& 0 <= off
    &&& off + msize <= data.len()
    &&& kh.keyword_blocks_num as nat == utils::be_uint(data.subrange(off, off + w))
    &&& kh.keyword_num as nat == utils::be_uint(data.subrange(off + w, off + 2 * w))
    &&& (if v2 {
        &&& kh.key_info_unpack_size as nat == utils::be_uint(data.subrange(off + 2 * w, off + 3 * w))
        &&& kh.key_info_packed_size as nat == utils::be_uint(data.subrange(off + 3 * w, off + 4 * w))
        &&& kh.keyword_block_packed_size as nat == utils::be_uint(
            data.subrange(off + 4 * w, off + 5 * w),
        )
    } else {
        &&& kh.key_info_unpack_size == 0
        &&& kh.key_info_packed_size as nat == utils::be_uint(data.subrange(off + 2 * w, off + 3 * w))
        &&& kh.keyword_block_packed_size as nat == utils::be_uint(
            data.subrange(off + 3 * w, off + 4 * w),
        )
    })
    &&& end == off + msize + (if v2 {
        4nat
    } else {
        0nat
    })
}

/// Read the key header at `off`.  A record-block-encrypted file without a
/// passcode is refused here.
fn read_key_header(data: &Vec<u8>, off: u64, meta: &DictMeta) -> (r: Result<
    (crate::types::KeyHeader, u64),
    MdictError,
>)
    requires
        meta.num_width == 4 || meta.num_width == 8,
        (meta.num_width == 8) == (meta.version_major >= 2),
        off <= u64::MAX - 44,
    ensures
        match r {
            Ok(p) => key_header_ok(
                data@,
                off as int,
                meta.num_width as int,
                meta.version_major >= 2,
                p.0,
                p.1 as int,
            ) && !(meta.encrypt is RecordBlock && meta.passcode is None),
            Err(e) => {
                let msize: int = if meta.num_width == 8 {
                    40
                } else {
                    16
                };
                &&& (e is EncryptedFileRequiresPasscode ==> meta.encrypt is RecordBlock
                    && meta.passcode is None)
                &&& (!(e is EncryptedFileRequiresPasscode) ==> off + msize > data@.len())
            },
        },
        meta.encrypt is RecordBlock && meta.passcode is None && off + (if meta.num_width == 8 {
            40int
        } else {
            16int
        }) <= data@.len() ==> r is Err,
{
    let v2 = meta.num_width == 8;
    let msize: usize = if v2 {
        40
    } else {
        16
    };
    let buf = match read_buffer(data, off, msize) {
        Ok(b) => b,
        Err(e) => {
            return Err(e);
        },
    };
    if meta.encrypt == EncryptType::RecordBlock && meta.passcode.is_none() {
        return Err(MdictError::EncryptedFileRequiresPasscode);
    }
    let w = meta.num_width;
    let b1 = utils::bytes_range(buf.as_slice(), 0, w);
    let blocks_num = utils::bytes_to_number(b1.as_slice());
    let b2 = utils::bytes_range(buf.as_slice(), w, 2 * w);
    let keyword_num = utils::bytes_to_number(b2.as_slice());
    let mut kh = crate::types::KeyHeader {
        keyword_blocks_num: blocks_num,
        keyword_num,
        key_info_unpack_size: 0,
        key_info_packed_size: 0,
        keyword_block_packed_size: 0,
    };
    if v2 {
        let b3 = utils::bytes_range(buf.as_slice(), 2 * w, 3 * w);
        kh.key_info_unpack_size = utils::bytes_to_number(b3.as_slice());
        let b4 = utils::bytes_range(buf.as_slice(), 3 * w, 4 * w);
        kh.key_info_packed_size = utils::bytes_to_number(b4.as_slice());
        let b5 = utils::bytes_range(buf.as_slice(), 4 * w, 5 * w);
        kh.keyword_block_packed_size = utils::bytes_to_number(b5.as_slice());
    } else {
        let b4 = utils::bytes_range(buf.as_slice(), 2 * w, 3 * w);
        kh.key_info_packed_size = utils::bytes_to_number(b4.as_slice());
        let b5 = utils::bytes_range(buf.as_slice(), 3 * w, 4 * w);
        kh.keyword_block_packed_size = utils::bytes_to_number(b5.as_slice());
    }
    let end: u64 = off + (msize as u64) + (if v2 {
        4
    } else {
        0
    });
    proof {
        let d = data@;
        let o = off as int;
        let wi = w as int;
        assert(buf@.subrange(0, wi) =~= d.subrange(o, o + wi));
        assert(buf@.subrange(wi, 2 * wi) =~= d.subrange(o + wi, o + 2 * wi));
        assert(buf@.subrange(2 * wi, 3 * wi) =~= d.subrange(o + 2 * wi, o + 3 * wi));
        assert(buf@.subrange(3 * wi, 4 * wi) =~= d.subrange(o + 3 * wi, o + 4 * wi));
        if v2 {
            assert(buf@.subrange(4 * wi, 5 * wi) =~= d.subrange(o + 4 * wi, o + 5 * wi));
        }
        assert(buf@.subrange(0, wi).len() == w);
    }
    Ok((kh, end))
}

// ---------------------------------------------------------------------------
// Key-info table
// ---------------------------------------------------------------------------

/// Ghost image of one key-info entry, before running sums.
pub ghost struct KeyInfoRec {
    pub entries: nat,
    pub first_key: Seq<char>,
    pub last_key: Seq<char>,
    pub pack_size: nat,
    pub unpack_size: nat,
}

/// The byte size a first/last-key size field denotes: v2.0+ adds one, and
/// UTF-16 doubles.
pub open spec fn key_str_size(raw: nat, v2: bool, utf16: bool) -> nat {
    if v2 {
        if utf16 {
            (raw + 1) * 2
        } else {
            raw + 1
        }
    } else {
        if utf16 {
            raw * 2
        } else {
            raw
        }
    }
}

/// Parse one key-info entry at `off`: entry count, first and last key,
/// pack and unpack size.  Out-of-range reads fail.
#[verifier::opaque]
pub open spec fn parse_key_info_one(
    buf: Seq<u8>,
    off: int,
    w: nat,
    v2: bool,
    utf16: bool,
    enc: Encoding,
) -> Option<(KeyInfoRec, int)> {
    if !(0 <= off && off + w <= buf.len()) {
        None
    } else {
        let entries = utils::be_uint(buf.subrange(off, off + w));
        let o1 = off + w;
        let sw = w / 4;
        if o1 + sw > buf.len() {
            None
        } else {
            let raw1 = utils::be_uint(buf.subrange(o1, o1 + sw));
            let fs = key_str_size(raw1, v2, utf16) as int;
            let o2 = o1 + sw;
            if o2 + fs > buf.len() {
                None
            } else {
                let first = utils::key_text_of(buf.subrange(o2, o2 + fs), enc);
                let o3 = o2 + fs;
                if o3 + sw > buf.len() {
                    None
                } else {
                    let raw2 = utils::be_uint(buf.subrange(o3, o3 + sw));
                    let ls = key_str_size(raw2, v2, utf16) as int;
                    let o4 = o3 + sw;
                    if o4 + ls > buf.len() {
                        None
                    } else {
                        let last = utils::key_text_of(buf.subrange(o4, o4 + ls), enc);
                        let o5 = o4 + ls;
                        if o5 + 2 * w > buf.len() {
                            None
                        } else {
                            let pack = utils::be_uint(buf.subrange(o5, o5 + w));
                            let unpack = utils::be_uint(buf.subrange(o5 + w, o5 + 2 * w));
                            Some(
                                (
                                    KeyInfoRec {
                                        entries,
                                        first_key: first,
                                        last_key: last,
                                        pack_size: pack,
                                        unpack_size: unpack,
                                    },
                                    o5 + 2 * w,
                                ),
                            )
                        }
                    }
                }
            }
        }
    }
}

/// Parse `n` key-info entries from `buf` at `off`.
pub open spec fn parse_key_info(
    buf: Seq<u8>,
    off: int,
    n: nat,
    w: nat,
    v2: bool,
    utf16: bool,
    enc: Encoding,
) -> Option<Seq<KeyInfoRec>>
    decreases n,
{
    if n == 0 {
        Some(Seq::<KeyInfoRec>::empty())
    } else {
        match parse_key_info_one(buf, off, w, v2, utf16, enc) {
            None => None,
            Some(p) => match parse_key_info(buf, p.1, (n - 1) as nat, w, v2, utf16, enc) {
                Some(rest) => Some(seq![p.0] + rest),
                None => None,
            },
        }
    }
}

/// Sum of the entry counts of the given key-info entries.
pub open spec fn entries_sum(recs: Seq<KeyInfoRec>) -> nat
    decreases recs.len(),
{
    if recs.len() == 0 {
        0
    } else {
        entries_sum(recs.drop_last()) + recs.last().entries
    }
}

/// Sum of the compressed sizes of the given key-info entries.
pub open spec fn pack_sum(recs: Seq<KeyInfoRec>) -> nat
    decreases recs.len(),
{
    if recs.len() == 0 {
        0
    } else {
        pack_sum(recs.drop_last()) + recs.last().pack_size
    }
}

/// Sum of the decompressed sizes of the given key-info entries.
pub open spec fn unpack_sum(recs: Seq<KeyInfoRec>) -> nat
    decreases recs.len(),
{
    if recs.len() == 0 {
        0
    } else {
        unpack_sum(recs.drop_last()) + recs.last().unpack_size
    }
}

pub proof fn lemma_sums_prefix(recs: Seq<KeyInfoRec>, k: int)
    requires
        0 <= k <= recs.len(),
    ensures
        entries_sum(recs.take(k)) <= entries_sum(recs),
        pack_sum(recs.take(k)) <= pack_sum(recs),
        unpack_sum(recs.take(k)) <= unpack_sum(recs),
    decreases recs.len(),
{
    if k < recs.len() {
        lemma_sums_prefix(recs.drop_last(), k);
        assert(recs.drop_last().take(k) =~= recs.take(k));
    } else {
        assert(recs.take(k) =~= recs);
    }
}

/// How decoded key-info items relate to their parsed image: fields match
/// and the accumulators hold the running sums of everything before.
pub open spec fn key_info_items_ok(items: Seq<crate::types::KeyInfoItem>, recs: Seq<KeyInfoRec>) -> bool {
    &&& items.len() == recs.len()
    &&& forall|k: int|
        0 <= k < items.len() ==> {
            let it = #[trigger] items[k];
            &&& it.key_block_entries_num as nat == recs[k].entries
            &&& it.first_key@ == recs[k].first_key
            &&& it.last_key@ == recs[k].last_key
            &&& it.key_block_pack_size as nat == recs[k].pack_size
            &&& it.key_block_unpack_size as nat == recs[k].unpack_size
            &&& it.key_block_info_index == k
        }
    &&& items.len() > 0 ==> items[0].key_block_pack_accumulator == 0
        && items[0].key_block_unpack_accumulator == 0
        && items[0].key_block_entries_num_accumulator == 0
    &&& forall|k: int|
        0 < k < items.len() ==> {
            let it = #[trigger] items[k];
            &&& it.key_block_pack_accumulator as nat == items[k - 1].key_block_pack_accumulator
                as nat + items[k - 1].key_block_pack_size as nat
            &&& it.key_block_unpack_accumulator as nat == items[k - 1].key_block_unpack_accumulator
                as nat + items[k - 1].key_block_unpack_size as nat
            &&& it.key_block_entries_num_accumulator as nat == items[k
                - 1].key_block_entries_num_accumulator as nat + items[k
                - 1].key_block_entries_num as nat
        }
}

/// The sums a decode must accumulate overflow 64 bits.
pub open spec fn key_info_sums_overflow(r: Option<Seq<KeyInfoRec>>) -> bool {
    match r {
        None => true,
        Some(recs) => entries_sum(recs) > u64::MAX || pack_sum(recs) > u64::MAX || unpack_sum(recs)
            > u64::MAX,
    }
}

/// Read one key-info entry at `off`.
#[verifier::rlimit(100)]
fn read_key_info_entry(buf: &Vec<u8>, off: usize, w: usize, v2: bool, utf16: bool, enc: Encoding) -> (r:
    Result<(u64, String, String, u64, u64, usize), MdictError>)
    requires
        w == 4 || w == 8,
        off <= buf@.len(),
    ensures
        match r {
            Ok(p) => parse_key_info_one(buf@, off as int, w as nat, v2, utf16, enc) == Some(
                (
                    KeyInfoRec {
                        entries: p.0 as nat,
                        first_key: p.1@,
                        last_key: p.2@,
                        pack_size: p.3 as nat,
                        unpack_size: p.4 as nat,
                    },
                    p.5 as int,
                ),
            ) && off < p.5 <= buf@.len(),
            Err(e) => parse_key_info_one(buf@, off as int, w as nat, v2, utf16, enc) is None && e
                is InvalidFormat,
        },
{
    proof {
        reveal(parse_key_info_one);
    }
    let blen = buf.len();
    let sw = w / 4;
    if w > blen - off {
        return Err(MdictError::InvalidFormat(String::from_str("key info truncated")));
    }
    let eb = utils::bytes_range(buf.as_slice(), off, off + w);
    let entries = utils::bytes_to_number(eb.as_slice());
    let o1 = off + w;
    if sw > blen - o1 {
        return Err(MdictError::InvalidFormat(String::from_str("key info truncated")));
    }
    let rb1 = utils::bytes_range(buf.as_slice(), o1, o1 + sw);
    let raw1 = utils::bytes_to_number(rb1.as_slice()) as usize;
    proof {
        utils::lemma_be_uint_bound(rb1@);
        reveal_with_fuel(utils::pow256, 3);
    }
    let fs: usize = if v2 {
        if utf16 {
            (raw1 + 1) * 2
        } else {
            raw1 + 1
        }
    } else {
        if utf16 {
            raw1 * 2
        } else {
            raw1
        }
    };
    let o2 = o1 + sw;
    if fs > blen - o2 {
        return Err(MdictError::InvalidFormat(String::from_str("key info truncated")));
    }
    let fk_bytes = utils::bytes_range(buf.as_slice(), o2, o2 + fs);
    let first_key = utils::decode_key_text(fk_bytes.as_slice(), enc);
    let o3 = o2 + fs;
    if sw > blen - o3 {
        return Err(MdictError::InvalidFormat(String::from_str("key info truncated")));
    }
    let rb2 = utils::bytes_range(buf.as_slice(), o3, o3 + sw);
    let raw2 = utils::bytes_to_number(rb2.as_slice()) as usize;
    proof {
        utils::lemma_be_uint_bound(rb2@);
        reveal_with_fuel(utils::pow256, 3);
    }
    let ls: usize = if v2 {
        if utf16 {
            (raw2 + 1) * 2
        } else {
            raw2 + 1
        }
    } else {
        if utf16 {
            raw2 * 2
        } else {
            raw2
        }
    };
    let o4 = o3 + sw;
    if ls > blen - o4 {
        return Err(MdictError::InvalidFormat(String::from_str("key info truncated")));
    }
    let lk_bytes = utils::bytes_range(buf.as_slice(), o4, o4 + ls);
    let last_key = utils::decode_key_text(lk_bytes.as_slice(), enc);
    let o5 = o4 + ls;
    if 2 * w > blen - o5 {
        return Err(MdictError::InvalidFormat(String::from_str("key info truncated")));
    }
    let pb = utils::bytes_range(buf.as_slice(), o5, o5 + w);
    let pack = utils::bytes_to_number(pb.as_slice());
    let ub = utils::bytes_range(buf.as_slice(), o5 + w, o5 + 2 * w);
    let unpack = utils::bytes_to_number(ub.as_slice());
    proof {
        assert(eb@.len() == w && pb@.len() == w && ub@.len() == w);
        assert(rb1@.len() == sw && rb2@.len() == sw);
    }
    Ok((entries, first_key, last_key, pack, unpack, o5 + 2 * w))
}

/// Decode the key-info table: one descriptor per key block, with running
/// sums of entry counts and sizes.
#[verifier::rlimit(100)]
#[verifier::spinoff_prover]
fn decode_key_info(
    buf: &Vec<u8>,
    num_blocks: usize,
    w: usize,
    v2: bool,
    utf16: bool,
    enc: Encoding,
) -> (r: Result<Vec<crate::types::KeyInfoItem>, MdictError>)
    requires
        w == 4 || w == 8,
    ensures
        match r {
            Ok(items) => match parse_key_info(buf@, 0, num_blocks as nat, w as nat, v2, utf16, enc) {
                Some(recs) => key_info_items_ok(items@, recs),
                None => false,
            },
            Err(e) => key_info_sums_overflow(
                parse_key_info(buf@, 0, num_blocks as nat, w as nat, v2, utf16, enc),
            ) && e is InvalidFormat,
        },
{
    let mut items: Vec<crate::types::KeyInfoItem> = Vec::new();
    let ghost mut recs_done: Seq<KeyInfoRec> = Seq::empty();
    let mut off: usize = 0;
    let mut i: usize = 0;
    let mut entries_accu: u64 = 0;
    let mut pack_accu: u64 = 0;
    let mut unpack_accu: u64 = 0;
    let ghost whole = parse_key_info(buf@, 0, num_blocks as nat, w as nat, v2, utf16, enc);
    proof {
        if whole is Some {
            assert(recs_done + whole.unwrap() =~= whole.unwrap());
        }
    }
    while i < num_blocks
        invariant
            w == 4 || w == 8,
            i <= num_blocks,
            off <= buf@.len(),
            whole == parse_key_info(buf@, 0, num_blocks as nat, w as nat, v2, utf16, enc),
            match parse_key_info(buf@, off as int, (num_blocks - i) as nat, w as nat, v2, utf16, enc) {
                Some(rest) => whole == Some(recs_done + rest),
                None => whole is None,
            },
            i == recs_done.len(),
            items@.len() == i,
            key_info_items_ok(items@, recs_done),
            entries_accu as nat == entries_sum(recs_done),
            pack_accu as nat == pack_sum(recs_done),
            unpack_accu as nat == unpack_sum(recs_done),
            i > 0 ==> pack_accu as nat == items@[i - 1].key_block_pack_accumulator as nat
                + items@[i - 1].key_block_pack_size as nat && unpack_accu as nat == items@[i
                - 1].key_block_unpack_accumulator as nat + items@[i - 1].key_block_unpack_size
                as nat && entries_accu as nat == items@[i - 1].key_block_entries_num_accumulator
                as nat + items@[i - 1].key_block_entries_num as nat,
            i == 0 ==> pack_accu == 0 && unpack_accu == 0 && entries_accu == 0,
        decreases num_blocks - i,
    {
        let ghost rem = (num_blocks - i) as nat;
        let ghost tail = parse_key_info(buf@, off as int, rem, w as nat, v2, utf16, enc);
        let (entries, first_key, last_key, pack, unpack, new_off) = match read_key_info_entry(
            buf,
            off,
            w,
            v2,
            utf16,
            enc,
        ) {
            Ok(p) => p,
            Err(e) => {
                proof {
                    assert(tail is None);
                    assert(whole is None);
                }
                return Err(e);
            },
        };
        let ghost rec = KeyInfoRec {
            entries: entries as nat,
            first_key: first_key@,
            last_key: last_key@,
            pack_size: pack as nat,
            unpack_size: unpack as nat,
        };
        let ghost tail2 = parse_key_info(
            buf@,
            new_off as int,
            (rem - 1) as nat,
            w as nat,
            v2,
            utf16,
            enc,
        );
        proof {
            if tail2 is Some {
                assert(tail == Some(seq![rec] + tail2.unwrap()));
            } else {
                assert(tail is None);
            }
        }
        // overflow checks on the running sums
        if entries > u64::MAX - entries_accu || pack > u64::MAX - pack_accu || unpack > u64::MAX
            - unpack_accu {
            proof {
                if tail2 is Some {
                    let all = whole.unwrap();
                    assert(whole == Some(recs_done + (seq![rec] + tail2.unwrap())));
                    assert(all.take(i + 1) =~= recs_done.push(rec));
                    lemma_sums_prefix(all, i + 1);
                    assert(recs_done.push(rec).drop_last() =~= recs_done);
                    assert(entries_sum(recs_done.push(rec)) == entries_sum(recs_done)
                        + rec.entries);
                    assert(pack_sum(recs_done.push(rec)) == pack_sum(recs_done) + rec.pack_size);
                    assert(unpack_sum(recs_done.push(rec)) == unpack_sum(recs_done)
                        + rec.unpack_size);
                } else {
                    assert(whole is None);
                }
            }
            return Err(MdictError::InvalidFormat(String::from_str("key info sizes overflow")));
        }
        let item = crate::types::KeyInfoItem {
            first_key,
            last_key,
            key_block_pack_size: pack,
            key_block_pack_accumulator: pack_accu,
            key_block_unpack_size: unpack,
            key_block_unpack_accumulator: unpack_accu,
            key_block_entries_num: entries,
            key_block_entries_num_accumulator: entries_accu,
            key_block_info_index: i,
        };
        items.push(item);
        proof {
            assert(recs_done.push(rec).drop_last() =~= recs_done);
            if tail2 is Some {
                assert((recs_done + (seq![rec] + tail2.unwrap())) =~= (recs_done.push(rec)
                    + tail2.unwrap()));
            }
            recs_done = recs_done.push(rec);
        }
        entries_accu = entries_accu + entries;
        pack_accu = pack_accu + pack;
        unpack_accu = unpack_accu + unpack;
        off = new_off;
        i = i + 1;
    }
    proof {
        assert(parse_key_info(buf@, off as int, 0, w as nat, v2, utf16, enc) == Some(
            Seq::<KeyInfoRec>::empty(),
        ));
        assert(recs_done + Seq::<KeyInfoRec>::empty() =~= recs_done);
        assert(whole == Some(recs_done));
    }
    Ok(items)
}

// ---------------------------------------------------------------------------
// Record header and record-info table
// ---------------------------------------------------------------------------

/// The record header: four width-sized big-endian fields.
pub open spec fn record_header_ok(
    data: Seq<u8>,
    off: int,
    w: int,
    rh: crate::types::RecordHeader,
) -> bool {
    &&& 0 <= off
    &&& off + 4 * w <= data.len()
    &&& rh.record_blocks_num as nat == utils::be_uint(data.subrange(off, off + w))
    &&& rh.entries_num as nat == utils::be_uint(data.subrange(off + w, off + 2 * w))
    &&& rh.record_info_comp_size as nat == utils::be_uint(data.subrange(off + 2 * w, off + 3 * w))
    &&& rh.record_block_comp_size as nat == utils::be_uint(data.subrange(off + 3 * w, off + 4 * w))
}

/// Read the record header at `off`.
fn read_record_header(data: &Vec<u8>, off: u64, w: usize) -> (r: Result<
    crate::types::RecordHeader,
    MdictError,
>)
    requires
        w == 4 || w == 8,
    ensures
        match r {
            Ok(rh) => record_header_ok(data@, off as int, w as int, rh),
            Err(e) => e is Io && off + 4 * w > data@.len(),
        },
{
    let buf = match read_buffer(data, off, 4 * w) {
        Ok(b) => b,
        Err(e) => {
            return Err(e);
        },
    };
    let b1 = utils::bytes_range(buf.as_slice(), 0, w);
    let b2 = utils::bytes_range(buf.as_slice(), w, 2 * w);
    let b3 = utils::bytes_range(buf.as_slice(), 2 * w, 3 * w);
    let b4 = utils::bytes_range(buf.as_slice(), 3 * w, 4 * w);
    let rh = crate::types::RecordHeader {
        record_blocks_num: utils::bytes_to_number(b1.as_slice()),
        entries_num: utils::bytes_to_number(b2.as_slice()),
        record_info_comp_size: utils::bytes_to_number(b3.as_slice()),
        record_block_comp_size: utils::bytes_to_number(b4.as_slice()),
    };
    proof {
        let d = data@;
        let o = off as int;
        let wi = w as int;
        assert(buf@.subrange(0, wi) =~= d.subrange(o, o + wi));
        assert(buf@.subrange(wi, 2 * wi) =~= d.subrange(o + wi, o + 2 * wi));
        assert(buf@.subrange(2 * wi, 3 * wi) =~= d.subrange(o + 2 * wi, o + 3 * wi));
        assert(buf@.subrange(3 * wi, 4 * wi) =~= d.subrange(o + 3 * wi, o + 4 * wi));
    }
    Ok(rh)
}

/// Parse `n` record-info pairs (pack size, unpack size) from `buf` at `off`.
pub open spec fn parse_record_info(buf: Seq<u8>, off: int, n: nat, w: nat) -> Option<
    Seq<(nat, nat)>,
>
    decreases n,
{
    if n == 0 {
        Some(Seq::<(nat, nat)>::empty())
    } else if !(0 <= off && off + 2 * w <= buf.len()) {
        None
    } else {
        let pack = utils::be_uint(buf.subrange(off, off + w));
        let unpack = utils::be_uint(buf.subrange(off + w, off + 2 * w));
        match parse_record_info(buf, off + 2 * w, (n - 1) as nat, w) {
            Some(rest) => Some(seq![(pack, unpack)] + rest),
            None => None,
        }
    }
}

/// Sum of the compressed sizes of record-info pairs.
pub open spec fn ri_pack_sum(recs: Seq<(nat, nat)>) -> nat
    decreases recs.len(),
{
    if recs.len() == 0 {
        0
    } else {
        ri_pack_sum(recs.drop_last()) + recs.last().0
    }
}

/// Sum of the decompressed sizes of record-info pairs.
pub open spec fn ri_unpack_sum(recs: Seq<(nat, nat)>) -> nat
    decreases recs.len(),
{
    if recs.len() == 0 {
        0
    } else {
        ri_unpack_sum(recs.drop_last()) + recs.last().1
    }
}

pub proof fn lemma_ri_sums_prefix(recs: Seq<(nat, nat)>, k: int)
    requires
        0 <= k <= recs.len(),
    ensures
        ri_pack_sum(recs.take(k)) <= ri_pack_sum(recs),
        ri_unpack_sum(recs.take(k)) <= ri_unpack_sum(recs),
    decreases recs.len(),
{
    if k < recs.len() {
        lemma_ri_sums_prefix(recs.drop_last(), k);
        assert(recs.drop_last().take(k) =~= recs.take(k));
    } else {
        assert(recs.take(k) =~= recs);
    }
}

/// How record-info items relate to their parsed image: sizes match and the
/// accumulators hold the running sums of everything before.
pub open spec fn record_info_items_ok(
    items: Seq<crate::types::RecordInfo>,
    recs: Seq<(nat, nat)>,
) -> bool {
    &&& items.len() == recs.len()
    &&& forall|k: int|
        0 <= k < items.len() ==> {
            let it = #[trigger] items[k];
            &&& it.pack_size as nat == recs[k].0
            &&& it.unpack_size as nat == recs[k].1
        }
    &&& items.len() > 0 ==> items[0].pack_accumulate_offset == 0
        && items[0].unpack_accumulate_offset == 0
    &&& forall|k: int|
        0 < k < items.len() ==> {
            let it = #[trigger] items[k];
            &&& it.pack_accumulate_offset as nat == items[k - 1].pack_accumulate_offset as nat
                + items[k - 1].pack_size as nat
            &&& it.unpack_accumulate_offset as nat == items[k - 1].unpack_accumulate_offset as nat
                + items[k - 1].unpack_size as nat
        }
}

/// The sums a record-info decode must accumulate overflow 64 bits.
pub open spec fn record_info_sums_overflow(r: Option<Seq<(nat, nat)>>) -> bool {
    match r {
        None => true,
        Some(recs) => ri_pack_sum(recs) > u64::MAX || ri_unpack_sum(recs) > u64::MAX,
    }
}

/// Decode the record-info table: one (pack, unpack) size pair per record
/// block, with running sums in both address spaces.
fn decode_record_info(buf: &Vec<u8>, num_blocks: usize, w: usize) -> (r: Result<
    Vec<crate::types::RecordInfo>,
    MdictError,
>)
    requires
        w == 4 || w == 8,
    ensures
        match r {
            Ok(items) => match parse_record_info(buf@, 0, num_blocks as nat, w as nat) {
                Some(recs) => record_info_items_ok(items@, recs),
                None => false,
            },
            Err(e) => record_info_sums_overflow(
                parse_record_info(buf@, 0, num_blocks as nat, w as nat),
            ) && e is InvalidFormat,
        },
{
    let blen = buf.len();
    let mut items: Vec<crate::types::RecordInfo> = Vec::new();
    let ghost mut recs_done: Seq<(nat, nat)> = Seq::empty();
    let mut off: usize = 0;
    let mut i: usize = 0;
    let mut pack_accu: u64 = 0;
    let mut unpack_accu: u64 = 0;
    let ghost whole = parse_record_info(buf@, 0, num_blocks as nat, w as nat);
    proof {
        if whole is Some {
            assert(recs_done + whole.unwrap() =~= whole.unwrap());
        }
    }
    while i < num_blocks
        invariant
            w == 4 || w == 8,
            i <= num_blocks,
            off <= blen,
            blen == buf@.len(),
            whole == parse_record_info(buf@, 0, num_blocks as nat, w as nat),
            match parse_record_info(buf@, off as int, (num_blocks - i) as nat, w as nat) {
                Some(rest) => whole == Some(recs_done + rest),
                None => whole is None,
            },
            i == recs_done.len(),
            items@.len() == i,
            record_info_items_ok(items@, recs_done),
            pack_accu as nat == ri_pack_sum(recs_done),
            unpack_accu as nat == ri_unpack_sum(recs_done),
            i > 0 ==> pack_accu as nat == items@[i - 1].pack_accumulate_offset as nat + items@[i
                - 1].pack_size as nat && unpack_accu as nat == items@[i
                - 1].unpack_accumulate_offset as nat + items@[i - 1].unpack_size as nat,
            i == 0 ==> pack_accu == 0 && unpack_accu == 0,
        decreases num_blocks - i,
    {
        let ghost rem = (num_blocks - i) as nat;
        if 2 * w > blen - off {
            return Err(MdictError::InvalidFormat(String::from_str("record info truncated")));
        }
        let pb = utils::bytes_range(buf.as_slice(), off, off + w);
        let pack = utils::bytes_to_number(pb.as_slice());
        let ub = utils::bytes_range(buf.as_slice(), off + w, off + 2 * w);
        let unpack = utils::bytes_to_number(ub.as_slice());
        let ghost rec = (pack as nat, unpack as nat);
        let ghost tail = parse_record_info(buf@, off as int, rem, w as nat);
        let ghost tail2 = parse_record_info(buf@, (off + 2 * w) as int, (rem - 1) as nat, w as nat);
        proof {
            assert(pb@.len() == w && ub@.len() == w);
            assert(pack as nat == utils::be_uint(buf@.subrange(off as int, off + w)));
            assert(unpack as nat == utils::be_uint(buf@.subrange(off + w, off + 2 * w)));
            if tail2 is Some {
                assert(tail == Some(seq![rec] + tail2.unwrap()));
            } else {
                assert(tail is None);
            }
        }
        if pack > u64::MAX - pack_accu || unpack > u64::MAX - unpack_accu {
            proof {
                if tail2 is Some {
                    let all = whole.unwrap();
                    assert(whole == Some(recs_done + (seq![rec] + tail2.unwrap())));
                    assert(all.take(i + 1) =~= recs_done.push(rec));
                    lemma_ri_sums_prefix(all, i + 1);
                    assert(recs_done.push(rec).drop_last() =~= recs_done);
                } else {
                    assert(whole is None);
                }
            }
            return Err(MdictError::InvalidFormat(String::from_str("record info sizes overflow")));
        }
        let item = crate::types::RecordInfo {
            pack_size: pack,
            pack_accumulate_offset: pack_accu,
            unpack_size: unpack,
            unpack_accumulate_offset: unpack_accu,
        };
        items.push(item);
        proof {
            assert(recs_done.push(rec).drop_last() =~= recs_done);
            if tail2 is Some {
                assert((recs_done + (seq![rec] + tail2.unwrap())) =~= (recs_done.push(rec)
                    + tail2.unwrap()));
            }
            recs_done = recs_done.push(rec);
        }
        pack_accu = pack_accu + pack;
        unpack_accu = unpack_accu + unpack;
        off = off + 2 * w;
        i = i + 1;
    }
    proof {
        assert(parse_record_info(buf@, off as int, 0, w as nat) == Some(
            Seq::<(nat, nat)>::empty(),
        ));
        assert(recs_done + Seq::<(nat, nat)>::empty() =~= recs_done);
        assert(whole == Some(recs_done));
    }
    Ok(items)
}


// ---------------------------------------------------------------------------
// Key blocks
// ---------------------------------------------------------------------------

/// Position of the next NUL terminator at or after `i`, stepping by the
/// charset's NUL width (two zero bytes for UTF-16 and MDD, one otherwise).
pub open spec fn find_nul(block: Seq<u8>, i: int, width: nat) -> Option<int>
    decreases block.len() - i,
    when 0 <= i && 1 <= width
{
    if i >= block.len() {
        None
    } else if width == 1 {
        if block[i] == 0 {
            Some(i)
        } else {
            find_nul(block, i + 1, width)
        }
    } else {
        if i + 1 < block.len() && block[i] == 0 && block[i + 1] == 0 {
            Some(i)
        } else if i + width >= block.len() {
            None
        } else {
            find_nul(block, i + width, width)
        }
    }
}

pub proof fn lemma_find_nul_bounds(block: Seq<u8>, i: int, width: nat)
    requires
        0 <= i,
        1 <= width,
    ensures
        match find_nul(block, i, width) {
            Some(e) => i <= e < block.len(),
            None => true,
        },
    decreases block.len() - i,
{
    if i < block.len() {
        if width == 1 {
            if block[i] != 0 {
                lemma_find_nul_bounds(block, i + 1, width);
            }
        } else {
            if !(i + 1 < block.len() && block[i] == 0 && block[i + 1] == 0) && i + width
                < block.len() {
                lemma_find_nul_bounds(block, i + width, width);
            }
        }
    }
}

/// Ghost image of one keyword parsed from a key block.
pub ghost struct KeyEntryRec {
    pub record_start: nat,
    pub key_text: Seq<char>,
}

/// Parse the keywords of a decompressed key block from `off`: a
/// `w`-byte big-endian record offset, then a NUL-terminated key.  The walk
/// stops at a truncated entry or a missing terminator.
pub open spec fn parse_key_block(block: Seq<u8>, off: int, w: nat, width: nat, enc: Encoding) -> Seq<
    KeyEntryRec,
>
    decreases block.len() - off,
    when 0 <= off && 1 <= width && 1 <= w
    via parse_key_block_decreases
{
    if off >= block.len() || off + w > block.len() {
        Seq::<KeyEntryRec>::empty()
    } else {
        let start = utils::be_uint(block.subrange(off, off + w));
        match find_nul(block, off + w, width) {
            None => Seq::<KeyEntryRec>::empty(),
            Some(e) => {
                let rec = KeyEntryRec {
                    record_start: start,
                    key_text: utils::key_text_of(block.subrange(off + w, e), enc),
                };
                if e + width >= block.len() {
                    seq![rec]
                } else {
                    seq![rec] + parse_key_block(block, e + width, w, width, enc)
                }
            },
        }
    }
}

#[via_fn]
proof fn parse_key_block_decreases(block: Seq<u8>, off: int, w: nat, width: nat, enc: Encoding) {
    if 0 <= off && off + w <= block.len() && off < block.len() {
        lemma_find_nul_bounds(block, off + w, width);
    }
}

/// How keyword items relate to a block's parsed image.
pub open spec fn kws_match_block(
    items: Seq<crate::types::KeyWordItem>,
    recs: Seq<KeyEntryRec>,
    idx: int,
) -> bool {
    &&& items.len() == recs.len()
    &&& forall|k: int|
        0 <= k < items.len() ==> {
            let it = #[trigger] items[k];
            &&& it.record_start_offset as nat == recs[k].record_start
            &&& it.record_end_offset == 0
            &&& it.key_text@ == recs[k].key_text
            &&& it.key_block_idx == idx
        }
}

/// Find the next NUL terminator starting at `i`.
fn find_nul_at(block: &Vec<u8>, i: usize, width: usize) -> (r: Option<usize>)
    requires
        width == 1 || width == 2,
    ensures
        match r {
            Some(e) => find_nul(block@, i as int, width as nat) == Some(e as int) && i <= e
                < block@.len(),
            None => find_nul(block@, i as int, width as nat) is None,
        },
{
    let n = block.len();
    let mut j: usize = i;
    loop
        invariant
            width == 1 || width == 2,
            i <= j,
            n == block@.len(),
            find_nul(block@, i as int, width as nat) == find_nul(block@, j as int, width as nat),
        decreases n - j,
    {
        if j >= n {
            return None;
        }
        if width == 1 {
            if block[j] == 0 {
                return Some(j);
            }
            j = j + 1;
        } else {
            if j + 1 < n && block[j] == 0 && block[j + 1] == 0 {
                return Some(j);
            }
            if width > n - j {
                proof {
                    assert(find_nul(block@, j as int, width as nat) == find_nul(
                        block@,
                        j + width,
                        width as nat,
                    ));
                }
                return None;
            }
            j = j + width;
        }
    }
}

/// Split a decompressed key block into its keyword items, each tagged with
/// the block's index; end offsets stay zero until the sort fix-up.
fn split_key_block(
    block: &Vec<u8>,
    key_block_idx: usize,
    w: usize,
    width: usize,
    enc: Encoding,
) -> (r: Vec<crate::types::KeyWordItem>)
    requires
        w == 4 || w == 8,
        width == 1 || width == 2,
    ensures
        kws_match_block(
            r@,
            parse_key_block(block@, 0, w as nat, width as nat, enc),
            key_block_idx as int,
        ),
{
    let n = block.len();
    let mut items: Vec<crate::types::KeyWordItem> = Vec::new();
    let ghost mut recs_done: Seq<KeyEntryRec> = Seq::empty();
    let ghost whole = parse_key_block(block@, 0, w as nat, width as nat, enc);
    let mut off: usize = 0;
    proof {
        assert(recs_done + whole =~= whole);
    }
    loop
        invariant_except_break
            whole == recs_done + parse_key_block(block@, off as int, w as nat, width as nat, enc),
        invariant
            w == 4 || w == 8,
            width == 1 || width == 2,
            n == block@.len(),
            off <= n + 2,
            whole == parse_key_block(block@, 0, w as nat, width as nat, enc),
            items@.len() == recs_done.len(),
            kws_match_block(items@, recs_done, key_block_idx as int),
        ensures
            whole == recs_done,
            kws_match_block(items@, recs_done, key_block_idx as int),
        decreases n + 2 - off,
    {
        let ghost tail = parse_key_block(block@, off as int, w as nat, width as nat, enc);
        if off >= n || w > n - off {
            proof {
                assert(tail =~= Seq::<KeyEntryRec>::empty());
                assert(recs_done + tail =~= recs_done);
            }
            break;
        }
        let ob = utils::bytes_range(block.as_slice(), off, off + w);
        let start = utils::bytes_to_number(ob.as_slice());
        let e = match find_nul_at(block, off + w, width) {
            Some(e) => e,
            None => {
                proof {
                    assert(tail =~= Seq::<KeyEntryRec>::empty());
                    assert(recs_done + tail =~= recs_done);
                }
                break;
            },
        };
        let kb = utils::bytes_range(block.as_slice(), off + w, e);
        let key_text = utils::decode_key_text(kb.as_slice(), enc);
        let ghost rec = KeyEntryRec { record_start: start as nat, key_text: key_text@ };
        let item = crate::types::KeyWordItem {
            record_start_offset: start,
            record_end_offset: 0,
            key_text,
            key_block_idx,
        };
        items.push(item);
        proof {
            assert(ob@.len() == w);
            assert(start as nat == utils::be_uint(block@.subrange(off as int, off + w)));
            assert(key_text@ == utils::key_text_of(block@.subrange(off + w, e as int), enc));
            if e + width >= n {
                assert(tail =~= seq![rec]);
            } else {
                assert(tail =~= seq![rec] + parse_key_block(
                    block@,
                    e + width,
                    w as nat,
                    width as nat,
                    enc,
                ));
            }
            assert(recs_done + tail =~= (recs_done.push(rec)) + (if e + width >= n {
                Seq::<KeyEntryRec>::empty()
            } else {
                parse_key_block(block@, e + width, w as nat, width as nat, enc)
            }));
            recs_done = recs_done.push(rec);
        }
        if width >= n - e {
            proof {
                assert(whole == recs_done);
            }
            break;
        }
        off = e + width;
    }
    items
}

/// What a successful key-block decompression returns, per the block's
/// 4-byte compression code.
pub open spec fn unpack_ok(packed: Seq<u8>, sz: nat, out: Seq<u8>) -> bool {
    &&& packed.len() >= 8
    &&& match crate::types::CompressionType::spec_from_bytes(packed) {
        Some(crate::types::CompressionType::Uncompressed) => out == packed.skip(8),
        Some(crate::types::CompressionType::Lzo) => crate::lzo::lzo_output_ok(
            packed.skip(8),
            sz,
            out,
        ),
        Some(crate::types::CompressionType::Zlib) => Some(out) == shims::zlib_of(packed.skip(8)),
        None => false,
    }
}

/// The conditions under which a key-block decompression fails.
pub open spec fn unpack_fail(packed: Seq<u8>, sz: nat) -> bool {
    ||| packed.len() < 8
    ||| match crate::types::CompressionType::spec_from_bytes(packed) {
        None => true,
        Some(crate::types::CompressionType::Uncompressed) => false,
        Some(crate::types::CompressionType::Lzo) => crate::lzo::lzo_decompress_spec(
            packed.skip(8),
            sz,
        ) is None,
        Some(crate::types::CompressionType::Zlib) => shims::zlib_of(packed.skip(8)) is None,
    }
}

/// Unpack one key block, by its 4-byte compression code.
fn unpack_key_block(packed: &Vec<u8>, unpack_size: usize) -> (r: Result<Vec<u8>, MdictError>)
    requires
        unpack_size <= usize::MAX - 1024,
    ensures
        match r {
            Ok(v) => unpack_ok(packed@, unpack_size as nat, v@),
            Err(e) => unpack_fail(packed@, unpack_size as nat) && ((e is InvalidCompressionType)
                <==> (packed@.len() >= 8 && crate::types::CompressionType::spec_from_bytes(
                packed@,
            ) is None)) && (e matches MdictError::InvalidCompressionType(c) ==> c
                == crate::ripemd128::le32_at(packed@, 0)) && !(e
                is EncryptedFileRequiresPasscode),
        },
{
    let n = packed.len();
    if n < 8 {
        return Err(MdictError::InvalidFormat(String::from_str("block too short")));
    }
    let comp = crate::types::CompressionType::from_bytes(packed.as_slice());
    match comp {
        Option::None => {
            let code = (packed[0] as u32) + (packed[1] as u32) * 0x100 + (packed[2] as u32)
                * 0x10000 + (packed[3] as u32) * 0x1000000;
            Err(MdictError::InvalidCompressionType(code))
        },
        Option::Some(crate::types::CompressionType::Uncompressed) => {
            Ok(utils::bytes_range(packed.as_slice(), 8, n))
        },
        Option::Some(crate::types::CompressionType::Lzo) => {
            let payload = utils::bytes_range(packed.as_slice(), 8, n);
            crate::lzo::decompress(payload.as_slice(), unpack_size)
        },
        Option::Some(crate::types::CompressionType::Zlib) => {
            let payload = utils::bytes_range(packed.as_slice(), 8, n);
            match shims::zlib_inflate(payload.as_slice()) {
                Some(v) => Ok(v),
                None => Err(
                    MdictError::DecompressionError(String::from_str("zlib stream rejected")),
                ),
            }
        },
    }
}


// ---------------------------------------------------------------------------
// Outer header
// ---------------------------------------------------------------------------

/// What a parsed outer header states: the 4-byte length, the UTF-16LE text
/// decoded without errors, the attribute list with its two defaults, and the
/// metadata derived from it.
pub open spec fn header_ok(
    data: Seq<u8>,
    ext: FileExt,
    attrs: Seq<(Seq<char>, Seq<char>)>,
    meta: DictMeta,
    strip: bool,
    ci: bool,
    end: int,
) -> bool {
    &&& data.len() >= 4
    &&& {
        let hlen = utils::be_uint(data.subrange(0, 4)) as int;
        &&& 4 + hlen <= data.len()
        &&& end == hlen + 8
        &&& {
            let p = shims::utf16le_of(data.subrange(4, 4 + hlen));
            &&& !p.1
            &&& {
                let base = utils::header_attrs_spec(p.0);
                let h1 = if attrs_get(base, "KeyCaseSensitive"@) is None {
                    base.push(("KeyCaseSensitive"@, "No"@))
                } else {
                    base
                };
                let h2 = if attrs_get(h1, "StripKey"@) is None {
                    h1.push(("StripKey"@, "Yes"@))
                } else {
                    h1
                };
                &&& attrs == h2
                &&& meta.encrypt == encrypt_spec(attrs_get(h2, "Encrypted"@))
                &&& {
                    let vv = match attrs_get(h2, "GeneratedByEngineVersion"@) {
                        Some(vs) => version_spec(vs),
                        None => (1nat, 2nat),
                    };
                    meta.version_major as nat == vv.0 && meta.version_minor as nat == vv.1
                }
                &&& meta.num_width == (if meta.version_major >= 2 {
                    8int
                } else {
                    4int
                })
                &&& (meta.num_fmt is Uint64) == (meta.version_major >= 2)
                &&& meta.encoding == encoding_spec(attrs_get(h2, "Encoding"@), ext)
                &&& meta.ext == ext
                &&& meta.passcode is None
                &&& strip == (attrs_get(h2, "StripKey"@) == Some("Yes"@))
                &&& ci == (attrs_get(h2, "KeyCaseSensitive"@) == Some("No"@))
            }
        }
    }
}

/// Read the outer header: length, UTF-16LE text, attributes, defaults, and
/// the derived metadata.  The trailing checksum is skipped, not verified.
#[verifier::rlimit(50)]
fn read_header(data: &Vec<u8>, ext: FileExt) -> (r: Result<
    (Vec<(String, String)>, DictMeta, bool, bool, u64),
    MdictError,
>)
    ensures
        match r {
            Ok(p) => header_ok(data@, ext, attrs_view(p.0@), p.1, p.2, p.3, p.4 as int),
            Err(e) => (data@.len() < 4 || 4 + utils::be_uint(data@.subrange(0, 4)) > data@.len()
                || shims::utf16le_of(
                data@.subrange(4, 4 + utils::be_uint(data@.subrange(0, 4)) as int),
            ).1) && !(e is EncryptedFileRequiresPasscode),
        },
{
    let szbuf = match read_buffer(data, 0, 4) {
        Ok(b) => b,
        Err(e) => {
            return Err(e);
        },
    };
    let hlen64 = utils::bytes_to_number(szbuf.as_slice());
    proof {
        utils::lemma_be_uint_bound(szbuf@);
        reveal_with_fuel(utils::pow256, 5);
        assert(szbuf@.take(4) =~= szbuf@);
        assert(szbuf@ =~= data@.subrange(0, 4));
    }
    let hlen = hlen64 as usize;
    let hbuf = match read_buffer(data, 4, hlen) {
        Ok(b) => b,
        Err(e) => {
            return Err(e);
        },
    };
    let text = match utils::decode_utf16le(hbuf.as_slice()) {
        Ok(t) => t,
        Err(e) => {
            return Err(e);
        },
    };
    let mut header = utils::parse_header(text.as_str());
    proof {
        assert(attrs_view(header@) =~= utils::header_attrs_spec(text@));
    }
    if header_get(&header, "KeyCaseSensitive").is_none() {
        let ghost pre = header@;
        header.push((String::from_str("KeyCaseSensitive"), String::from_str("No")));
        proof {
            assert(attrs_view(header@) =~= attrs_view(pre).push(
                ("KeyCaseSensitive"@, "No"@),
            ));
        }
    }
    if header_get(&header, "StripKey").is_none() {
        let ghost pre = header@;
        header.push((String::from_str("StripKey"), String::from_str("Yes")));
        proof {
            assert(attrs_view(header@) =~= attrs_view(pre).push(("StripKey"@, "Yes"@)));
        }
    }
    let encrypted = header_get(&header, "Encrypted");
    let encrypt = parse_encrypt(&encrypted);
    let version_attr = header_get(&header, "GeneratedByEngineVersion");
    let (vmaj, vmin) = match &version_attr {
        Some(vs) => parse_version(vs.as_str()),
        None => (1, 2),
    };
    let num_width: usize = if vmaj >= 2 {
        8
    } else {
        4
    };
    let num_fmt = if vmaj >= 2 {
        NumFmt::Uint64
    } else {
        NumFmt::Uint32
    };
    let encoding_attr = header_get(&header, "Encoding");
    let encoding = parse_encoding(&encoding_attr, ext);
    let strip = match header_get(&header, "StripKey") {
        Some(v) => utils::str_eq(v.as_str(), "Yes"),
        None => false,
    };
    let ci = match header_get(&header, "KeyCaseSensitive") {
        Some(v) => utils::str_eq(v.as_str(), "No"),
        None => false,
    };
    let meta = DictMeta {
        version_major: vmaj,
        version_minor: vmin,
        encoding,
        encrypt,
        num_fmt,
        num_width,
        ext,
        passcode: None,
    };
    let end: u64 = hlen64 + 8;
    Ok((header, meta, strip, ci, end))
}

// ---------------------------------------------------------------------------
// Key-info blob transformation
// ---------------------------------------------------------------------------

/// The key-info bytes after the v2.0+ decrypt-and-inflate steps: the
/// compression kind is sniffed from the raw first bytes, decryption (when
/// the header declares it) keeps the 8-byte prefix, and a zlib blob is
/// inflated from byte 8.
pub open spec fn key_info_blob(raw: Seq<u8>, v2: bool, encrypted: bool) -> Option<Seq<u8>> {
    if !v2 {
        Some(raw)
    } else {
        let dec = if encrypted {
            utils::mdx_decrypt_spec(raw)
        } else {
            raw
        };
        if crate::types::CompressionType::spec_from_bytes(raw) == Some(
            crate::types::CompressionType::Zlib,
        ) {
            if dec.len() >= 8 {
                shims::zlib_of(dec.skip(8))
            } else {
                None
            }
        } else {
            Some(dec)
        }
    }
}

/// The key-info phase failures at `off`: a size beyond the machine, a
/// read outside the file, a zlib-compressed table that is too short or
/// rejected, or a table that does not parse or whose running sums
/// overflow.
pub open spec fn key_info_phase_fail(
    data: Seq<u8>,
    off: int,
    psz: nat,
    nb: nat,
    w: nat,
    enc: Encoding,
    encrypted: bool,
) -> bool {
    let raw = data.subrange(off, off + psz);
    let v2 = w == 8;
    let dec = if encrypted {
        utils::mdx_decrypt_spec(raw)
    } else {
        raw
    };
    ||| psz > usize::MAX
    ||| off + psz > data.len()
    ||| (v2 && crate::types::CompressionType::spec_from_bytes(raw) == Some(
        crate::types::CompressionType::Zlib,
    ) && dec.len() < 8)
    ||| key_info_blob(raw, v2, encrypted) is None
    ||| nb > usize::MAX
    ||| match key_info_blob(raw, v2, encrypted) {
        Some(blob) => key_info_sums_overflow(
            parse_key_info(blob, 0, nb, w, v2, enc is Utf16Le, enc),
        ),
        None => true,
    }
}

/// Read and decode the key-info table at `off`.
fn read_key_infos(data: &Vec<u8>, meta: &DictMeta, kh: &crate::types::KeyHeader, off: u64) -> (r:
    Result<(Vec<crate::types::KeyInfoItem>, u64), MdictError>)
    requires
        meta.num_width == 4 || meta.num_width == 8,
    ensures
        match r {
            Ok(p) => {
                &&& off + kh.key_info_packed_size <= data@.len()
                &&& p.1 == off + kh.key_info_packed_size
                &&& match key_info_blob(
                    data@.subrange(off as int, off as int + kh.key_info_packed_size as int),
                    meta.num_width == 8,
                    meta.encrypt is KeyInfoBlock,
                ) {
                    Some(blob) => match parse_key_info(
                        blob,
                        0,
                        kh.keyword_blocks_num as nat,
                        meta.num_width as nat,
                        meta.num_width == 8,
                        meta.encoding is Utf16Le,
                        meta.encoding,
                    ) {
                        Some(recs) => key_info_items_ok(p.0@, recs),
                        None => false,
                    },
                    None => false,
                }
            },
            Err(e) => key_info_phase_fail(
                data@,
                off as int,
                kh.key_info_packed_size as nat,
                kh.keyword_blocks_num as nat,
                meta.num_width as nat,
                meta.encoding,
                meta.encrypt is KeyInfoBlock,
            ) && !(e is EncryptedFileRequiresPasscode),
        },
{
    let ghost gpsz = kh.key_info_packed_size as nat;
    let ghost gnb = kh.keyword_blocks_num as nat;
    let ghost graw = data@.subrange(off as int, off as int + kh.key_info_packed_size as int);
    if kh.key_info_packed_size > usize::MAX as u64 {
        return Err(MdictError::InvalidFormat(String::from_str("key info size out of range")));
    }
    let psz = kh.key_info_packed_size as usize;
    let mut buf = match read_buffer(data, off, psz) {
        Ok(b) => b,
        Err(e) => {
            return Err(e);
        },
    };
    let ghost raw = buf@;
    proof {
        assert(raw == graw);
    }
    let v2 = meta.num_width == 8;
    if v2 {
        let comp = crate::types::CompressionType::from_bytes(buf.as_slice());
        if meta.encrypt == EncryptType::KeyInfoBlock {
            buf = utils::mdx_decrypt(buf.as_slice());
        }
        if comp == Some(crate::types::CompressionType::Zlib) {
            if buf.len() < 8 {
                return Err(MdictError::InvalidFormat(String::from_str("key info too short")));
            }
            let payload = utils::bytes_range(buf.as_slice(), 8, buf.len());
            buf = match shims::zlib_inflate(payload.as_slice()) {
                Some(v) => v,
                None => {
                    return Err(
                        MdictError::DecompressionError(String::from_str("zlib stream rejected")),
                    );
                },
            };
        }
    }
    proof {
        assert(key_info_blob(graw, meta.num_width == 8, meta.encrypt is KeyInfoBlock) == Some(
            buf@,
        ));
    }
    if kh.keyword_blocks_num > usize::MAX as u64 {
        return Err(MdictError::InvalidFormat(String::from_str("block count out of range")));
    }
    let nb = kh.keyword_blocks_num as usize;
    let utf16 = meta.encoding == Encoding::Utf16Le;
    let items = match decode_key_info(&buf, nb, meta.num_width, v2, utf16, meta.encoding) {
        Ok(it) => it,
        Err(e) => {
            return Err(e);
        },
    };
    let dn = data.len();
    proof {
        assert(off + kh.key_info_packed_size <= dn);
    }
    Ok((items, off + kh.key_info_packed_size))
}

// ---------------------------------------------------------------------------
// Key blocks: read, unpack, split
// ---------------------------------------------------------------------------

/// The compressed bytes of key block `ki` in the run starting at `start`.
pub open spec fn block_region(data: Seq<u8>, start: int, ki: crate::types::KeyInfoItem) -> Seq<u8> {
    data.subrange(
        start + ki.key_block_pack_accumulator as int,
        start + ki.key_block_pack_accumulator as int + ki.key_block_pack_size as int,
    )
}

/// Every key block's compressed region lies in the file and `ups` holds its
/// decompressed bytes.
pub open spec fn blocks_ok(
    data: Seq<u8>,
    start: int,
    kis: Seq<crate::types::KeyInfoItem>,
    ups: Seq<Seq<u8>>,
) -> bool {
    &&& ups.len() == kis.len()
    &&& forall|i: int|
        0 <= i < kis.len() ==> {
            let ki = #[trigger] kis[i];
            &&& 0 <= start
            &&& start + ki.key_block_pack_accumulator as int + ki.key_block_pack_size as int
                <= data.len()
            &&& unpack_ok(
                block_region(data, start, ki),
                ki.key_block_unpack_size as nat,
                ups[i],
            )
        }
}

/// The keyword items of the blocks `ups`, blocks numbered from `bidx`, laid
/// end to end.
pub open spec fn kws_match_all(
    items: Seq<crate::types::KeyWordItem>,
    ups: Seq<Seq<u8>>,
    bidx: int,
    w: nat,
    width: nat,
    enc: Encoding,
) -> bool
    decreases ups.len(),
{
    if ups.len() == 0 {
        items.len() == 0
    } else {
        let recs = parse_key_block(ups[0], 0, w, width, enc);
        &&& items.len() >= recs.len()
        &&& kws_match_block(items.take(recs.len() as int), recs, bidx)
        &&& kws_match_all(items.skip(recs.len() as int), ups.skip(1), bidx + 1, w, width, enc)
    }
}

/// Appending one more block's keywords extends the laid-out match.
pub proof fn lemma_kws_match_all_snoc(
    items: Seq<crate::types::KeyWordItem>,
    ups: Seq<Seq<u8>>,
    bidx: int,
    w: nat,
    width: nat,
    enc: Encoding,
    bi: Seq<crate::types::KeyWordItem>,
    up: Seq<u8>,
)
    requires
        1 <= w,
        1 <= width,
        kws_match_all(items, ups, bidx, w, width, enc),
        kws_match_block(bi, parse_key_block(up, 0, w, width, enc), bidx + ups.len()),
    ensures
        kws_match_all(items + bi, ups.push(up), bidx, w, width, enc),
    decreases ups.len(),
{
    if ups.len() == 0 {
        assert(items.len() == 0);
        assert(items + bi =~= bi);
        assert(ups.push(up)[0] == up);
        let recs = parse_key_block(up, 0, w, width, enc);
        assert((items + bi).take(recs.len() as int) =~= bi.take(recs.len() as int));
        assert(bi.take(recs.len() as int) =~= bi);
        let tail_items = (items + bi).skip(recs.len() as int);
        assert(tail_items =~= Seq::<crate::types::KeyWordItem>::empty());
        assert(ups.push(up).skip(1) =~= Seq::<Seq<u8>>::empty());
        assert(kws_match_all(tail_items, ups.push(up).skip(1), bidx + 1, w, width, enc)) by {
            assert(ups.push(up).skip(1).len() == 0);
            assert(tail_items.len() == 0);
        }
    } else {
        let recs0 = parse_key_block(ups[0], 0, w, width, enc);
        let n0 = recs0.len() as int;
        lemma_kws_match_all_snoc(items.skip(n0), ups.skip(1), bidx + 1, w, width, enc, bi, up);
        assert(ups.push(up)[0] == ups[0]);
        assert((items + bi).take(n0) =~= items.take(n0));
        assert((items + bi).skip(n0) =~= items.skip(n0) + bi);
        assert(ups.push(up).skip(1) =~= ups.skip(1).push(up));
        assert(kws_match_all(items.skip(n0) + bi, ups.skip(1).push(up), bidx + 1, w, width, enc));
        assert(kws_match_all(
            (items + bi).skip(n0),
            ups.push(up).skip(1),
            bidx + 1,
            w,
            width,
            enc,
        ));
    }
}

/// The ways reading key block `ki` can fail: sizes beyond the machine, an
/// offset that overflows, a region outside the file, or a rejected
/// decompression.
pub open spec fn block_item_fail(data: Seq<u8>, start: int, ki: crate::types::KeyInfoItem) -> bool {
    ||| ki.key_block_pack_size > usize::MAX
    ||| ki.key_block_unpack_size > usize::MAX - 1024
    ||| ki.key_block_pack_accumulator + ki.key_block_pack_size > u64::MAX
    ||| start + ki.key_block_pack_accumulator + ki.key_block_pack_size > u64::MAX
    ||| start + ki.key_block_pack_accumulator as int + ki.key_block_pack_size as int > data.len()
    ||| unpack_fail(block_region(data, start, ki), ki.key_block_unpack_size as nat)
}

/// Read, unpack and split every key block, in file order.
fn read_key_blocks(
    data: &Vec<u8>,
    start: u64,
    key_info_list: &Vec<crate::types::KeyInfoItem>,
    w: usize,
    width: usize,
    enc: Encoding,
) -> (r: Result<Vec<crate::types::KeyWordItem>, MdictError>)
    requires
        w == 4 || w == 8,
        width == 1 || width == 2,
    ensures
        match r {
            Ok(kws) => exists|ups: Seq<Seq<u8>>|
                blocks_ok(data@, start as int, key_info_list@, ups) && kws_match_all(
                    kws@,
                    ups,
                    0,
                    w as nat,
                    width as nat,
                    enc,
                ),
            Err(e) => (exists|i: int|
                0 <= i < key_info_list@.len() && #[trigger] block_item_fail(
                    data@,
                    start as int,
                    key_info_list@[i],
                )) && !(e is EncryptedFileRequiresPasscode),
        },
{
    let mut kws: Vec<crate::types::KeyWordItem> = Vec::new();
    let ghost mut ups: Seq<Seq<u8>> = Seq::empty();
    let nb = key_info_list.len();
    let mut i: usize = 0;
    while i < nb
        invariant
            w == 4 || w == 8,
            width == 1 || width == 2,
            i <= nb,
            nb == key_info_list@.len(),
            ups.len() == i,
            blocks_ok(data@, start as int, key_info_list@.take(i as int), ups),
            kws_match_all(kws@, ups, 0, w as nat, width as nat, enc),
        decreases nb - i,
    {
        let ki_pack_accu = key_info_list[i].key_block_pack_accumulator;
        let ki_pack_size = key_info_list[i].key_block_pack_size;
        let ki_unpack_size = key_info_list[i].key_block_unpack_size;
        if ki_pack_size > usize::MAX as u64 || ki_unpack_size > usize::MAX as u64 - 1024 {
            proof {
                assert(block_item_fail(data@, start as int, key_info_list@[i as int]));
            }
            return Err(MdictError::InvalidFormat(String::from_str("block size out of range")));
        }
        if ki_pack_accu > u64::MAX - ki_pack_size || start > u64::MAX - (ki_pack_accu
            + ki_pack_size) {
            proof {
                assert(block_item_fail(data@, start as int, key_info_list@[i as int]));
            }
            return Err(MdictError::Io(String::from_str("read past end of file")));
        }
        let packed = match read_buffer(data, start + ki_pack_accu, ki_pack_size as usize) {
            Ok(b) => b,
            Err(e) => {
                proof {
                    assert(block_item_fail(data@, start as int, key_info_list@[i as int]));
                }
                return Err(e);
            },
        };
        let unpacked = match unpack_key_block(&packed, ki_unpack_size as usize) {
            Ok(b) => b,
            Err(e) => {
                proof {
                    assert(packed@ =~= block_region(data@, start as int, key_info_list@[i as int]));
                    assert(block_item_fail(data@, start as int, key_info_list@[i as int]));
                }
                return Err(e);
            },
        };
        let mut items = split_key_block(&unpacked, i, w, width, enc);
        let ghost pre_kws = kws@;
        let ghost pre_items = items@;
        kws.append(&mut items);
        proof {
            assert(packed@ =~= block_region(data@, start as int, key_info_list@[i as int]));
            lemma_kws_match_all_snoc(
                pre_kws,
                ups,
                0,
                w as nat,
                width as nat,
                enc,
                pre_items,
                unpacked@,
            );
            ups = ups.push(unpacked@);
            assert(key_info_list@.take(i + 1).drop_last() =~= key_info_list@.take(i as int));
            assert forall|k: int| 0 <= k < i + 1 implies {
                let ki = #[trigger] key_info_list@.take(i + 1)[k];
                &&& 0 <= start as int
                &&& start as int + ki.key_block_pack_accumulator as int
                    + ki.key_block_pack_size as int <= data@.len()
                &&& unpack_ok(
                    block_region(data@, start as int, ki),
                    ki.key_block_unpack_size as nat,
                    ups[k],
                )
            } by {
                if k < i {
                    assert(key_info_list@.take(i + 1)[k] == key_info_list@.take(i as int)[k]);
                    assert(ups[k] == ups.drop_last()[k]);
                }
            }
        }
        i = i + 1;
    }
    proof {
        assert(key_info_list@.take(nb as int) =~= key_info_list@);
    }
    Ok(kws)
}


// ---------------------------------------------------------------------------
// Sorting the keyword list
// ---------------------------------------------------------------------------

/// The keyword list is in ascending canonical-key order.
pub open spec fn sorted_by_canon(
    s: Seq<crate::types::KeyWordItem>,
    strip: bool,
    lower: bool,
    is_mdd: bool,
) -> bool {
    forall|i: int, j: int|
        0 <= i < j < s.len() ==> cmp_keys_spec(
            (#[trigger] s[i]).key_text@,
            (#[trigger] s[j]).key_text@,
            strip,
            lower,
            is_mdd,
        ) <= 0
}

/// Compare two keyword items by canonical key.
fn cmp_items(
    a: &crate::types::KeyWordItem,
    b: &crate::types::KeyWordItem,
    strip: bool,
    lower: bool,
    is_mdd: bool,
) -> (r: i8)
    ensures
        r as int == cmp_keys_spec(a.key_text@, b.key_text@, strip, lower, is_mdd),
{
    let ca = canon_key(a.key_text.as_str(), strip, lower, is_mdd);
    let cb = canon_key(b.key_text.as_str(), strip, lower, is_mdd);
    utils::cmp_chars(&ca, &cb)
}

/// Sort the keyword list in ascending canonical-key order (insertion sort,
/// preserving the list as a multiset).
fn sort_keywords(list: &mut Vec<crate::types::KeyWordItem>, strip: bool, lower: bool, is_mdd: bool)
    ensures
        final(list)@.to_multiset() == old(list)@.to_multiset(),
        final(list)@.len() == old(list)@.len(),
        sorted_by_canon(final(list)@, strip, lower, is_mdd),
{
    broadcast use vstd::seq_lib::group_to_multiset_ensures;

    let n = list.len();
    if n <= 1 {
        return ;
    }
    let mut i: usize = 1;
    while i < n
        invariant
            1 <= i <= n,
            n == list@.len(),
            list@.to_multiset() == old(list)@.to_multiset(),
            sorted_by_canon(list@.take(i as int), strip, lower, is_mdd),
        decreases n - i,
    {
        let mut p: usize = 0;
        loop
            invariant
                p <= i < n,
                n == list@.len(),
                forall|q: int|
                    0 <= q < p ==> cmp_keys_spec(
                        (#[trigger] list@[q]).key_text@,
                        list@[i as int].key_text@,
                        strip,
                        lower,
                        is_mdd,
                    ) <= 0,
            ensures
                p <= i,
                n == list@.len(),
                forall|q: int|
                    0 <= q < p ==> cmp_keys_spec(
                        (#[trigger] list@[q]).key_text@,
                        list@[i as int].key_text@,
                        strip,
                        lower,
                        is_mdd,
                    ) <= 0,
                p < i ==> cmp_keys_spec(
                    list@[p as int].key_text@,
                    list@[i as int].key_text@,
                    strip,
                    lower,
                    is_mdd,
                ) > 0,
            decreases i - p,
        {
            if p >= i {
                break;
            }
            let c = cmp_items(&list[p], &list[i], strip, lower, is_mdd);
            if c > 0 {
                break;
            }
            p = p + 1;
        }
        if p < i {
            let ghost pre = list@;
            let x = list.remove(i);
            let ghost mid = list@;
            list.insert(p, x);
            proof {
                assert(mid =~= pre.remove(i as int));
                assert(list@ =~= mid.insert(p as int, x));
                vstd::seq_lib::to_multiset_remove(pre, i as int);
                vstd::seq_lib::to_multiset_insert(mid, p as int, x);
                vstd::seq_lib::to_multiset_contains(pre, x);
                assert(pre.contains(x));
                assert(list@.to_multiset() =~= pre.to_multiset()) by {
                    broadcast use vstd::multiset::group_multiset_axioms;

                    assert(forall|e: crate::types::KeyWordItem|
                        #[trigger] list@.to_multiset().count(e) == pre.to_multiset().count(e));
                }
                // the new prefix of length i + 1 is sorted
                let cur = list@;
                assert forall|a: int, b: int| 0 <= a < b < i + 1 implies cmp_keys_spec(
                    (#[trigger] cur[a]).key_text@,
                    (#[trigger] cur[b]).key_text@,
                    strip,
                    lower,
                    is_mdd,
                ) <= 0 by {
                    let ca = canon_spec(cur[a].key_text@, strip, lower, is_mdd);
                    let cb = canon_spec(cur[b].key_text@, strip, lower, is_mdd);
                    let cx = canon_spec(x.key_text@, strip, lower, is_mdd);
                    // positions below p are unchanged; position p holds x;
                    // positions above p shift up by one
                    assert(forall|q: int| 0 <= q < p ==> cur[q] == pre[q]);
                    assert(cur[p as int] == x);
                    assert(forall|q: int| p < q <= i ==> cur[q] == pre[q - 1]);
                    assert(x == pre[i as int]);
                    if b < p {
                        assert(pre.take(i as int)[a] == pre[a] && pre.take(i as int)[b] == pre[b]);
                    } else if b == p {
                        // cur[a] is pre[a], scan gives cmp(pre[a], x) <= 0
                    } else {
                        // b > p: cur[b] == pre[b-1], with p <= b-1 < i
                        let cp = canon_spec(pre[p as int].key_text@, strip, lower, is_mdd);
                        let cb1 = canon_spec(pre[b - 1].key_text@, strip, lower, is_mdd);
                        if p < b - 1 {
                            assert(pre.take(i as int)[p as int] == pre[p as int] && pre.take(
                                i as int,
                            )[b - 1] == pre[b - 1]);
                            assert(utils::lex_cmp(cp, cb1) <= 0);
                        }
                        utils::lemma_lex_cmp_antisym(cp, cx);
                        assert(utils::lex_cmp(cx, cp) < 0);
                        utils::lemma_lex_cmp_trans(cx, cp, cb1);
                        assert(utils::lex_cmp(cx, cb1) <= 0);
                        if a < p {
                            assert(pre.take(i as int)[a] == pre[a]);
                            assert(utils::lex_cmp(ca, cx) <= 0);
                            utils::lemma_lex_cmp_trans(ca, cx, cb1);
                        } else if a == p {
                            assert(ca == cx);
                        } else {
                            assert(cur[a] == pre[a - 1]);
                            assert(pre.take(i as int)[a - 1] == pre[a - 1] && pre.take(
                                i as int,
                            )[b - 1] == pre[b - 1]);
                        }
                    }
                }
                assert(cur.take(i + 1) =~= cur.take(i + 1));
                assert forall|a: int, b: int| 0 <= a < b < i + 1 implies cmp_keys_spec(
                    (#[trigger] cur.take(i + 1)[a]).key_text@,
                    (#[trigger] cur.take(i + 1)[b]).key_text@,
                    strip,
                    lower,
                    is_mdd,
                ) <= 0 by {
                    assert(cur.take(i + 1)[a] == cur[a] && cur.take(i + 1)[b] == cur[b]);
                }
            }
        } else {
            proof {
                let cur = list@;
                assert forall|a: int, b: int| 0 <= a < b < i + 1 implies cmp_keys_spec(
                    (#[trigger] cur.take(i + 1)[a]).key_text@,
                    (#[trigger] cur.take(i + 1)[b]).key_text@,
                    strip,
                    lower,
                    is_mdd,
                ) <= 0 by {
                    assert(cur.take(i + 1)[a] == cur[a] && cur.take(i + 1)[b] == cur[b]);
                    if b < i {
                        assert(cur.take(i as int)[a] == cur[a] && cur.take(i as int)[b] == cur[b]);
                    }
                }
            }
        }
        i = i + 1;
    }
    proof {
        assert(list@.take(n as int) =~= list@);
    }
}

// ---------------------------------------------------------------------------
// The parser state
// ---------------------------------------------------------------------------

/// The keyword list after the sort fix-up: each entry's end offset is the
/// next entry's start offset, and the last entry's stays zero.
pub open spec fn fix_ends(s: Seq<crate::types::KeyWordItem>) -> Seq<crate::types::KeyWordItem> {
    Seq::new(
        s.len(),
        |i: int|
            crate::types::KeyWordItem {
                record_start_offset: s[i].record_start_offset,
                record_end_offset: if i + 1 < s.len() {
                    s[i + 1].record_start_offset
                } else {
                    0
                },
                key_text: s[i].key_text,
                key_block_idx: s[i].key_block_idx,
            },
    )
}

/// Total decompressed size of all record blocks.
pub open spec fn total_unpack(ris: Seq<crate::types::RecordInfo>) -> nat {
    if ris.len() == 0 {
        0
    } else {
        ris.last().unpack_accumulate_offset as nat + ris.last().unpack_size as nat
    }
}

/// Sum of the entry counts the key-info table declares.
pub open spec fn items_entries_sum(kis: Seq<crate::types::KeyInfoItem>) -> nat
    decreases kis.len(),
{
    if kis.len() == 0 {
        0
    } else {
        items_entries_sum(kis.drop_last()) + kis.last().key_block_entries_num as nat
    }
}

/// The shared MDX/MDD parser: the file's bytes, the parsed tables, and the
/// sorted keyword index.
pub struct MdictBase {
    /// The file's bytes.
    pub data: Vec<u8>,
    /// Dictionary metadata.
    pub meta: DictMeta,
    /// Header attributes, in scan order, defaults appended.
    pub header: Vec<(String, String)>,
    /// Key header information.
    pub key_header: crate::types::KeyHeader,
    /// Key block info list.
    pub key_info_list: Vec<crate::types::KeyInfoItem>,
    /// All keywords, sorted by canonical key.
    pub keyword_list: Vec<crate::types::KeyWordItem>,
    /// Record header information.
    pub record_header: crate::types::RecordHeader,
    /// Record block info list.
    pub record_info_list: Vec<crate::types::RecordInfo>,
    /// Whether comparisons strip keys (header `StripKey`).
    pub strip_key_flag: bool,
    /// Whether comparisons lowercase keys (header `KeyCaseSensitive` = No).
    pub case_insensitive: bool,
    /// Offset of the first byte after the outer header.
    pub header_end_offset: u64,
    /// Offset of the key-info table.
    pub key_block_info_start_offset: u64,
    /// Offset of the first key block.
    pub key_block_info_end_offset: u64,
    /// Offset of the record header.
    pub record_header_start_offset: u64,
    /// Offset of the first compressed record block.
    pub record_block_start_offset: u64,
}

impl MdictBase {
    /// The canonical form of a key under this handle's configuration.
    pub open spec fn canon_of(&self, s: Seq<char>) -> Seq<char> {
        canon_spec(s, self.strip_key_flag, self.case_insensitive, self.meta.ext is Mdd)
    }

    /// Three-way comparison of two keys under this handle's configuration.
    pub open spec fn cmp_of(&self, a: Seq<char>, b: Seq<char>) -> int {
        utils::lex_cmp(self.canon_of(a), self.canon_of(b))
    }

    /// The record descriptors hold running sums in both address spaces.
    pub open spec fn record_infos_wf(&self) -> bool {
        let ris = self.record_info_list@;
        &&& ris.len() > 0 ==> ris[0].pack_accumulate_offset == 0 && ris[0].unpack_accumulate_offset
            == 0
        &&& forall|k: int|
            0 < k < ris.len() ==> (#[trigger] ris[k]).pack_accumulate_offset as nat == ris[k
                - 1].pack_accumulate_offset as nat + ris[k - 1].pack_size as nat && ris[k].unpack_accumulate_offset
                as nat == ris[k - 1].unpack_accumulate_offset as nat + ris[k - 1].unpack_size as nat
    }

    /// The sorted keyword index is well formed: ascending canonical order,
    /// linked end offsets, counts that agree across the tables, and every
    /// start offset inside the decompressed record space.
    pub open spec fn wf(&self) -> bool {
        let kws = self.keyword_list@;
        &&& self.meta.num_width == 4 || self.meta.num_width == 8
        &&& sorted_by_canon(
            kws,
            self.strip_key_flag,
            self.case_insensitive,
            self.meta.ext is Mdd,
        )
        &&& forall|k: int|
            0 <= k < kws.len() - 1 ==> (#[trigger] kws[k]).record_end_offset == kws[k
                + 1].record_start_offset
        &&& kws.len() > 0 ==> kws.last().record_end_offset == 0
        &&& self.record_infos_wf()
        &&& self.record_info_list@.len() == self.record_header.record_blocks_num
        &&& kws.len() == self.record_header.entries_num
        &&& items_entries_sum(self.key_info_list@) == kws.len()
        &&& forall|k: int|
            0 <= k < kws.len() ==> ((#[trigger] kws[k]).record_start_offset as nat) < total_unpack(
                self.record_info_list@,
            )
        &&& forall|k: int|
            0 <= k < kws.len() ==> (#[trigger] kws[k]).key_block_idx < self.key_info_list@.len()
    }
}

/// Clone one keyword item.
pub fn clone_item(it: &crate::types::KeyWordItem) -> (r: crate::types::KeyWordItem)
    ensures
        r == *it,
{
    crate::types::KeyWordItem {
        record_start_offset: it.record_start_offset,
        record_end_offset: it.record_end_offset,
        key_text: it.key_text.clone(),
        key_block_idx: it.key_block_idx,
    }
}

/// Apply the end-offset fix-up to the sorted list.
fn fix_end_offsets(list: &Vec<crate::types::KeyWordItem>) -> (r: Vec<crate::types::KeyWordItem>)
    ensures
        r@ == fix_ends(list@),
{
    let n = list.len();
    let mut out: Vec<crate::types::KeyWordItem> = Vec::new();
    let mut i: usize = 0;
    while i < n
        invariant
            i <= n,
            n == list@.len(),
            out@.len() == i,
            forall|k: int| 0 <= k < i ==> out@[k] == fix_ends(list@)[k],
        decreases n - i,
    {
        let end: u64 = if i + 1 < n {
            list[i + 1].record_start_offset
        } else {
            0
        };
        let item = crate::types::KeyWordItem {
            record_start_offset: list[i].record_start_offset,
            record_end_offset: end,
            key_text: list[i].key_text.clone(),
            key_block_idx: list[i].key_block_idx,
        };
        out.push(item);
        i = i + 1;
    }
    proof {
        assert(out@ =~= fix_ends(list@));
    }
    out
}


/// The parse succeeds on `n` record pairs only with `n` results.
pub proof fn lemma_parse_record_info_len(buf: Seq<u8>, off: int, n: nat, w: nat)
    ensures
        match parse_record_info(buf, off, n, w) {
            Some(recs) => recs.len() == n,
            None => true,
        },
    decreases n,
{
    if n > 0 && 0 <= off && off + 2 * w <= buf.len() {
        lemma_parse_record_info_len(buf, off + 2 * w, (n - 1) as nat, w);
    }
}

/// Sum the declared entry counts of the key-info table.
fn sum_entries(kis: &Vec<crate::types::KeyInfoItem>) -> (r: Option<u64>)
    ensures
        match r {
            Some(x) => x as nat == items_entries_sum(kis@),
            None => items_entries_sum(kis@) > u64::MAX,
        },
{
    let n = kis.len();
    let mut sum: u64 = 0;
    let mut i: usize = 0;
    proof {
        assert(kis@.take(0) =~= Seq::<crate::types::KeyInfoItem>::empty());
    }
    while i < n
        invariant
            i <= n,
            n == kis@.len(),
            sum as nat == items_entries_sum(kis@.take(i as int)),
        decreases n - i,
    {
        let e = kis[i].key_block_entries_num;
        proof {
            assert(kis@.take(i + 1).drop_last() =~= kis@.take(i as int));
            assert(kis@.take(i + 1).last() == kis@[i as int]);
        }
        if e > u64::MAX - sum {
            proof {
                lemma_items_entries_sum_prefix(kis@, i + 1);
            }
            return None;
        }
        sum = sum + e;
        i = i + 1;
    }
    proof {
        assert(kis@.take(n as int) =~= kis@);
    }
    Some(sum)
}

pub proof fn lemma_items_entries_sum_prefix(kis: Seq<crate::types::KeyInfoItem>, k: int)
    requires
        0 <= k <= kis.len(),
    ensures
        items_entries_sum(kis.take(k)) <= items_entries_sum(kis),
    decreases kis.len(),
{
    if k < kis.len() {
        lemma_items_entries_sum_prefix(kis.drop_last(), k);
        assert(kis.drop_last().take(k) =~= kis.take(k));
    } else {
        assert(kis.take(k) =~= kis);
    }
}

// ---------------------------------------------------------------------------
// The phase outcomes as functions of the file's bytes
// ---------------------------------------------------------------------------

/// The declared byte length of the header text.
pub open spec fn spec_hlen(data: Seq<u8>) -> int {
    utils::be_uint(data.subrange(0, 4)) as int
}

/// The decoded header text and its error flag.
pub open spec fn spec_header_text(data: Seq<u8>) -> (Seq<char>, bool) {
    shims::utf16le_of(data.subrange(4, 4 + spec_hlen(data)))
}

/// The header attributes with the two defaults appended.
pub open spec fn spec_attrs(data: Seq<u8>) -> Seq<(Seq<char>, Seq<char>)> {
    let base = utils::header_attrs_spec(spec_header_text(data).0);
    let h1 = if attrs_get(base, "KeyCaseSensitive"@) is None {
        base.push(("KeyCaseSensitive"@, "No"@))
    } else {
        base
    };
    if attrs_get(h1, "StripKey"@) is None {
        h1.push(("StripKey"@, "Yes"@))
    } else {
        h1
    }
}

/// The declared encryption coverage.
pub open spec fn spec_encrypt(data: Seq<u8>) -> EncryptType {
    encrypt_spec(attrs_get(spec_attrs(data), "Encrypted"@))
}

/// The declared format version.
pub open spec fn spec_version(data: Seq<u8>) -> (nat, nat) {
    match attrs_get(spec_attrs(data), "GeneratedByEngineVersion"@) {
        Some(vs) => version_spec(vs),
        None => (1nat, 2nat),
    }
}

/// The integer width of the index tables.
pub open spec fn spec_num_width(data: Seq<u8>) -> int {
    if spec_version(data).0 >= 2 {
        8
    } else {
        4
    }
}

/// The text encoding.
pub open spec fn spec_encoding(data: Seq<u8>, ext: FileExt) -> Encoding {
    encoding_spec(attrs_get(spec_attrs(data), "Encoding"@), ext)
}

/// Offset of the key header.
pub open spec fn spec_kh_off(data: Seq<u8>) -> int {
    spec_hlen(data) + 8
}

/// The key header's four totals: block count, keyword count, key-info
/// packed size, key-block packed size.
pub open spec fn spec_key_header(data: Seq<u8>) -> (nat, nat, nat, nat) {
    let off = spec_kh_off(data);
    let w = spec_num_width(data);
    let v2 = w == 8;
    (
        utils::be_uint(data.subrange(off, off + w)),
        utils::be_uint(data.subrange(off + w, off + 2 * w)),
        if v2 {
            utils::be_uint(data.subrange(off + 3 * w, off + 4 * w))
        } else {
            utils::be_uint(data.subrange(off + 2 * w, off + 3 * w))
        },
        if v2 {
            utils::be_uint(data.subrange(off + 4 * w, off + 5 * w))
        } else {
            utils::be_uint(data.subrange(off + 3 * w, off + 4 * w))
        },
    )
}

/// Offset of the key-info table.
pub open spec fn spec_ki_start(data: Seq<u8>) -> int {
    spec_kh_off(data) + (if spec_num_width(data) == 8 {
        44int
    } else {
        16int
    })
}

/// Offset of the first key block.
pub open spec fn spec_ki_end(data: Seq<u8>) -> int {
    spec_ki_start(data) + spec_key_header(data).2 as int
}

/// The parsed key-info entries.
pub open spec fn spec_ki_recs(data: Seq<u8>, ext: FileExt) -> Option<Seq<KeyInfoRec>> {
    let w = spec_num_width(data);
    let raw = data.subrange(spec_ki_start(data), spec_ki_end(data));
    match key_info_blob(raw, w == 8, spec_encrypt(data) is KeyInfoBlock) {
        Some(blob) => parse_key_info(
            blob,
            0,
            spec_key_header(data).0,
            w as nat,
            w == 8,
            spec_encoding(data, ext) is Utf16Le,
            spec_encoding(data, ext),
        ),
        None => None,
    }
}

/// Offset of the record header.
pub open spec fn spec_rh_start(data: Seq<u8>) -> int {
    spec_ki_end(data) + spec_key_header(data).3 as int
}

/// The record header's four totals.
pub open spec fn spec_record_header(data: Seq<u8>) -> (nat, nat, nat, nat) {
    let off = spec_rh_start(data);
    let w = spec_num_width(data);
    (
        utils::be_uint(data.subrange(off, off + w)),
        utils::be_uint(data.subrange(off + w, off + 2 * w)),
        utils::be_uint(data.subrange(off + 2 * w, off + 3 * w)),
        utils::be_uint(data.subrange(off + 3 * w, off + 4 * w)),
    )
}

/// Offset of the record-info table.
pub open spec fn spec_ri_start(data: Seq<u8>) -> int {
    spec_rh_start(data) + 4 * spec_num_width(data)
}

/// The parsed record-info pairs.
pub open spec fn spec_ri_recs(data: Seq<u8>) -> Option<Seq<(nat, nat)>> {
    parse_record_info(
        data.subrange(spec_ri_start(data), spec_ri_start(data) + spec_record_header(data).2 as int),
        0,
        spec_record_header(data).0,
        spec_num_width(data) as nat,
    )
}

/// The total decompressed size the record-info table declares.
pub open spec fn spec_ri_total(data: Seq<u8>) -> nat {
    match spec_ri_recs(data) {
        Some(recs) => ri_unpack_sum(recs),
        None => 0,
    }
}

// ---------------------------------------------------------------------------
// The conditions under which opening fails
// ---------------------------------------------------------------------------

/// The header-phase failures: too few bytes, header text outside the file,
/// or text that is not UTF-16LE.
pub open spec fn header_fail(data: Seq<u8>) -> bool {
    ||| data.len() < 4
    ||| 4 + spec_hlen(data) > data.len()
    ||| spec_header_text(data).1
}

/// The key header lies outside the file.
pub open spec fn key_header_fail(data: Seq<u8>) -> bool {
    spec_kh_off(data) + (if spec_num_width(data) == 8 {
        40int
    } else {
        16int
    }) > data.len()
}

/// The ways reading key block `i` of the parsed table can fail.
pub open spec fn block_fail_at_recs(data: Seq<u8>, start: int, recs: Seq<KeyInfoRec>, i: int) -> bool {
    let accu = pack_sum(recs.take(i));
    let sz = recs[i].pack_size;
    ||| sz > usize::MAX
    ||| recs[i].unpack_size > usize::MAX - 1024
    ||| accu + sz > u64::MAX
    ||| start + accu + sz > u64::MAX
    ||| start + accu + sz > data.len()
    ||| unpack_fail(
        data.subrange(start + accu as int, start + accu as int + sz as int),
        recs[i].unpack_size,
    )
}

/// Some key block cannot be read or decompressed.
pub open spec fn key_blocks_fail(data: Seq<u8>, ext: FileExt) -> bool {
    match spec_ki_recs(data, ext) {
        Some(recs) => exists|i: int|
            0 <= i < recs.len() && #[trigger] block_fail_at_recs(data, spec_ki_end(data), recs, i),
        None => false,
    }
}

/// The record-table failures: offsets beyond 64 bits, a header or info
/// table outside the file or the machine's bounds, or one that does not
/// parse.
pub open spec fn record_fail(data: Seq<u8>, ext: FileExt) -> bool {
    let w = spec_num_width(data);
    ||| spec_ki_end(data) + spec_key_header(data).3 as int > u64::MAX
    ||| spec_rh_start(data) + 4 * w > data.len()
    ||| spec_record_header(data).2 > usize::MAX
    ||| spec_ri_start(data) + spec_record_header(data).2 as int > data.len()
    ||| spec_record_header(data).0 > usize::MAX
    ||| record_info_sums_overflow(spec_ri_recs(data))
}

/// Every key block's compressed region lies in the file and `ups` holds
/// its decompressed bytes (stated over the parsed entries).
pub open spec fn blocks_ok_recs(
    data: Seq<u8>,
    start: int,
    recs: Seq<KeyInfoRec>,
    ups: Seq<Seq<u8>>,
) -> bool {
    &&& ups.len() == recs.len()
    &&& forall|i: int|
        0 <= i < recs.len() ==> {
            let accu = pack_sum(recs.take(i));
            &&& 0 <= start
            &&& start + accu + (#[trigger] recs[i]).pack_size <= data.len()
            &&& unpack_ok(
                data.subrange(start + accu as int, start + accu as int + recs[i].pack_size as int),
                recs[i].unpack_size,
                ups[i],
            )
        }
}

/// One witness to a cross-table check failing: `ups` decompress the key
/// blocks, `pre` are their keywords laid end to end, and an entry count
/// disagrees or overflows, a record offset lies outside the decompressed
/// record space, or a key-block index lies outside the table.
pub open spec fn index_witness(
    data: Seq<u8>,
    ext: FileExt,
    ups: Seq<Seq<u8>>,
    pre: Seq<crate::types::KeyWordItem>,
) -> bool {
    let w = spec_num_width(data) as nat;
    let width: nat = if spec_encoding(data, ext) is Utf16Le || ext is Mdd {
        2
    } else {
        1
    };
    match spec_ki_recs(data, ext) {
        Some(recs) => {
            &&& blocks_ok_recs(data, spec_ki_end(data), recs, ups)
            &&& kws_match_all(pre, ups, 0, w, width, spec_encoding(data, ext))
            &&& ({
                ||| pre.len() != spec_record_header(data).1
                ||| entries_sum(recs) != pre.len()
                ||| entries_sum(recs) > u64::MAX
                ||| exists|k: int|
                    0 <= k < pre.len() && ((#[trigger] pre[k]).record_start_offset as nat
                        >= spec_ri_total(data) || pre[k].key_block_idx >= recs.len())
            })
        },
        None => false,
    }
}

/// Some decompression of the key blocks fails the cross-table checks.
pub open spec fn index_fail(data: Seq<u8>, ext: FileExt) -> bool {
    exists|ups: Seq<Seq<u8>>, pre: Seq<crate::types::KeyWordItem>| #[trigger] index_witness(
        data,
        ext,
        ups,
        pre,
    )
}

/// Everything that makes `MdictBase::new` refuse a file: a failing phase,
/// or the passcode refusal for record-block-encrypted files.
pub open spec fn open_fail(data: Seq<u8>, ext: FileExt) -> bool {
    ||| header_fail(data)
    ||| spec_encrypt(data) is RecordBlock
    ||| key_header_fail(data)
    ||| key_info_phase_fail(
        data,
        spec_ki_start(data),
        spec_key_header(data).2,
        spec_key_header(data).0,
        spec_num_width(data) as nat,
        spec_encoding(data, ext),
        spec_encrypt(data) is KeyInfoBlock,
    )
    ||| key_blocks_fail(data, ext)
    ||| record_fail(data, ext)
    ||| index_fail(data, ext)
}

// ---------------------------------------------------------------------------
// Bridges from the phase relations to the byte-level functions
// ---------------------------------------------------------------------------

/// A parsed header pins every derived value to its byte-level function.
pub proof fn lemma_header_ok_spec(
    data: Seq<u8>,
    ext: FileExt,
    attrs: Seq<(Seq<char>, Seq<char>)>,
    meta: DictMeta,
    strip: bool,
    ci: bool,
    end: int,
)
    requires
        header_ok(data, ext, attrs, meta, strip, ci, end),
    ensures
        !header_fail(data),
        attrs == spec_attrs(data),
        meta.encrypt == spec_encrypt(data),
        meta.version_major as nat == spec_version(data).0,
        meta.num_width == spec_num_width(data),
        meta.encoding == spec_encoding(data, ext),
        end == spec_kh_off(data),
{
}

/// A parsed key header pins its totals to their byte-level functions.
pub proof fn lemma_key_header_ok_spec(data: Seq<u8>, kh: crate::types::KeyHeader, end: int)
    requires
        key_header_ok(
            data,
            spec_kh_off(data),
            spec_num_width(data),
            spec_num_width(data) == 8,
            kh,
            end,
        ),
    ensures
        !key_header_fail(data),
        kh.keyword_blocks_num as nat == spec_key_header(data).0,
        kh.keyword_num as nat == spec_key_header(data).1,
        kh.key_info_packed_size as nat == spec_key_header(data).2,
        kh.keyword_block_packed_size as nat == spec_key_header(data).3,
        end == spec_ki_start(data),
{
}

/// A parsed record header pins its totals to their byte-level functions.
pub proof fn lemma_record_header_ok_spec(data: Seq<u8>, rh: crate::types::RecordHeader)
    requires
        record_header_ok(data, spec_rh_start(data), spec_num_width(data), rh),
    ensures
        spec_rh_start(data) + 4 * spec_num_width(data) <= data.len(),
        rh.record_blocks_num as nat == spec_record_header(data).0,
        rh.entries_num as nat == spec_record_header(data).1,
        rh.record_info_comp_size as nat == spec_record_header(data).2,
        rh.record_block_comp_size as nat == spec_record_header(data).3,
{
}

/// Decoded key-info items carry the running sums of the parsed entries.
pub proof fn lemma_items_accums_at(
    items: Seq<crate::types::KeyInfoItem>,
    recs: Seq<KeyInfoRec>,
    i: int,
)
    requires
        key_info_items_ok(items, recs),
        0 <= i < items.len(),
    ensures
        items[i].key_block_pack_accumulator as nat == pack_sum(recs.take(i)),
        items[i].key_block_unpack_accumulator as nat == unpack_sum(recs.take(i)),
        items[i].key_block_entries_num_accumulator as nat == entries_sum(recs.take(i)),
    decreases i,
{
    if i == 0 {
        assert(recs.take(0) =~= Seq::<KeyInfoRec>::empty());
    } else {
        lemma_items_accums_at(items, recs, i - 1);
        assert(recs.take(i).drop_last() =~= recs.take(i - 1));
        assert(recs.take(i).last() == recs[i - 1]);
    }
}

/// The key-info entry counts sum the same over items and parsed entries.
pub proof fn lemma_entries_sums_eq(items: Seq<crate::types::KeyInfoItem>, recs: Seq<KeyInfoRec>)
    requires
        key_info_items_ok(items, recs),
    ensures
        items_entries_sum(items) == entries_sum(recs),
    decreases items.len(),
{
    if items.len() > 0 {
        let n = items.len() as int;
        assert(key_info_items_ok(items.drop_last(), recs.drop_last())) by {
            assert(forall|k: int|
                0 <= k < n - 1 ==> #[trigger] items.drop_last()[k] == items[k]);
            assert(forall|k: int| 0 <= k < n - 1 ==> #[trigger] recs.drop_last()[k] == recs[k]);
        }
        lemma_entries_sums_eq(items.drop_last(), recs.drop_last());
        lemma_items_accums_at(items, recs, n - 1);
        if n >= 2 {
            lemma_items_accums_at(items, recs, n - 2);
        }
        assert(entries_sum(recs) == entries_sum(recs.drop_last()) + recs[n - 1].entries) by {
            assert(recs.drop_last() =~= recs.take(n - 1));
            assert(recs.take(n as int) =~= recs);
        }
    }
}

/// Decoded record-info items carry the running sums of the parsed pairs,
/// and the covered extent is their total.
pub proof fn lemma_ri_items_accums_at(
    items: Seq<crate::types::RecordInfo>,
    recs: Seq<(nat, nat)>,
    i: int,
)
    requires
        record_info_items_ok(items, recs),
        0 <= i < items.len(),
    ensures
        items[i].pack_accumulate_offset as nat == ri_pack_sum(recs.take(i)),
        items[i].unpack_accumulate_offset as nat == ri_unpack_sum(recs.take(i)),
    decreases i,
{
    if i == 0 {
        assert(recs.take(0) =~= Seq::<(nat, nat)>::empty());
    } else {
        lemma_ri_items_accums_at(items, recs, i - 1);
        assert(recs.take(i).drop_last() =~= recs.take(i - 1));
        assert(recs.take(i).last() == recs[i - 1]);
    }
}

/// The covered decompressed extent equals the parsed pairs' total.
pub proof fn lemma_total_unpack_eq(items: Seq<crate::types::RecordInfo>, recs: Seq<(nat, nat)>)
    requires
        record_info_items_ok(items, recs),
        items.len() > 0,
    ensures
        total_unpack(items) == ri_unpack_sum(recs),
{
    let n = items.len() as int;
    lemma_ri_items_accums_at(items, recs, n - 1);
    assert(recs.take(n - 1) =~= recs.drop_last());
    assert(recs.take(n as int) =~= recs);
    assert(ri_unpack_sum(recs) == ri_unpack_sum(recs.drop_last()) + recs[n - 1].1);
}

/// Per-item block facts transfer to the parsed entries they mirror.
pub proof fn lemma_blocks_ok_to_recs(
    data: Seq<u8>,
    start: int,
    items: Seq<crate::types::KeyInfoItem>,
    recs: Seq<KeyInfoRec>,
    ups: Seq<Seq<u8>>,
)
    requires
        blocks_ok(data, start, items, ups),
        key_info_items_ok(items, recs),
    ensures
        blocks_ok_recs(data, start, recs, ups),
{
    assert forall|i: int| 0 <= i < recs.len() implies {
        let accu = pack_sum(recs.take(i));
        &&& 0 <= start
        &&& start + accu + (#[trigger] recs[i]).pack_size <= data.len()
        &&& unpack_ok(
            data.subrange(start + accu as int, start + accu as int + recs[i].pack_size as int),
            recs[i].unpack_size,
            ups[i],
        )
    } by {
        lemma_items_accums_at(items, recs, i);
        assert(block_region(data, start, items[i]) =~= data.subrange(
            start + pack_sum(recs.take(i)) as int,
            start + pack_sum(recs.take(i)) as int + recs[i].pack_size as int,
        ));
    }
}

/// Scan the keyword list for an entry whose record offset lies outside the
/// decompressed record space or whose key-block index is out of range.
fn find_bad_keyword(
    kws: &Vec<crate::types::KeyWordItem>,
    ris: &Vec<crate::types::RecordInfo>,
    nb_ki: usize,
) -> (r: Option<usize>)
    ensures
        match r {
            Some(k) => k < kws@.len() && ((kws@[k as int].record_start_offset as nat)
                >= total_unpack(ris@) || kws@[k as int].key_block_idx >= nb_ki),
            None => forall|q: int|
                0 <= q < kws@.len() ==> ((#[trigger] kws@[q]).record_start_offset as nat)
                    < total_unpack(ris@) && kws@[q].key_block_idx < nb_ki,
        },
{
    let n_kws = kws.len();
    let n_ri = ris.len();
    let mut k: usize = 0;
    while k < n_kws
        invariant
            k <= n_kws,
            n_kws == kws@.len(),
            n_ri == ris@.len(),
            forall|q: int|
                0 <= q < k ==> ((#[trigger] kws@[q]).record_start_offset as nat) < total_unpack(
                    ris@,
                ) && kws@[q].key_block_idx < nb_ki,
        decreases n_kws - k,
    {
        let start = kws[k].record_start_offset;
        let in_range: bool = if n_ri == 0 {
            false
        } else {
            let last_accu = ris[n_ri - 1].unpack_accumulate_offset;
            let last_size = ris[n_ri - 1].unpack_size;
            if last_accu > u64::MAX - last_size {
                true
            } else {
                start < last_accu + last_size
            }
        };
        if !in_range || kws[k].key_block_idx >= nb_ki {
            return Some(k);
        }
        k = k + 1;
    }
    None
}

/// Everything `new` states of a handle it returns, beyond well-formedness:
/// each table is exactly what the file's bytes parse to, and the keyword
/// list descends from the decompressed key blocks by split, sort and
/// end-offset fix-up.
pub open spec fn parsed_from(b: MdictBase, input: Seq<u8>, ext: FileExt) -> bool {
    let w = b.meta.num_width as nat;
    let v2 = b.meta.num_width == 8;
    let utf16 = b.meta.encoding is Utf16Le;
    let width: nat = if b.meta.encoding is Utf16Le || ext is Mdd {
        2
    } else {
        1
    };
    &&& b.data@ == input
    &&& b.meta.ext == ext
    &&& header_ok(
        input,
        ext,
        attrs_view(b.header@),
        b.meta,
        b.strip_key_flag,
        b.case_insensitive,
        b.header_end_offset as int,
    )
    &&& key_header_ok(
        input,
        b.header_end_offset as int,
        w as int,
        v2,
        b.key_header,
        b.key_block_info_start_offset as int,
    )
    &&& b.key_block_info_end_offset == b.key_block_info_start_offset
        + b.key_header.key_info_packed_size
    &&& match key_info_blob(
        input.subrange(
            b.key_block_info_start_offset as int,
            b.key_block_info_end_offset as int,
        ),
        v2,
        b.meta.encrypt is KeyInfoBlock,
    ) {
        Some(blob) => match parse_key_info(
            blob,
            0,
            b.key_header.keyword_blocks_num as nat,
            w,
            v2,
            utf16,
            b.meta.encoding,
        ) {
            Some(recs) => key_info_items_ok(b.key_info_list@, recs),
            None => false,
        },
        None => false,
    }
    &&& b.record_header_start_offset == b.key_block_info_end_offset
        + b.key_header.keyword_block_packed_size
    &&& record_header_ok(input, b.record_header_start_offset as int, w as int, b.record_header)
    &&& {
        let ri_start = b.record_header_start_offset as int + 4 * (w as int);
        &&& ri_start + b.record_header.record_info_comp_size <= input.len()
        &&& b.record_block_start_offset == ri_start + b.record_header.record_info_comp_size
        &&& match parse_record_info(
            input.subrange(ri_start, ri_start + b.record_header.record_info_comp_size as int),
            0,
            b.record_header.record_blocks_num as nat,
            w,
        ) {
            Some(recs) => record_info_items_ok(b.record_info_list@, recs),
            None => false,
        }
    }
    &&& exists|ups: Seq<Seq<u8>>, pre: Seq<crate::types::KeyWordItem>, sorted_pre: Seq<
        crate::types::KeyWordItem,
    >| #[trigger] keywords_provenance(b, input, ups, pre, sorted_pre)
}

/// How the keyword list descends from the file: `ups` are the decompressed
/// key blocks, `pre` their keywords laid end to end, `sorted_pre` a sorted
/// permutation of `pre`, and the list itself is `sorted_pre` with the
/// end-offset fix-up applied.
pub open spec fn keywords_provenance(
    b: MdictBase,
    input: Seq<u8>,
    ups: Seq<Seq<u8>>,
    pre: Seq<crate::types::KeyWordItem>,
    sorted_pre: Seq<crate::types::KeyWordItem>,
) -> bool {
    let w = b.meta.num_width as nat;
    let width: nat = if b.meta.encoding is Utf16Le || b.meta.ext is Mdd {
        2
    } else {
        1
    };
    &&& blocks_ok(input, b.key_block_info_end_offset as int, b.key_info_list@, ups)
    &&& kws_match_all(pre, ups, 0, w, width, b.meta.encoding)
    &&& sorted_pre.to_multiset() == pre.to_multiset()
    &&& sorted_by_canon(sorted_pre, b.strip_key_flag, b.case_insensitive, b.meta.ext is Mdd)
    &&& b.keyword_list@ == fix_ends(sorted_pre)
}

impl MdictBase {
    /// Open a dictionary from its bytes: parse the header, the key index,
    /// the key blocks and the record index, and build the sorted keyword
    /// list.
    #[verifier::rlimit(100)]
    pub fn new(data: Vec<u8>, ext: FileExt) -> (r: Result<MdictBase, MdictError>)
        ensures
            match r {
                Ok(b) => b.wf() && parsed_from(b, data@, ext),
                Err(e) => open_fail(data@, ext) && (e is EncryptedFileRequiresPasscode
                    ==> spec_encrypt(data@) is RecordBlock),
            },
            !header_fail(data@) && !key_header_fail(data@) && spec_encrypt(data@) is RecordBlock
                ==> (r matches Err(e) && e is EncryptedFileRequiresPasscode),
    {
        let (header, meta, strip_key_flag, case_insensitive, header_end) = match read_header(
            &data,
            ext,
        ) {
            Ok(p) => p,
            Err(e) => {
                proof {
                    assert(header_fail(data@));
                }
                return Err(e);
            },
        };
        proof {
            lemma_header_ok_spec(
                data@,
                ext,
                attrs_view(header@),
                meta,
                strip_key_flag,
                case_insensitive,
                header_end as int,
            );
            utils::lemma_be_uint_bound(data@.subrange(0, 4));
            reveal_with_fuel(utils::pow256, 5);
            assert(header_end <= u64::MAX - 44);
        }
        let (key_header, ki_start) = match read_key_header(&data, header_end, &meta) {
            Ok(p) => p,
            Err(e) => {
                proof {
                    if e is EncryptedFileRequiresPasscode {
                        assert(spec_encrypt(data@) is RecordBlock);
                    } else {
                        assert(key_header_fail(data@));
                    }
                }
                return Err(e);
            },
        };
        proof {
            lemma_key_header_ok_spec(data@, key_header, ki_start as int);
            // a record-block-encrypted file was refused above
            assert(!(spec_encrypt(data@) is RecordBlock));
        }
        let (key_info_list, ki_end) = match read_key_infos(&data, &meta, &key_header, ki_start) {
            Ok(p) => p,
            Err(e) => {
                proof {
                    assert(key_info_phase_fail(
                        data@,
                        spec_ki_start(data@),
                        spec_key_header(data@).2,
                        spec_key_header(data@).0,
                        spec_num_width(data@) as nat,
                        spec_encoding(data@, ext),
                        spec_encrypt(data@) is KeyInfoBlock,
                    ));
                }
                return Err(e);
            },
        };
        let ghost grecs: Seq<KeyInfoRec>;
        proof {
            assert(ki_end as int == spec_ki_end(data@));
            assert(data@.subrange(
                ki_start as int,
                ki_start as int + key_header.key_info_packed_size as int,
            ) == data@.subrange(spec_ki_start(data@), spec_ki_end(data@)));
            grecs = match key_info_blob(
                data@.subrange(spec_ki_start(data@), spec_ki_end(data@)),
                spec_num_width(data@) == 8,
                spec_encrypt(data@) is KeyInfoBlock,
            ) {
                Some(blob) => parse_key_info(
                    blob,
                    0,
                    spec_key_header(data@).0,
                    spec_num_width(data@) as nat,
                    spec_num_width(data@) == 8,
                    spec_encoding(data@, ext) is Utf16Le,
                    spec_encoding(data@, ext),
                ).unwrap(),
                None => Seq::<KeyInfoRec>::empty(),
            };
            assert(spec_ki_recs(data@, ext) == Some(grecs));
            assert(key_info_items_ok(key_info_list@, grecs));
        }
        let is_mdd = match ext {
            FileExt::Mdd => true,
            FileExt::Mdx => false,
        };
        let width: usize = if meta.encoding == Encoding::Utf16Le || is_mdd {
            2
        } else {
            1
        };
        let kws_raw = match read_key_blocks(
            &data,
            ki_end,
            &key_info_list,
            meta.num_width,
            width,
            meta.encoding,
        ) {
            Ok(k) => k,
            Err(e) => {
                proof {
                    let i = choose|i: int|
                        0 <= i < key_info_list@.len() && #[trigger] block_item_fail(
                            data@,
                            ki_end as int,
                            key_info_list@[i],
                        );
                    lemma_items_accums_at(key_info_list@, grecs, i);
                    assert(block_region(data@, ki_end as int, key_info_list@[i]) =~= data@.subrange(
                        spec_ki_end(data@) + pack_sum(grecs.take(i)) as int,
                        spec_ki_end(data@) + pack_sum(grecs.take(i)) as int + grecs[i].pack_size
                            as int,
                    ));
                    assert(block_fail_at_recs(data@, spec_ki_end(data@), grecs, i));
                    assert(key_blocks_fail(data@, ext));
                }
                return Err(e);
            },
        };
        if key_header.keyword_block_packed_size > u64::MAX - ki_end {
            proof {
                assert(record_fail(data@, ext));
            }
            return Err(MdictError::Io(String::from_str("read past end of file")));
        }
        let rh_start = ki_end + key_header.keyword_block_packed_size;
        proof {
            assert(rh_start as int == spec_rh_start(data@));
        }
        let record_header = match read_record_header(&data, rh_start, meta.num_width) {
            Ok(rh) => rh,
            Err(e) => {
                proof {
                    assert(record_fail(data@, ext));
                }
                return Err(e);
            },
        };
        proof {
            lemma_record_header_ok_spec(data@, record_header);
        }
        let dn = data.len();
        proof {
            assert(rh_start as int + 4 * (meta.num_width as int) <= dn as int);
        }
        let ri_start = rh_start + (4 * meta.num_width) as u64;
        if record_header.record_info_comp_size > usize::MAX as u64 {
            proof {
                assert(record_fail(data@, ext));
            }
            return Err(MdictError::InvalidFormat(String::from_str("record info out of range")));
        }
        let ri_buf = match read_buffer(
            &data,
            ri_start,
            record_header.record_info_comp_size as usize,
        ) {
            Ok(b) => b,
            Err(e) => {
                proof {
                    assert(record_fail(data@, ext));
                }
                return Err(e);
            },
        };
        if record_header.record_blocks_num > usize::MAX as u64 {
            proof {
                assert(record_fail(data@, ext));
            }
            return Err(MdictError::InvalidFormat(String::from_str("block count out of range")));
        }
        let record_info_list = match decode_record_info(
            &ri_buf,
            record_header.record_blocks_num as usize,
            meta.num_width,
        ) {
            Ok(it) => it,
            Err(e) => {
                proof {
                    assert(ri_buf@ == data@.subrange(
                        spec_ri_start(data@),
                        spec_ri_start(data@) + spec_record_header(data@).2 as int,
                    ));
                    assert(record_info_sums_overflow(spec_ri_recs(data@)));
                    assert(record_fail(data@, ext));
                }
                return Err(e);
            },
        };
        let ghost grirecs: Seq<(nat, nat)>;
        proof {
            assert(ri_buf@ == data@.subrange(
                spec_ri_start(data@),
                spec_ri_start(data@) + spec_record_header(data@).2 as int,
            ));
            grirecs = match spec_ri_recs(data@) {
                Some(rr) => rr,
                None => Seq::<(nat, nat)>::empty(),
            };
            assert(spec_ri_recs(data@) == Some(grirecs));
            assert(record_info_items_ok(record_info_list@, grirecs));
        }
        proof {
            assert(ri_start as int + record_header.record_info_comp_size as int <= dn as int);
        }
        let record_block_start_offset = ri_start + record_header.record_info_comp_size;
        // sort and fix up end offsets
        let mut sorted = kws_raw;
        let ghost pre = sorted@;
        sort_keywords(&mut sorted, strip_key_flag, case_insensitive, is_mdd);
        let keyword_list = fix_end_offsets(&sorted);
        let ghost gups = choose|ups: Seq<Seq<u8>>|
            #[trigger] blocks_ok(data@, ki_end as int, key_info_list@, ups) && kws_match_all(
                pre,
                ups,
                0,
                meta.num_width as nat,
                width as nat,
                meta.encoding,
            );
        proof {
            lemma_blocks_ok_to_recs(data@, ki_end as int, key_info_list@, grecs, gups);
            assert(blocks_ok_recs(data@, spec_ki_end(data@), grecs, gups));
            assert(kws_match_all(
                pre,
                gups,
                0,
                spec_num_width(data@) as nat,
                (if spec_encoding(data@, ext) is Utf16Le || ext is Mdd {
                    2nat
                } else {
                    1nat
                }),
                spec_encoding(data@, ext),
            ));
            vstd::seq_lib::to_multiset_len(pre);
            vstd::seq_lib::to_multiset_len(sorted@);
            assert(pre.len() == sorted@.len());
        }
        // validate the cross-table counts and offsets the invariants state
        let n_kws = keyword_list.len();
        proof {
            assert(keyword_list@.len() == sorted@.len());
            assert(pre.len() == n_kws);
        }
        if (n_kws as u64) != record_header.entries_num {
            proof {
                assert(pre.len() != spec_record_header(data@).1);
                assert(index_witness(data@, ext, gups, pre));
                assert(index_fail(data@, ext));
            }
            return Err(MdictError::InvalidFormat(String::from_str("entry counts disagree")));
        }
        match sum_entries(&key_info_list) {
            Some(total) => {
                if total != n_kws as u64 {
                    proof {
                        lemma_entries_sums_eq(key_info_list@, grecs);
                        assert(entries_sum(grecs) == total as nat);
                        assert(entries_sum(grecs) != pre.len());
                        assert(index_witness(data@, ext, gups, pre));
                        assert(index_fail(data@, ext));
                    }
                    return Err(
                        MdictError::InvalidFormat(String::from_str("entry counts disagree")),
                    );
                }
            },
            None => {
                proof {
                    lemma_entries_sums_eq(key_info_list@, grecs);
                    assert(entries_sum(grecs) > u64::MAX);
                    assert(index_witness(data@, ext, gups, pre));
                    assert(index_fail(data@, ext));
                }
                return Err(MdictError::InvalidFormat(String::from_str("entry counts disagree")));
            },
        }
        let n_ri = record_info_list.len();
        if (n_ri as u64) != record_header.record_blocks_num {
            proof {
                lemma_parse_record_info_len(
                    ri_buf@,
                    0,
                    record_header.record_blocks_num as nat,
                    meta.num_width as nat,
                );
                assert(false);
            }
            return Err(MdictError::InvalidFormat(String::from_str("block counts disagree")));
        }
        let nb_ki = key_info_list.len();
        match find_bad_keyword(&keyword_list, &record_info_list, nb_ki) {
            Some(k) => {
                proof {
                    broadcast use vstd::seq_lib::group_to_multiset_ensures;

                    let bad = sorted@[k as int];
                    assert(keyword_list@[k as int].record_start_offset == bad.record_start_offset
                        && keyword_list@[k as int].key_block_idx == bad.key_block_idx);
                    assert(sorted@.contains(bad));
                    assert(pre.to_multiset().count(bad) > 0);
                    vstd::seq_lib::to_multiset_contains(pre, bad);
                    assert(pre.contains(bad));
                    let j = choose|j: int| 0 <= j < pre.len() && pre[j] == bad;
                    if (keyword_list@[k as int].record_start_offset as nat) >= total_unpack(
                        record_info_list@,
                    ) {
                        if n_ri == 0 {
                            assert(grirecs.len() == 0);
                            assert(spec_ri_total(data@) == 0);
                        } else {
                            lemma_total_unpack_eq(record_info_list@, grirecs);
                        }
                        assert((pre[j].record_start_offset as nat) >= spec_ri_total(data@));
                    } else {
                        assert(pre[j].key_block_idx >= grecs.len());
                    }
                    assert(index_witness(data@, ext, gups, pre));
                    assert(index_fail(data@, ext));
                }
                return Err(
                    MdictError::InvalidFormat(String::from_str("record offset out of range")),
                );
            },
            None => {},
        }
        let b = MdictBase {
            data,
            meta,
            header,
            key_header,
            key_info_list,
            keyword_list,
            record_header,
            record_info_list,
            strip_key_flag,
            case_insensitive,
            header_end_offset: header_end,
            key_block_info_start_offset: ki_start,
            key_block_info_end_offset: ki_end,
            record_header_start_offset: rh_start,
            record_block_start_offset,
        };
        proof {
            let kws = b.keyword_list@;
            assert(forall|q: int, j: int|
                0 <= q < j < kws.len() ==> (#[trigger] kws[q]).key_text@ == sorted@[q].key_text@
                    && (#[trigger] kws[j]).key_text@ == sorted@[j].key_text@);
            assert(sorted_by_canon(
                kws,
                b.strip_key_flag,
                b.case_insensitive,
                b.meta.ext is Mdd,
            ));
            lemma_parse_record_info_len(
                ri_buf@,
                0,
                b.record_header.record_blocks_num as nat,
                b.meta.num_width as nat,
            );
            assert(b.wf());
            assert(blocks_ok(data@, b.key_block_info_end_offset as int, b.key_info_list@, gups));
            assert(kws_match_all(
                pre,
                gups,
                0,
                b.meta.num_width as nat,
                width as nat,
                b.meta.encoding,
            ));
            assert(sorted@.to_multiset() == pre.to_multiset());
            assert(b.keyword_list@ == fix_ends(sorted@));
            assert(keywords_provenance(b, data@, gups, pre, sorted@));
            assert(parsed_from(b, data@, ext));
        }
        Ok(b)
    }
}


// ---------------------------------------------------------------------------
// Query engine
// ---------------------------------------------------------------------------

/// Whether `start` lies in record block `i`'s decompressed extent.
pub open spec fn in_extent(ris: Seq<crate::types::RecordInfo>, i: int, start: nat) -> bool {
    &&& 0 <= i < ris.len()
    &&& ris[i].unpack_accumulate_offset as nat <= start
    &&& start < ris[i].unpack_accumulate_offset as nat + ris[i].unpack_size as nat
}

/// With running sums, one block ends where the next begins.
pub proof fn lemma_accum_monotone(ris: Seq<crate::types::RecordInfo>, i: int, j: int)
    requires
        ris.len() > 0 ==> ris[0].pack_accumulate_offset == 0 && ris[0].unpack_accumulate_offset
            == 0,
        forall|k: int|
            0 < k < ris.len() ==> (#[trigger] ris[k]).pack_accumulate_offset as nat == ris[k
                - 1].pack_accumulate_offset as nat + ris[k - 1].pack_size as nat
                && ris[k].unpack_accumulate_offset as nat == ris[k - 1].unpack_accumulate_offset
                as nat + ris[k - 1].unpack_size as nat,
        0 <= i < j < ris.len(),
    ensures
        ris[i].unpack_accumulate_offset as nat + ris[i].unpack_size as nat
            <= ris[j].unpack_accumulate_offset as nat,
    decreases j - i,
{
    if i + 1 < j {
        lemma_accum_monotone(ris, i + 1, j);
    }
}

/// Every in-range offset lies in exactly one record block's extent.
pub proof fn lemma_record_block_unique(ris: Seq<crate::types::RecordInfo>, start: nat)
    requires
        ris.len() > 0 ==> ris[0].pack_accumulate_offset == 0 && ris[0].unpack_accumulate_offset
            == 0,
        forall|k: int|
            0 < k < ris.len() ==> (#[trigger] ris[k]).pack_accumulate_offset as nat == ris[k
                - 1].pack_accumulate_offset as nat + ris[k - 1].pack_size as nat
                && ris[k].unpack_accumulate_offset as nat == ris[k - 1].unpack_accumulate_offset
                as nat + ris[k - 1].unpack_size as nat,
        start < total_unpack(ris),
    ensures
        exists|i: int| #[trigger] in_extent(ris, i, start),
        forall|i: int, j: int|
            #[trigger] in_extent(ris, i, start) && #[trigger] in_extent(ris, j, start) ==> i == j,
    decreases ris.len(),
{
    let n = ris.len() as int;
    if start >= ris[n - 1].unpack_accumulate_offset as nat {
        assert(in_extent(ris, n - 1, start));
    } else {
        let prev = ris.drop_last();
        assert(n >= 2) by {
            if n == 1 {
                assert(ris[0].unpack_accumulate_offset == 0);
            }
        }
        assert(total_unpack(prev) == ris[n - 1].unpack_accumulate_offset as nat) by {
            assert(prev.last() == ris[n - 2]);
        }
        lemma_record_block_unique(prev, start);
        let i = choose|i: int| #[trigger] in_extent(prev, i, start);
        assert(prev[i] == ris[i]);
        assert(in_extent(ris, i, start));
    }
    assert forall|i: int, j: int|
        #[trigger] in_extent(ris, i, start) && #[trigger] in_extent(ris, j, start) implies i
        == j by {
        if i < j {
            lemma_accum_monotone(ris, i, j);
        }
        if j < i {
            lemma_accum_monotone(ris, j, i);
        }
    }
}

/// The keywords whose lowercased text starts with the lowercased prefix.
pub open spec fn filter_prefix(s: Seq<crate::types::KeyWordItem>, p: Seq<char>) -> Seq<
    crate::types::KeyWordItem,
>
    decreases s.len(),
{
    if s.len() == 0 {
        Seq::<crate::types::KeyWordItem>::empty()
    } else if utils::is_prefix_of(shims::lower_of(p), shims::lower_of(s[0].key_text@)) {
        seq![s[0]] + filter_prefix(s.skip(1), p)
    } else {
        filter_prefix(s.skip(1), p)
    }
}

/// The keywords belonging to key block `idx`.
pub open spec fn filter_block(s: Seq<crate::types::KeyWordItem>, idx: int) -> Seq<
    crate::types::KeyWordItem,
>
    decreases s.len(),
{
    if s.len() == 0 {
        Seq::<crate::types::KeyWordItem>::empty()
    } else if s[0].key_block_idx == idx {
        seq![s[0]] + filter_block(s.skip(1), idx)
    } else {
        filter_block(s.skip(1), idx)
    }
}

/// Everything the block filter keeps carries the block index.
pub proof fn lemma_filter_block_all(s: Seq<crate::types::KeyWordItem>, idx: int)
    ensures
        forall|k: int|
            0 <= k < filter_block(s, idx).len() ==> (#[trigger] filter_block(s, idx)[k]).key_block_idx
                == idx,
    decreases s.len(),
{
    if s.len() > 0 {
        lemma_filter_block_all(s.skip(1), idx);
        let f = filter_block(s, idx);
        let rest = filter_block(s.skip(1), idx);
        if s[0].key_block_idx == idx {
            assert forall|k: int| 0 <= k < f.len() implies (#[trigger] f[k]).key_block_idx
                == idx by {
                if k == 0 {
                    assert(f[0] == s[0]);
                } else {
                    assert(f[k] == rest[k - 1]);
                }
            }
        } else {
            assert(f == rest);
        }
    }
}

/// What a successful record-block decompression returns: the compression
/// code dispatch, with record-block decryption applied first for the
/// compressed kinds.
pub open spec fn record_unpack_ok(buf: Seq<u8>, sz: nat, enc_rec: bool, out: Seq<u8>) -> bool {
    let d = if enc_rec {
        utils::mdx_decrypt_spec(buf)
    } else {
        buf
    };
    &&& buf.len() >= 8
    &&& match crate::types::CompressionType::spec_from_bytes(buf) {
        Some(crate::types::CompressionType::Uncompressed) => out == d.skip(8),
        Some(crate::types::CompressionType::Lzo) => crate::lzo::lzo_output_ok(d.skip(8), sz, out),
        Some(crate::types::CompressionType::Zlib) => Some(out) == shims::zlib_of(d.skip(8)),
        None => false,
    }
}

/// The conditions under which a record-block decompression fails.
pub open spec fn record_unpack_fail(buf: Seq<u8>, sz: nat, enc_rec: bool) -> bool {
    let d = if enc_rec {
        utils::mdx_decrypt_spec(buf)
    } else {
        buf
    };
    ||| buf.len() < 8
    ||| match crate::types::CompressionType::spec_from_bytes(buf) {
        None => true,
        Some(crate::types::CompressionType::Uncompressed) => false,
        Some(crate::types::CompressionType::Lzo) => crate::lzo::lzo_decompress_spec(
            d.skip(8),
            sz,
        ) is None,
        Some(crate::types::CompressionType::Zlib) => shims::zlib_of(d.skip(8)) is None,
    }
}

/// The record slice a keyword names inside its decompressed block: from its
/// start offset to its end offset (or the block's end for the zero
/// sentinel), clamped to the block.
pub open spec fn record_slice_end(unpacked: Seq<u8>, record_end: nat, unpack_accum: nat) -> int {
    if record_end == 0 {
        unpacked.len() as int
    } else if record_end - unpack_accum <= unpacked.len() {
        record_end - unpack_accum
    } else {
        unpacked.len() as int
    }
}


/// `lb` is the binary-search landing point for `word` in the sorted
/// keyword list: everything before it compares strictly below the word's
/// canonical key, and the entry at it (when one exists) does not.
pub open spec fn is_lower_bound(b: MdictBase, word: Seq<char>, lb: int) -> bool {
    &&& 0 <= lb <= b.keyword_list@.len()
    &&& forall|i: int|
        0 <= i < lb ==> utils::lex_cmp(
            b.canon_of((#[trigger] b.keyword_list@[i]).key_text@),
            b.canon_of(word),
        ) < 0
    &&& lb < b.keyword_list@.len() ==> utils::lex_cmp(
        b.canon_of(b.keyword_list@[lb].key_text@),
        b.canon_of(word),
    ) >= 0
}

/// The index a landing point selects in a non-empty list: itself, clamped
/// to the last entry.
pub open spec fn clamp_index(len: int, lb: int) -> int {
    if lb < len {
        lb
    } else {
        len - 1
    }
}

/// Everything at or below a position that compares low stays low.
proof fn lemma_sorted_below(b: MdictBase, cws: Seq<char>, mid: int)
    requires
        b.wf(),
        0 <= mid < b.keyword_list@.len(),
        utils::lex_cmp(b.canon_of(b.keyword_list@[mid].key_text@), cws) < 0,
    ensures
        forall|i: int|
            0 <= i <= mid ==> utils::lex_cmp(
                b.canon_of((#[trigger] b.keyword_list@[i]).key_text@),
                cws,
            ) < 0,
{
    let cm = b.canon_of(b.keyword_list@[mid].key_text@);
    assert forall|i: int| 0 <= i <= mid implies utils::lex_cmp(
        b.canon_of((#[trigger] b.keyword_list@[i]).key_text@),
        cws,
    ) < 0 by {
        if i < mid {
            let ci = b.canon_of(b.keyword_list@[i].key_text@);
            assert(cmp_keys_spec(
                b.keyword_list@[i].key_text@,
                b.keyword_list@[mid].key_text@,
                b.strip_key_flag,
                b.case_insensitive,
                b.meta.ext is Mdd,
            ) <= 0);
            utils::lemma_lex_cmp_trans(ci, cm, cws);
        }
    }
}

/// Everything at or above a position that compares high stays high.
proof fn lemma_sorted_above(b: MdictBase, cws: Seq<char>, mid: int)
    requires
        b.wf(),
        0 <= mid < b.keyword_list@.len(),
        utils::lex_cmp(b.canon_of(b.keyword_list@[mid].key_text@), cws) >= 0,
    ensures
        forall|i: int|
            mid <= i < b.keyword_list@.len() ==> utils::lex_cmp(
                b.canon_of((#[trigger] b.keyword_list@[i]).key_text@),
                cws,
            ) >= 0,
{
    let cm = b.canon_of(b.keyword_list@[mid].key_text@);
    assert forall|i: int| mid <= i < b.keyword_list@.len() implies utils::lex_cmp(
        b.canon_of((#[trigger] b.keyword_list@[i]).key_text@),
        cws,
    ) >= 0 by {
        if i > mid {
            let ci = b.canon_of(b.keyword_list@[i].key_text@);
            assert(cmp_keys_spec(
                b.keyword_list@[mid].key_text@,
                b.keyword_list@[i].key_text@,
                b.strip_key_flag,
                b.case_insensitive,
                b.meta.ext is Mdd,
            ) <= 0);
            utils::lemma_lex_cmp_antisym(cm, cws);
            utils::lemma_lex_cmp_antisym(ci, cws);
            utils::lemma_lex_cmp_trans(cws, cm, ci);
        }
    }
}

impl MdictBase {
    /// Normalize a key for comparison, per the header configuration.
    pub fn strip(&self, key: &str) -> (r: String)
        ensures
            r@ == self.canon_of(key@),
    {
        let is_mdd = self.meta.ext == FileExt::Mdd;
        let v = canon_key(key, self.strip_key_flag, self.case_insensitive, is_mdd);
        shims::chars_string(&v)
    }

    /// Compare two keys in canonical order: negative, zero or positive.
    pub fn compare_keys(&self, a: &str, b: &str) -> (r: i8)
        ensures
            r as int == self.cmp_of(a@, b@),
    {
        let is_mdd = self.meta.ext == FileExt::Mdd;
        let ca = canon_key(a, self.strip_key_flag, self.case_insensitive, is_mdd);
        let cb = canon_key(b, self.strip_key_flag, self.case_insensitive, is_mdd);
        utils::cmp_chars(&ca, &cb)
    }

    /// Binary-search the keyword list for `word`.  Without associative mode
    /// the result is the keyword with an equal canonical key, if and only
    /// if one exists; with it, the nearest landing entry of a non-empty
    /// list.
    pub fn lookup_keyword_by_word(&self, word: &str, is_associate: bool) -> (r: Option<
        &crate::types::KeyWordItem,
    >)
        requires
            self.wf(),
        ensures
            match r {
                Some(item) => {
                    &&& exists|i: int|
                        0 <= i < self.keyword_list@.len() && self.keyword_list@[i] == *item
                    &&& !is_associate ==> self.cmp_of(word@, item.key_text@) == 0
                    &&& (exists|i: int|
                        0 <= i < self.keyword_list@.len() && self.cmp_of(
                            word@,
                            (#[trigger] self.keyword_list@[i]).key_text@,
                        ) == 0) ==> self.cmp_of(word@, item.key_text@) == 0
                    &&& exists|lb: int|
                        #[trigger] is_lower_bound(*self, word@, lb) && *item
                            == self.keyword_list@[clamp_index(
                            self.keyword_list@.len() as int,
                            lb,
                        )]
                },
                None => {
                    &&& !is_associate || self.keyword_list@.len() == 0
                    &&& forall|i: int|
                        0 <= i < self.keyword_list@.len() ==> self.cmp_of(
                            word@,
                            (#[trigger] self.keyword_list@[i]).key_text@,
                        ) != 0
                },
            },
    {
        let n = self.keyword_list.len();
        if n == 0 {
            return None;
        }
        let is_mdd = self.meta.ext == FileExt::Mdd;
        let cw = canon_key(word, self.strip_key_flag, self.case_insensitive, is_mdd);
        let ghost cws = self.canon_of(word@);
        let mut lo: usize = 0;
        let mut hi: usize = n;
        while lo < hi
            invariant
                0 <= lo <= hi <= n,
                n == self.keyword_list@.len(),
                cw@ == cws,
                cws == self.canon_of(word@),
                is_mdd == (self.meta.ext is Mdd),
                self.wf(),
                forall|i: int|
                    0 <= i < lo ==> utils::lex_cmp(
                        self.canon_of((#[trigger] self.keyword_list@[i]).key_text@),
                        cws,
                    ) < 0,
                forall|i: int|
                    hi <= i < n ==> utils::lex_cmp(
                        self.canon_of((#[trigger] self.keyword_list@[i]).key_text@),
                        cws,
                    ) >= 0,
            decreases hi - lo,
        {
            let mid = lo + (hi - lo) / 2;
            let cm = canon_key(
                self.keyword_list[mid].key_text.as_str(),
                self.strip_key_flag,
                self.case_insensitive,
                is_mdd,
            );
            let c = utils::cmp_chars(&cm, &cw);
            proof {
                assert(cm@ == self.canon_of(self.keyword_list@[mid as int].key_text@));
                assert(c as int == utils::lex_cmp(
                    self.canon_of(self.keyword_list@[mid as int].key_text@),
                    cws,
                ));
            }
            if c < 0 {
                proof {
                    lemma_sorted_below(*self, cws, mid as int);
                }
                lo = mid + 1;
            } else {
                proof {
                    lemma_sorted_above(*self, cws, mid as int);
                }
                hi = mid;
            }
        }
        let exact: bool = if lo < n {
            let cl = canon_key(
                self.keyword_list[lo].key_text.as_str(),
                self.strip_key_flag,
                self.case_insensitive,
                is_mdd,
            );
            utils::cmp_chars(&cl, &cw) == 0
        } else {
            false
        };
        proof {
            if !exact {
                assert forall|i: int| 0 <= i < n implies self.cmp_of(
                    word@,
                    (#[trigger] self.keyword_list@[i]).key_text@,
                ) != 0 by {
                    let ci = self.canon_of(self.keyword_list@[i].key_text@);
                    utils::lemma_lex_cmp_antisym(ci, cws);
                    if i >= lo && lo < n {
                        let cl = self.canon_of(self.keyword_list@[lo as int].key_text@);
                        if i > lo {
                            assert(utils::lex_cmp(cl, ci) <= 0);
                            if utils::lex_cmp(ci, cws) == 0 {
                                utils::lemma_lex_cmp_eq(ci, cws);
                                assert(utils::lex_cmp(cl, cws) <= 0);
                                assert(utils::lex_cmp(cl, cws) >= 0);
                                utils::lemma_lex_cmp_eq(cl, cws);
                            }
                        }
                    }
                }
            } else {
                utils::lemma_lex_cmp_antisym(
                    self.canon_of(self.keyword_list@[lo as int].key_text@),
                    cws,
                );
                utils::lemma_lex_cmp_eq(self.canon_of(self.keyword_list@[lo as int].key_text@), cws);
            }
        }
        proof {
            assert(is_lower_bound(*self, word@, lo as int));
        }
        if exact {
            return Some(&self.keyword_list[lo]);
        }
        if !is_associate {
            return None;
        }
        let idx = if lo < n {
            lo
        } else {
            n - 1
        };
        Some(&self.keyword_list[idx])
    }

    /// Find the record block containing an offset: the rightmost block
    /// whose decompressed accumulator does not exceed it (the unique
    /// containing block inside the covered extent, the last block beyond
    /// it).
    #[verifier::rlimit(50)]
    pub fn find_record_block_index(&self, record_start: u64) -> (r: usize)
        requires
            self.wf(),
        ensures
            self.record_info_list@.len() == 0 ==> r == 0,
            self.record_info_list@.len() > 0 ==> r < self.record_info_list@.len()
                && self.record_info_list@[r as int].unpack_accumulate_offset <= record_start && (r
                + 1 < self.record_info_list@.len()
                ==> self.record_info_list@[r + 1].unpack_accumulate_offset > record_start),
            (record_start as nat) < total_unpack(self.record_info_list@) ==> in_extent(
                self.record_info_list@,
                r as int,
                record_start as nat,
            ),
            self.record_info_list@.len() > 0 ==> r as int == fetch_block_of(
                self.record_info_list@,
                record_start as nat,
            ),
    {
        let n = self.record_info_list.len();
        if n == 0 {
            return 0;
        }
        let mut left: usize = 0;
        let mut right: usize = n;
        while left < right
            invariant
                0 <= left <= right <= n,
                n == self.record_info_list@.len(),
                n > 0,
                self.wf(),
                forall|i: int|
                    0 <= i < left ==> (#[trigger] self.record_info_list@[i]).unpack_accumulate_offset
                        <= record_start,
                forall|i: int|
                    right <= i < n ==> (#[trigger] self.record_info_list@[i]).unpack_accumulate_offset
                        > record_start,
            decreases right - left,
        {
            let mid = left + (right - left) / 2;
            if record_start >= self.record_info_list[mid].unpack_accumulate_offset {
                proof {
                    assert forall|i: int| 0 <= i < mid + 1 implies (#[trigger] self.record_info_list@[i]).unpack_accumulate_offset
                        <= record_start by {
                        if i < mid as int && i > 0 {
                            lemma_accum_monotone(self.record_info_list@, i - 1, mid as int);
                        }
                        if 0 < i < mid as int {
                            lemma_accum_monotone(self.record_info_list@, i, mid as int);
                        }
                    }
                }
                left = mid + 1;
            } else {
                proof {
                    assert forall|i: int| mid <= i < n implies (#[trigger] self.record_info_list@[i]).unpack_accumulate_offset
                        > record_start by {
                        if i > mid as int {
                            lemma_accum_monotone(self.record_info_list@, mid as int, i);
                        }
                    }
                }
                right = mid;
            }
        }
        proof {
            let ris = self.record_info_list@;
            let start = record_start as nat;
            assert(left >= 1) by {
                if left == 0 {
                    assert(ris[0].unpack_accumulate_offset > record_start);
                }
            }
            if start < total_unpack(ris) {
                if left < n {
                    assert(ris[left as int].unpack_accumulate_offset as nat == ris[left
                        - 1].unpack_accumulate_offset as nat + ris[left - 1].unpack_size as nat);
                }
                assert(in_extent(ris, left - 1, start));
            }
            // the landing index is the block a fetch reads
            let r0 = left - 1;
            if left < n {
                assert(ris[left as int].unpack_accumulate_offset as nat == ris[r0].unpack_accumulate_offset
                    as nat + ris[r0].unpack_size as nat);
                assert(in_extent(ris, r0, start));
            }
            if exists|j: int| in_extent(ris, j, start) {
                let j = choose|j: int| in_extent(ris, j, start);
                assert(in_extent(ris, r0, start)) by {
                    if left >= n {
                        if j < r0 {
                            lemma_accum_monotone(ris, j, r0);
                        }
                        if j > r0 {
                            assert(false);
                        }
                    }
                }
                assert forall|a: int, b: int|
                    in_extent(ris, a, start) && in_extent(ris, b, start) implies a == b by {
                    if a < b {
                        lemma_accum_monotone(ris, a, b);
                    }
                    if b < a {
                        lemma_accum_monotone(ris, b, a);
                    }
                }
                assert(fetch_block_of(ris, start) == r0);
            } else {
                assert(left >= n) by {
                    if left < n {
                        assert(in_extent(ris, r0, start));
                    }
                }
                assert(fetch_block_of(ris, start) == n - 1);
            }
        }
        left - 1
    }

    /// Decompress one record block, decrypting it first when the header
    /// declares record-block encryption.
    pub fn decompress_record_block(&self, record_buffer: &Vec<u8>, unpack_size: usize) -> (r:
        Result<Vec<u8>, MdictError>)
        requires
            unpack_size <= usize::MAX - 1024,
        ensures
            match r {
                Ok(v) => record_unpack_ok(
                    record_buffer@,
                    unpack_size as nat,
                    self.meta.encrypt is RecordBlock,
                    v@,
                ),
                Err(e) => record_unpack_fail(
                    record_buffer@,
                    unpack_size as nat,
                    self.meta.encrypt is RecordBlock,
                ) && ((e is InvalidCompressionType) <==> (record_buffer@.len() >= 8
                    && crate::types::CompressionType::spec_from_bytes(record_buffer@) is None))
                    && (e matches MdictError::InvalidCompressionType(c) ==> c
                    == crate::ripemd128::le32_at(record_buffer@, 0)),
            },
    {
        let n = record_buffer.len();
        if n < 8 {
            return Err(MdictError::InvalidFormat(String::from_str("block too short")));
        }
        let comp = crate::types::CompressionType::from_bytes(record_buffer.as_slice());
        let encrypted = self.meta.encrypt == EncryptType::RecordBlock;
        match comp {
            Option::None => {
                let code = (record_buffer[0] as u32) + (record_buffer[1] as u32) * 0x100 + (
                record_buffer[2] as u32) * 0x10000 + (record_buffer[3] as u32) * 0x1000000;
                Err(MdictError::InvalidCompressionType(code))
            },
            Option::Some(crate::types::CompressionType::Uncompressed) => {
                let d = if encrypted {
                    utils::mdx_decrypt(record_buffer.as_slice())
                } else {
                    utils::bytes_range(record_buffer.as_slice(), 0, n)
                };
                proof {
                    if !encrypted {
                        assert(d@ =~= record_buffer@);
                    }
                    assert(d@.len() == n);
                }
                let out = utils::bytes_range(d.as_slice(), 8, n);
                proof {
                    assert(out@ =~= d@.skip(8));
                }
                Ok(out)
            },
            Option::Some(crate::types::CompressionType::Lzo) => {
                let d = if encrypted {
                    utils::mdx_decrypt(record_buffer.as_slice())
                } else {
                    utils::bytes_range(record_buffer.as_slice(), 0, n)
                };
                proof {
                    if !encrypted {
                        assert(d@ =~= record_buffer@);
                    }
                    assert(d@.len() == n);
                }
                let payload = utils::bytes_range(d.as_slice(), 8, n);
                proof {
                    assert(payload@ =~= d@.skip(8));
                }
                crate::lzo::decompress(payload.as_slice(), unpack_size)
            },
            Option::Some(crate::types::CompressionType::Zlib) => {
                let d = if encrypted {
                    utils::mdx_decrypt(record_buffer.as_slice())
                } else {
                    utils::bytes_range(record_buffer.as_slice(), 0, n)
                };
                proof {
                    if !encrypted {
                        assert(d@ =~= record_buffer@);
                    }
                    assert(d@.len() == n);
                }
                let payload = utils::bytes_range(d.as_slice(), 8, n);
                proof {
                    assert(payload@ =~= d@.skip(8));
                }
                match shims::zlib_inflate(payload.as_slice()) {
                    Some(v) => Ok(v),
                    None => Err(
                        MdictError::DecompressionError(String::from_str("zlib stream rejected")),
                    ),
                }
            },
        }
    }
}

/// Slice one record out of its decompressed block.  When the end offset is
/// the zero sentinel or reaches past the block, the slice runs to the
/// block's end; the length equals `record_end - record_start` whenever the
/// end offset is set and lands inside the block.
pub fn extract_record(
    unpacked: &Vec<u8>,
    record_start: u64,
    record_end: u64,
    unpack_accum: u64,
) -> (r: Result<Vec<u8>, MdictError>)
    ensures
        match r {
            Ok(v) => {
                &&& unpack_accum <= record_start
                &&& record_start - unpack_accum <= unpacked@.len()
                &&& !(record_end != 0 && record_end < record_start)
                &&& v@ == unpacked@.subrange(
                    record_start - unpack_accum,
                    record_slice_end(unpacked@, record_end as nat, unpack_accum as nat),
                )
                &&& (record_end != 0 && record_end - unpack_accum <= unpacked@.len()
                    ==> v@.len() == record_end - record_start)
            },
            Err(_) => record_start < unpack_accum || record_start - unpack_accum > unpacked@.len()
                || (record_end != 0 && record_end < record_start),
        },
{
    let len = unpacked.len();
    if record_start < unpack_accum {
        return Err(MdictError::InvalidFormat(String::from_str("record offset out of range")));
    }
    let start_rel64 = record_start - unpack_accum;
    if start_rel64 > len as u64 {
        return Err(MdictError::InvalidFormat(String::from_str("record offset out of range")));
    }
    if record_end != 0 && record_end < record_start {
        return Err(MdictError::InvalidFormat(String::from_str("record range inverted")));
    }
    let start_rel = start_rel64 as usize;
    let end_rel: usize = if record_end == 0 {
        len
    } else {
        let e = record_end - unpack_accum;
        if e > len as u64 {
            len
        } else {
            e as usize
        }
    };
    Ok(utils::bytes_range(unpacked.as_slice(), start_rel, end_rel))
}


/// The record block a fetch reads for offset `start`: the unique block
/// whose decompressed extent contains it, or the last block when `start`
/// lies at or past the end of the covered extent.
pub open spec fn fetch_block_of(ris: Seq<crate::types::RecordInfo>, start: nat) -> int {
    if exists|i: int| in_extent(ris, i, start) {
        choose|i: int| in_extent(ris, i, start)
    } else {
        ris.len() - 1
    }
}

/// A decompressed record block whose length misses the declared size.
pub open spec fn unpack_len_mismatch(buf: Seq<u8>, sz: nat, enc_rec: bool) -> bool {
    let d = if enc_rec {
        utils::mdx_decrypt_spec(buf)
    } else {
        buf
    };
    match crate::types::CompressionType::spec_from_bytes(buf) {
        Some(crate::types::CompressionType::Uncompressed) => buf.len() >= 8 && d.skip(8).len()
            != sz,
        Some(crate::types::CompressionType::Lzo) => (shims::minilzo_of(d.skip(8), sz) matches Some(
            v,
        ) && v.len() != sz) || (crate::lzo::lzo_decompress_spec(d.skip(8), sz) matches Some(v)
            && v.len() != sz),
        Some(crate::types::CompressionType::Zlib) => shims::zlib_of(d.skip(8)) matches Some(v)
            && v.len() != sz,
        None => false,
    }
}

/// The deterministic conditions under which fetching `item`'s record
/// fails: no record blocks, sizes or offsets beyond the machine's or the
/// file's bounds, a rejected compressed stream, a decompressed length that
/// misses the declared size, or a slice outside the block's extent.
pub open spec fn fetch_fails(b: MdictBase, item: crate::types::KeyWordItem) -> bool {
    let ris = b.record_info_list@;
    if ris.len() == 0 {
        true
    } else {
        let i = fetch_block_of(ris, item.record_start_offset as nat);
        let ri = ris[i];
        let base = b.record_block_start_offset as int;
        let region = b.data@.subrange(
            base + ri.pack_accumulate_offset,
            base + ri.pack_accumulate_offset + ri.pack_size,
        );
        ||| ri.pack_size > usize::MAX
        ||| ri.unpack_size > usize::MAX - 1024
        ||| ri.pack_accumulate_offset + ri.pack_size > u64::MAX
        ||| base + ri.pack_accumulate_offset + ri.pack_size > u64::MAX
        ||| base + ri.pack_accumulate_offset + ri.pack_size > b.data@.len()
        ||| record_unpack_fail(region, ri.unpack_size as nat, b.meta.encrypt is RecordBlock)
        ||| unpack_len_mismatch(region, ri.unpack_size as nat, b.meta.encrypt is RecordBlock)
        ||| item.record_start_offset < ri.unpack_accumulate_offset
        ||| item.record_start_offset - ri.unpack_accumulate_offset > ri.unpack_size
        ||| (item.record_end_offset != 0 && item.record_end_offset < item.record_start_offset)
    }
}

/// What a fetched record is: block `i` holds the keyword's start offset,
/// `content` is that block's decompressed bytes, and the result is the
/// keyword's slice of them, with the end-offset sentinel and clamping
/// rules applied.
pub open spec fn record_fetch_ok(
    b: MdictBase,
    item: crate::types::KeyWordItem,
    i: int,
    content: Seq<u8>,
    out: Seq<u8>,
) -> bool {
    let ri = b.record_info_list@[i];
    let region = b.data@.subrange(
        b.record_block_start_offset + ri.pack_accumulate_offset,
        b.record_block_start_offset + ri.pack_accumulate_offset + ri.pack_size,
    );
    &&& 0 <= i < b.record_info_list@.len()
    &&& i == fetch_block_of(b.record_info_list@, item.record_start_offset as nat)
    &&& ((item.record_start_offset as nat) < total_unpack(b.record_info_list@) ==> in_extent(
        b.record_info_list@,
        i,
        item.record_start_offset as nat,
    ))
    &&& ri.unpack_accumulate_offset <= item.record_start_offset
    &&& b.record_block_start_offset + ri.pack_accumulate_offset + ri.pack_size <= b.data@.len()
    &&& record_unpack_ok(region, ri.unpack_size as nat, b.meta.encrypt is RecordBlock, content)
    &&& content.len() == ri.unpack_size
    &&& ri.unpack_size <= usize::MAX - 1024
    &&& item.record_start_offset - ri.unpack_accumulate_offset <= content.len()
    &&& out == content.subrange(
        item.record_start_offset - ri.unpack_accumulate_offset,
        record_slice_end(
            content,
            item.record_end_offset as nat,
            ri.unpack_accumulate_offset as nat,
        ),
    )
    &&& (item.record_end_offset != 0 && item.record_end_offset - ri.unpack_accumulate_offset
        <= content.len() ==> out.len() == item.record_end_offset - item.record_start_offset)
}

impl MdictBase {
    /// Fetch the raw record bytes a keyword names: find its record block,
    /// read, decrypt and decompress it (checking the declared decompressed
    /// size), and slice the keyword's extent.  Fetching fails exactly under
    /// `fetch_fails`, up to the minilzo path accepting a stream the in-tree
    /// decoder's specification rejects.
    #[verifier::rlimit(50)]
    pub fn lookup_record_by_keyword(&self, item: &crate::types::KeyWordItem) -> (r: Result<
        Vec<u8>,
        MdictError,
    >)
        requires
            self.wf(),
        ensures
            match r {
                Ok(v) => (exists|i: int, content: Seq<u8>|
                    #[trigger] record_fetch_ok(*self, *item, i, content, v@)) && v@.len()
                    <= usize::MAX - 1024,
                Err(_) => fetch_fails(*self, *item),
            },
            !fetch_fails(*self, *item) ==> r is Ok,
    {
        let n_ri = self.record_info_list.len();
        if n_ri == 0 {
            return Err(MdictError::InvalidFormat(String::from_str("no record blocks")));
        }
        let idx = self.find_record_block_index(item.record_start_offset);
        let ghost ris = self.record_info_list@;
        let ghost fb = fetch_block_of(ris, item.record_start_offset as nat);
        proof {
            assert(idx as int == fb);
        }
        let pack_accu = self.record_info_list[idx].pack_accumulate_offset;
        let pack_size = self.record_info_list[idx].pack_size;
        let unpack_size = self.record_info_list[idx].unpack_size;
        let unpack_accu = self.record_info_list[idx].unpack_accumulate_offset;
        if pack_size > usize::MAX as u64 || unpack_size > usize::MAX as u64 - 1024 {
            return Err(MdictError::InvalidFormat(String::from_str("block size out of range")));
        }
        if pack_accu > u64::MAX - pack_size || self.record_block_start_offset > u64::MAX - (
        pack_accu + pack_size) {
            return Err(MdictError::Io(String::from_str("read past end of file")));
        }
        let off = self.record_block_start_offset + pack_accu;
        let buf = match read_buffer(&self.data, off, pack_size as usize) {
            Ok(b) => b,
            Err(e) => {
                return Err(e);
            },
        };
        let ghost region = self.data@.subrange(
            self.record_block_start_offset as int + pack_accu as int,
            self.record_block_start_offset as int + pack_accu as int + pack_size as int,
        );
        proof {
            assert(buf@ == region);
        }
        let unpacked = match self.decompress_record_block(&buf, unpack_size as usize) {
            Ok(b) => b,
            Err(e) => {
                return Err(e);
            },
        };
        if (unpacked.len() as u64) != unpack_size {
            proof {
                let enc = self.meta.encrypt is RecordBlock;
                let d = if enc {
                    utils::mdx_decrypt_spec(region)
                } else {
                    region
                };
                assert(unpack_len_mismatch(region, unpack_size as nat, enc)) by {
                    if region.len() >= 8 && crate::types::CompressionType::spec_from_bytes(region)
                        == Some(crate::types::CompressionType::Lzo) {
                        if Some(unpacked@) != shims::minilzo_of(
                            d.skip(8),
                            unpack_size as nat,
                        ) {
                            assert(Some(unpacked@) == crate::lzo::lzo_decompress_spec(
                                d.skip(8),
                                unpack_size as nat,
                            ));
                        }
                    }
                }
            }
            return Err(
                MdictError::DecompressionError(String::from_str("decompressed size mismatch")),
            );
        }
        let out = match extract_record(
            &unpacked,
            item.record_start_offset,
            item.record_end_offset,
            unpack_accu,
        ) {
            Ok(v) => v,
            Err(e) => {
                return Err(e);
            },
        };
        proof {
            assert(record_fetch_ok(*self, *item, idx as int, unpacked@, out@));
        }
        Ok(out)
    }

    /// The keywords whose lowercased text starts with the lowercased
    /// prefix, in sort order.
    pub fn get_prefix_keywords(&self, prefix: &str) -> (r: Vec<crate::types::KeyWordItem>)
        ensures
            r@ == filter_prefix(self.keyword_list@, prefix@),
    {
        let lp_s = shims::lowercase(prefix);
        let lp = shims::str_chars(lp_s.as_str());
        let n = self.keyword_list.len();
        let mut out: Vec<crate::types::KeyWordItem> = Vec::new();
        let mut i: usize = 0;
        proof {
            assert(self.keyword_list@.skip(0) =~= self.keyword_list@);
            assert(out@ + filter_prefix(self.keyword_list@, prefix@) =~= filter_prefix(
                self.keyword_list@,
                prefix@,
            ));
        }
        while i < n
            invariant
                i <= n,
                n == self.keyword_list@.len(),
                lp@ == shims::lower_of(prefix@),
                out@ + filter_prefix(self.keyword_list@.skip(i as int), prefix@) == filter_prefix(
                    self.keyword_list@,
                    prefix@,
                ),
            decreases n - i,
        {
            let ghost tail = self.keyword_list@.skip(i as int);
            proof {
                assert(tail[0] == self.keyword_list@[i as int]);
                assert(tail.skip(1) =~= self.keyword_list@.skip(i + 1));
            }
            let lk_s = shims::lowercase(self.keyword_list[i].key_text.as_str());
            let lk = shims::str_chars(lk_s.as_str());
            if utils::chars_start_with(&lk, &lp) {
                let ghost pre = out@;
                out.push(clone_item(&self.keyword_list[i]));
                proof {
                    assert(out@ + filter_prefix(self.keyword_list@.skip(i + 1), prefix@) =~= pre
                        + (seq![self.keyword_list@[i as int]] + filter_prefix(
                        self.keyword_list@.skip(i + 1),
                        prefix@,
                    )));
                }
            }
            i = i + 1;
        }
        proof {
            assert(self.keyword_list@.skip(n as int) =~= Seq::<crate::types::KeyWordItem>::empty());
            assert(out@ + Seq::<crate::types::KeyWordItem>::empty() =~= out@);
        }
        out
    }

    /// The keywords sharing the key block of the entry nearest to `word`:
    /// the writer's grouping, used as the fuzzy-search candidate pool.
    pub fn get_associated_keywords(&self, word: &str) -> (r: Vec<crate::types::KeyWordItem>)
        requires
            self.wf(),
        ensures
            self.keyword_list@.len() == 0 ==> r@.len() == 0,
            self.keyword_list@.len() > 0 ==> exists|lb: int|
                {
                    &&& #[trigger] is_lower_bound(*self, word@, lb)
                    &&& r@ == filter_block(
                        self.keyword_list@,
                        self.keyword_list@[clamp_index(
                            self.keyword_list@.len() as int,
                            lb,
                        )].key_block_idx as int,
                    )
                    &&& ((exists|i: int|
                        0 <= i < self.keyword_list@.len() && self.cmp_of(
                            word@,
                            (#[trigger] self.keyword_list@[i]).key_text@,
                        ) == 0) ==> self.cmp_of(
                        word@,
                        self.keyword_list@[clamp_index(
                            self.keyword_list@.len() as int,
                            lb,
                        )].key_text@,
                    ) == 0)
                },
            forall|k1: int, k2: int|
                0 <= k1 < r@.len() && 0 <= k2 < r@.len() ==> (#[trigger] r@[k1]).key_block_idx == (
                #[trigger] r@[k2]).key_block_idx,
    {
        let bidx: usize;
        let ghost glb: int;
        match self.lookup_keyword_by_word(word, true) {
            Option::None => {
                let empty: Vec<crate::types::KeyWordItem> = Vec::new();
                return empty;
            },
            Option::Some(item) => {
                bidx = item.key_block_idx;
                proof {
                    glb = choose|lb: int|
                        #[trigger] is_lower_bound(*self, word@, lb) && *item
                            == self.keyword_list@[clamp_index(
                            self.keyword_list@.len() as int,
                            lb,
                        )];
                    assert(self.keyword_list@[clamp_index(
                        self.keyword_list@.len() as int,
                        glb,
                    )].key_block_idx == bidx);
                }
            },
        }
        let n = self.keyword_list.len();
        let mut out: Vec<crate::types::KeyWordItem> = Vec::new();
        let mut i: usize = 0;
        proof {
            assert(self.keyword_list@.skip(0) =~= self.keyword_list@);
            assert(out@ + filter_block(self.keyword_list@, bidx as int) =~= filter_block(
                self.keyword_list@,
                bidx as int,
            ));
        }
        while i < n
            invariant
                i <= n,
                n == self.keyword_list@.len(),
                out@ + filter_block(self.keyword_list@.skip(i as int), bidx as int)
                    == filter_block(self.keyword_list@, bidx as int),
            decreases n - i,
        {
            let ghost tail = self.keyword_list@.skip(i as int);
            proof {
                assert(tail[0] == self.keyword_list@[i as int]);
                assert(tail.skip(1) =~= self.keyword_list@.skip(i + 1));
            }
            if self.keyword_list[i].key_block_idx == bidx {
                let ghost pre = out@;
                out.push(clone_item(&self.keyword_list[i]));
                proof {
                    assert(out@ + filter_block(self.keyword_list@.skip(i + 1), bidx as int)
                        =~= pre + (seq![self.keyword_list@[i as int]] + filter_block(
                        self.keyword_list@.skip(i + 1),
                        bidx as int,
                    )));
                }
            }
            i = i + 1;
        }
        proof {
            assert(self.keyword_list@.skip(n as int) =~= Seq::<crate::types::KeyWordItem>::empty());
            assert(out@ + Seq::<crate::types::KeyWordItem>::empty() =~= out@);
            lemma_filter_block_all(self.keyword_list@, bidx as int);
            assert(is_lower_bound(*self, word@, glb));
        }
        out
    }
}


// ---------------------------------------------------------------------------
// Laws of the keyword index
// ---------------------------------------------------------------------------

/// Comparing any key with itself yields zero, and every stored keyword
/// matches its own text: a lookup of `k.key_text` lands on a keyword with
/// the same canonical key.
pub proof fn lemma_compare_keys_refl(b: MdictBase, i: int)
    requires
        b.wf(),
        0 <= i < b.keyword_list@.len(),
    ensures
        b.cmp_of(b.keyword_list@[i].key_text@, b.keyword_list@[i].key_text@) == 0,
        exists|j: int|
            0 <= j < b.keyword_list@.len() && b.cmp_of(
                b.keyword_list@[i].key_text@,
                (#[trigger] b.keyword_list@[j]).key_text@,
            ) == 0,
{
    utils::lemma_lex_cmp_eq(
        b.canon_of(b.keyword_list@[i].key_text@),
        b.canon_of(b.keyword_list@[i].key_text@),
    );
    assert(b.cmp_of(
        b.keyword_list@[i].key_text@,
        (b.keyword_list@[i]).key_text@,
    ) == 0);
}

/// The order binary search relies on is the canonical strip-then-compare
/// order: earlier entries never compare above later ones.
pub proof fn lemma_sorted_order(b: MdictBase, i: int, j: int)
    requires
        b.wf(),
        0 <= i < j < b.keyword_list@.len(),
    ensures
        b.cmp_of(b.keyword_list@[i].key_text@, b.keyword_list@[j].key_text@) <= 0,
{
    assert(cmp_keys_spec(
        b.keyword_list@[i].key_text@,
        b.keyword_list@[j].key_text@,
        b.strip_key_flag,
        b.case_insensitive,
        b.meta.ext is Mdd,
    ) <= 0);
}

/// The three entry counts agree: the keyword list's length, the sum of the
/// key-info table's per-block counts, and the record header's entry count.
pub proof fn lemma_entry_counts(b: MdictBase)
    requires
        b.wf(),
    ensures
        b.keyword_list@.len() == b.record_header.entries_num,
        items_entries_sum(b.key_info_list@) == b.keyword_list@.len(),
{
}

/// Every keyword's record start offset lies in the decompressed extent of
/// exactly one record block.
pub proof fn lemma_record_start_in_one_block(b: MdictBase, k: int)
    requires
        b.wf(),
        0 <= k < b.keyword_list@.len(),
    ensures
        exists|i: int|
            #[trigger] in_extent(
                b.record_info_list@,
                i,
                b.keyword_list@[k].record_start_offset as nat,
            ),
        forall|i: int, j: int|
            #[trigger] in_extent(
                b.record_info_list@,
                i,
                b.keyword_list@[k].record_start_offset as nat,
            ) && #[trigger] in_extent(
                b.record_info_list@,
                j,
                b.keyword_list@[k].record_start_offset as nat,
            ) ==> i == j,
{
    lemma_record_block_unique(
        b.record_info_list@,
        b.keyword_list@[k].record_start_offset as nat,
    );
}


} // verus!
