//! Byte-level and text-level utilities: big-endian integer decoding,
//! entity unescaping, edit distance, key normalization, and the XOR
//! stream cipher used for encrypted blocks.

use vstd::prelude::*;

use crate::shims;

verus! {

// ---------------------------------------------------------------------------
// Lexicographic order on character sequences
// ---------------------------------------------------------------------------

/// Three-way lexicographic comparison over Unicode scalar values:
/// -1 when `a` sorts before `b`, 0 when equal, 1 when after.
pub open spec fn lex_cmp(a: Seq<char>, b: Seq<char>) -> int
    decreases a.len(),
{
    if a.len() == 0 && b.len() == 0 {
        0
    } else if a.len() == 0 {
        -1
    } else if b.len() == 0 {
        1
    } else if a[0] < b[0] {
        -1
    } else if a[0] > b[0] {
        1
    } else {
        lex_cmp(a.skip(1), b.skip(1))
    }
}

pub proof fn lemma_lex_cmp_eq(a: Seq<char>, b: Seq<char>)
    ensures
        (lex_cmp(a, b) == 0) <==> (a == b),
    decreases a.len(),
{
    if a.len() == 0 && b.len() == 0 {
        assert(a =~= b);
    } else if a.len() != 0 && b.len() != 0 {
        lemma_lex_cmp_eq(a.skip(1), b.skip(1));
        assert(forall|i: int| 0 <= i < a.skip(1).len() ==> a.skip(1)[i] == a[i + 1]);
        assert(forall|i: int| 0 <= i < b.skip(1).len() ==> b.skip(1)[i] == b[i + 1]);
        if lex_cmp(a, b) == 0 {
            assert(a[0] == b[0]);
            assert(lex_cmp(a.skip(1), b.skip(1)) == 0);
            assert(a.skip(1) == b.skip(1));
            assert forall|i: int| 1 <= i < a.len() implies a[i] == b[i] by {
                assert(a.skip(1)[i - 1] == a[i]);
                assert(b.skip(1)[i - 1] == b[i]);
            }
            assert(a =~= b);
        }
        if a == b {
            assert(a.skip(1) =~= b.skip(1));
        }
    }
}

pub proof fn lemma_lex_cmp_antisym(a: Seq<char>, b: Seq<char>)
    ensures
        lex_cmp(a, b) == -lex_cmp(b, a),
    decreases a.len(),
{
    if a.len() != 0 && b.len() != 0 {
        lemma_lex_cmp_antisym(a.skip(1), b.skip(1));
    }
}

pub proof fn lemma_lex_cmp_trans(a: Seq<char>, b: Seq<char>, c: Seq<char>)
    ensures
        lex_cmp(a, b) <= 0 && lex_cmp(b, c) <= 0 ==> lex_cmp(a, c) <= 0,
        lex_cmp(a, b) <= 0 && lex_cmp(b, c) < 0 ==> lex_cmp(a, c) < 0,
        lex_cmp(a, b) < 0 && lex_cmp(b, c) <= 0 ==> lex_cmp(a, c) < 0,
    decreases a.len(),
{
    if a.len() != 0 && b.len() != 0 && c.len() != 0 {
        lemma_lex_cmp_trans(a.skip(1), b.skip(1), c.skip(1));
    }
}

/// Three-way comparison of two character vectors in lexicographic order.
pub fn cmp_chars(a: &Vec<char>, b: &Vec<char>) -> (r: i8)
    ensures
        r as int == lex_cmp(a@, b@),
{
    let mut i: usize = 0;
    proof {
        assert(a@.skip(0) =~= a@);
        assert(b@.skip(0) =~= b@);
    }
    loop
        invariant
            i <= a@.len(),
            i <= b@.len(),
            lex_cmp(a@, b@) == lex_cmp(a@.skip(i as int), b@.skip(i as int)),
        decreases a@.len() - i,
    {
        if i >= a.len() {
            if i >= b.len() {
                return 0;
            }
            return -1;
        }
        if i >= b.len() {
            return 1;
        }
        let ca = a[i];
        let cb = b[i];
        if ca < cb {
            return -1;
        }
        if ca > cb {
            return 1;
        }
        proof {
            assert(a@.skip(i as int).skip(1) =~= a@.skip(i + 1));
            assert(b@.skip(i as int).skip(1) =~= b@.skip(i + 1));
        }
        i = i + 1;
    }
}

/// Whether `p` is a prefix of `s`.
pub open spec fn is_prefix_of(p: Seq<char>, s: Seq<char>) -> bool {
    p.len() <= s.len() && s.take(p.len() as int) == p
}

/// Whether the characters of `s` start with the characters of `p`.
pub fn chars_start_with(s: &Vec<char>, p: &Vec<char>) -> (r: bool)
    ensures
        r == is_prefix_of(p@, s@),
{
    if p.len() > s.len() {
        return false;
    }
    let mut i: usize = 0;
    while i < p.len()
        invariant
            p@.len() <= s@.len(),
            i <= p@.len(),
            forall|j: int| 0 <= j < i ==> s@[j] == p@[j],
        decreases p@.len() - i,
    {
        if s[i] != p[i] {
            proof {
                assert(s@.take(p@.len() as int)[i as int] == s@[i as int]);
            }
            return false;
        }
        i = i + 1;
    }
    proof {
        assert(s@.take(p@.len() as int) =~= p@);
    }
    true
}

// ---------------------------------------------------------------------------
// Substring replacement and entity unescaping
// ---------------------------------------------------------------------------

/// `s` with every (leftmost, non-overlapping) occurrence of `pat` replaced
/// by `rep`.
pub open spec fn replace_seq(s: Seq<char>, pat: Seq<char>, rep: Seq<char>) -> Seq<char>
    decreases s.len(),
    when pat.len() >= 1
{
    if s.len() == 0 {
        Seq::<char>::empty()
    } else if pat.len() <= s.len() && s.take(pat.len() as int) == pat {
        rep + replace_seq(s.skip(pat.len() as int), pat, rep)
    } else {
        seq![s[0]] + replace_seq(s.skip(1), pat, rep)
    }
}

/// Whether `pat` occurs in `s` starting at position `i`.
fn matches_at(s: &Vec<char>, i: usize, pat: &Vec<char>) -> (r: bool)
    requires
        i <= s@.len(),
    ensures
        r == (i + pat@.len() <= s@.len() && s@.skip(i as int).take(pat@.len() as int) == pat@),
{
    let n = s.len();
    if pat.len() > n - i {
        return false;
    }
    let mut j: usize = 0;
    while j < pat.len()
        invariant
            i + pat@.len() <= s@.len(),
            s@.len() == n,
            j <= pat@.len(),
            forall|k: int| 0 <= k < j ==> s@[i + k] == pat@[k],
        decreases pat@.len() - j,
    {
        if s[i + j] != pat[j] {
            proof {
                assert(s@.skip(i as int).take(pat@.len() as int)[j as int] == s@[i + j]);
            }
            return false;
        }
        j = j + 1;
    }
    proof {
        assert(s@.skip(i as int).take(pat@.len() as int) =~= pat@);
    }
    true
}

/// Replace every occurrence of `pat` in `s` by `rep`, scanning left to
/// right without overlap.
pub fn replace_chars(s: &Vec<char>, pat: &Vec<char>, rep: &Vec<char>) -> (r: Vec<char>)
    requires
        pat@.len() >= 1,
    ensures
        r@ == replace_seq(s@, pat@, rep@),
{
    let mut out: Vec<char> = Vec::new();
    let mut i: usize = 0;
    proof {
        assert(s@.skip(0) =~= s@);
        assert(out@ + replace_seq(s@, pat@, rep@) =~= replace_seq(s@, pat@, rep@));
    }
    while i < s.len()
        invariant
            pat@.len() >= 1,
            i <= s@.len(),
            out@ + replace_seq(s@.skip(i as int), pat@, rep@) == replace_seq(s@, pat@, rep@),
        decreases s@.len() - i,
    {
        let ghost pre = out@;
        let ghost tail = s@.skip(i as int);
        if matches_at(s, i, pat) {
            let mut k: usize = 0;
            while k < rep.len()
                invariant
                    k <= rep@.len(),
                    out@ == pre + rep@.take(k as int),
                decreases rep@.len() - k,
            {
                out.push(rep[k]);
                proof {
                    assert(pre + rep@.take(k + 1) =~= (pre + rep@.take(k as int)).push(
                        rep@[k as int],
                    ));
                }
                k = k + 1;
            }
            proof {
                assert(rep@.take(rep@.len() as int) =~= rep@);
                assert(tail.skip(pat@.len() as int) =~= s@.skip(i + pat@.len()));
                assert(replace_seq(tail, pat@, rep@) == rep@ + replace_seq(
                    s@.skip(i + pat@.len()),
                    pat@,
                    rep@,
                ));
                assert(out@ + replace_seq(s@.skip(i + pat@.len()), pat@, rep@) =~= pre + (rep@
                    + replace_seq(s@.skip(i + pat@.len()), pat@, rep@)));
            }
            i = i + pat.len();
        } else {
            out.push(s[i]);
            proof {
                assert(tail.len() > 0);
                assert(tail[0] == s@[i as int]);
                assert(tail.skip(1) =~= s@.skip(i + 1));
                assert(replace_seq(tail, pat@, rep@) == seq![s@[i as int]] + replace_seq(
                    s@.skip(i + 1),
                    pat@,
                    rep@,
                ));
                assert(out@ + replace_seq(s@.skip(i + 1), pat@, rep@) =~= pre + (seq![
                    s@[i as int],
                ] + replace_seq(s@.skip(i + 1), pat@, rep@)));
            }
            i = i + 1;
        }
    }
    proof {
        assert(s@.skip(s@.len() as int) =~= Seq::<char>::empty());
        assert(out@ + Seq::<char>::empty() =~= out@);
    }
    out
}

// ---------------------------------------------------------------------------
// Big-endian integers
// ---------------------------------------------------------------------------

/// The number denoted by `bytes` read as a big-endian unsigned integer.
pub open spec fn be_uint(bytes: Seq<u8>) -> nat
    decreases bytes.len(),
{
    if bytes.len() == 0 {
        0
    } else {
        be_uint(bytes.drop_last()) * 256 + bytes.last() as nat
    }
}

/// 256 to the power `n`.
pub open spec fn pow256(n: nat) -> nat
    decreases n,
{
    if n == 0 {
        1
    } else {
        256 * pow256((n - 1) as nat)
    }
}

pub proof fn lemma_be_uint_bound(bytes: Seq<u8>)
    ensures
        be_uint(bytes) < pow256(bytes.len()),
    decreases bytes.len(),
{
    if bytes.len() > 0 {
        lemma_be_uint_bound(bytes.drop_last());
    }
}

/// Read the first `width` bytes of `bytes` as a big-endian integer.
fn be_read(bytes: &[u8], width: usize) -> (r: u64)
    requires
        width <= 8,
        bytes@.len() >= width,
    ensures
        r as nat == be_uint(bytes@.take(width as int)),
{
    let mut v: u64 = 0;
    let mut i: usize = 0;
    proof {
        assert(bytes@.take(0) =~= Seq::<u8>::empty());
        reveal_with_fuel(pow256, 9);
    }
    while i < width
        invariant
            i <= width <= 8,
            bytes@.len() >= width,
            v as nat == be_uint(bytes@.take(i as int)),
            (v as nat) < pow256(i as nat),
        decreases width - i,
    {
        proof {
            reveal_with_fuel(pow256, 9);
            assert(bytes@.take(i + 1).drop_last() =~= bytes@.take(i as int));
            assert(bytes@.take(i + 1).last() == bytes@[i as int]);
        }
        v = v * 256 + (bytes[i] as u64);
        i = i + 1;
    }
    v
}

/// Read a big-endian u8 from bytes.
pub fn read_u8(bytes: &[u8]) -> (r: u8)
    requires
        bytes@.len() >= 1,
    ensures
        r as nat == be_uint(bytes@.take(1)),
{
    proof {
        lemma_be_uint_bound(bytes@.take(1));
        reveal_with_fuel(pow256, 2);
    }
    be_read(bytes, 1) as u8
}

/// Read a big-endian u16 from bytes.
pub fn read_u16_be(bytes: &[u8]) -> (r: u16)
    requires
        bytes@.len() >= 2,
    ensures
        r as nat == be_uint(bytes@.take(2)),
{
    proof {
        lemma_be_uint_bound(bytes@.take(2));
        reveal_with_fuel(pow256, 3);
    }
    be_read(bytes, 2) as u16
}

/// Read a big-endian u32 from bytes.
pub fn read_u32_be(bytes: &[u8]) -> (r: u32)
    requires
        bytes@.len() >= 4,
    ensures
        r as nat == be_uint(bytes@.take(4)),
{
    proof {
        lemma_be_uint_bound(bytes@.take(4));
        reveal_with_fuel(pow256, 5);
    }
    be_read(bytes, 4) as u32
}

/// Read a big-endian u64 from bytes.
pub fn read_u64_be(bytes: &[u8]) -> (r: u64)
    requires
        bytes@.len() >= 8,
    ensures
        r as nat == be_uint(bytes@.take(8)),
{
    be_read(bytes, 8)
}

/// The big-endian value of a whole byte run when its length is one of the
/// four recognized widths, and zero otherwise.
pub open spec fn bytes_to_number_spec(data: Seq<u8>) -> nat {
    if data.len() == 1 || data.len() == 2 || data.len() == 4 || data.len() == 8 {
        be_uint(data)
    } else {
        0
    }
}

/// Read a number from bytes based on the byte run's length.
pub fn bytes_to_number(data: &[u8]) -> (r: u64)
    ensures
        r as nat == bytes_to_number_spec(data@),
{
    let n = data.len();
    if n == 1 || n == 2 || n == 4 || n == 8 {
        proof {
            assert(data@.take(n as int) =~= data@);
        }
        be_read(data, n)
    } else {
        0
    }
}


// ---------------------------------------------------------------------------
// Entity unescaping
// ---------------------------------------------------------------------------

/// `s` with the five XML entities `&lt; &gt; &amp; &quot; &apos;` replaced,
/// in that order of passes.
pub open spec fn unescape_spec(s: Seq<char>) -> Seq<char> {
    let s1 = replace_seq(s, seq!['&', 'l', 't', ';'], seq!['<']);
    let s2 = replace_seq(s1, seq!['&', 'g', 't', ';'], seq!['>']);
    let s3 = replace_seq(s2, seq!['&', 'a', 'm', 'p', ';'], seq!['&']);
    let s4 = replace_seq(s3, seq!['&', 'q', 'u', 'o', 't', ';'], seq!['"']);
    replace_seq(s4, seq!['&', 'a', 'p', 'o', 's', ';'], seq!['\''])
}

/// Unescape the XML entities in a character vector.
fn unescape_chars(cs: &Vec<char>) -> (r: Vec<char>)
    ensures
        r@ == unescape_spec(cs@),
{
    let p1 = shims::str_chars("&lt;");
    let r1 = shims::str_chars("<");
    let p2 = shims::str_chars("&gt;");
    let r2 = shims::str_chars(">");
    let p3 = shims::str_chars("&amp;");
    let r3 = shims::str_chars("&");
    let p4 = shims::str_chars("&quot;");
    let r4 = shims::str_chars("\"");
    let p5 = shims::str_chars("&apos;");
    let r5 = shims::str_chars("'");
    proof {
        reveal_strlit("&lt;");
        reveal_strlit("&gt;");
        reveal_strlit("&amp;");
        reveal_strlit("&quot;");
        reveal_strlit("&apos;");
        reveal_strlit("<");
        reveal_strlit(">");
        reveal_strlit("&");
        reveal_strlit("\"");
        reveal_strlit("'");
        assert(p1@ =~= seq!['&', 'l', 't', ';']);
        assert(p2@ =~= seq!['&', 'g', 't', ';']);
        assert(p3@ =~= seq!['&', 'a', 'm', 'p', ';']);
        assert(p4@ =~= seq!['&', 'q', 'u', 'o', 't', ';']);
        assert(p5@ =~= seq!['&', 'a', 'p', 'o', 's', ';']);
        assert(r1@ =~= seq!['<']);
        assert(r2@ =~= seq!['>']);
        assert(r3@ =~= seq!['&']);
        assert(r4@ =~= seq!['"']);
        assert(r5@ =~= seq!['\'']);
    }
    let s1 = replace_chars(cs, &p1, &r1);
    let s2 = replace_chars(&s1, &p2, &r2);
    let s3 = replace_chars(&s2, &p3, &r3);
    let s4 = replace_chars(&s3, &p4, &r4);
    let s5 = replace_chars(&s4, &p5, &r5);
    s5
}

/// Unescape the XML entities the header format uses.
pub fn unescape_entities(text: &str) -> (r: String)
    ensures
        r@ == unescape_spec(text@),
{
    let cs = shims::str_chars(text);
    let u = unescape_chars(&cs);
    shims::chars_string(&u)
}

// ---------------------------------------------------------------------------
// Whitespace trimming
// ---------------------------------------------------------------------------

/// `s` without its leading whitespace.
pub open spec fn trim_front_spec(s: Seq<char>) -> Seq<char>
    decreases s.len(),
{
    if s.len() > 0 && shims::is_ws(s[0]) {
        trim_front_spec(s.skip(1))
    } else {
        s
    }
}

/// `s` without its trailing whitespace.
pub open spec fn trim_back_spec(s: Seq<char>) -> Seq<char>
    decreases s.len(),
{
    if s.len() > 0 && shims::is_ws(s.last()) {
        trim_back_spec(s.drop_last())
    } else {
        s
    }
}

/// `s` without leading or trailing whitespace.
pub open spec fn trim_spec(s: Seq<char>) -> Seq<char> {
    trim_back_spec(trim_front_spec(s))
}

/// Remove leading and trailing whitespace characters.
pub fn trim_chars(v: &Vec<char>) -> (r: Vec<char>)
    ensures
        r@ == trim_spec(v@),
{
    let n = v.len();
    let mut start: usize = 0;
    proof {
        assert(v@.skip(0) =~= v@);
    }
    while start < n && shims::char_is_whitespace(v[start])
        invariant
            start <= n,
            n == v@.len(),
            trim_front_spec(v@) == trim_front_spec(v@.skip(start as int)),
        decreases n - start,
    {
        proof {
            assert(v@.skip(start as int)[0] == v@[start as int]);
            assert(v@.skip(start as int).skip(1) =~= v@.skip(start + 1));
        }
        start = start + 1;
    }
    proof {
        assert(trim_front_spec(v@) == v@.skip(start as int));
    }
    let ghost u = v@.skip(start as int);
    let mut end: usize = n;
    proof {
        assert(u.take(n - start) =~= u);
    }
    while end > start && shims::char_is_whitespace(v[end - 1])
        invariant
            start <= end <= n,
            n == v@.len(),
            u == v@.skip(start as int),
            trim_back_spec(u) == trim_back_spec(u.take(end - start)),
        decreases end,
    {
        proof {
            assert(u.take(end - start).last() == v@[end - 1]);
            assert(u.take(end - start).drop_last() =~= u.take(end - 1 - start as int));
        }
        end = end - 1;
    }
    proof {
        assert(trim_back_spec(u.take(end - start)) == u.take(end - start));
    }
    let mut out: Vec<char> = Vec::new();
    let mut k: usize = start;
    while k < end
        invariant
            start <= k <= end <= n,
            n == v@.len(),
            out@ == v@.subrange(start as int, k as int),
        decreases end - k,
    {
        out.push(v[k]);
        proof {
            assert(v@.subrange(start as int, k + 1) =~= v@.subrange(start as int, k as int).push(
                v@[k as int],
            ));
        }
        k = k + 1;
    }
    proof {
        assert(out@ =~= u.take(end - start));
    }
    out
}

// ---------------------------------------------------------------------------
// Key normalization
// ---------------------------------------------------------------------------

/// The characters stripped from MDX keys.
pub open spec fn in_mdx_class(c: char) -> bool {
    c == '(' || c == ')' || c == '.' || c == ',' || c == '-' || c == '&' || c == ' ' || c == '\''
        || c == '/' || c == '\\' || c == '@' || c == '_' || c == '$' || c == '!'
}

/// The characters stripped from MDD keys.
pub open spec fn in_mdd_class(c: char) -> bool {
    c == '(' || c == ')' || c == '.' || c == ',' || c == ' ' || c == '\'' || c == '/' || c == '@'
}

/// The MDD character mapping applied after stripping.
pub open spec fn mdd_map(c: char) -> char {
    if c == '_' {
        '!'
    } else {
        c
    }
}

/// `s` with every MDX-stripped character removed.
pub open spec fn mdx_clean(s: Seq<char>) -> Seq<char>
    decreases s.len(),
{
    if s.len() == 0 {
        Seq::<char>::empty()
    } else if in_mdx_class(s[0]) {
        mdx_clean(s.skip(1))
    } else {
        seq![s[0]] + mdx_clean(s.skip(1))
    }
}

/// `s` with every MDD-stripped character removed and `_` mapped to `!`.
pub open spec fn mdd_clean(s: Seq<char>) -> Seq<char>
    decreases s.len(),
{
    if s.len() == 0 {
        Seq::<char>::empty()
    } else if in_mdd_class(s[0]) {
        mdd_clean(s.skip(1))
    } else {
        seq![mdd_map(s[0])] + mdd_clean(s.skip(1))
    }
}

/// Whether `s` holds a `.` anywhere.
pub open spec fn has_dot(s: Seq<char>) -> bool {
    exists|i: int| 0 <= i < s.len() && s[i] == '.'
}

/// `s` truncated just before its last `.`; meaningful only when a dot
/// exists.
pub open spec fn cut_after_last_dot(s: Seq<char>) -> Seq<char>
    decreases s.len(),
{
    if s.len() == 0 {
        s
    } else if s.last() == '.' {
        s.drop_last()
    } else {
        cut_after_last_dot(s.drop_last())
    }
}

/// `s` with a trailing `.extension` removed, when one exists.
pub open spec fn cut_ext(s: Seq<char>) -> Seq<char> {
    if has_dot(s) {
        cut_after_last_dot(s)
    } else {
        s
    }
}

fn mdx_clean_chars(v: &Vec<char>) -> (r: Vec<char>)
    ensures
        r@ == mdx_clean(v@),
{
    let mut out: Vec<char> = Vec::new();
    let mut i: usize = 0;
    proof {
        assert(v@.skip(0) =~= v@);
        assert(out@ + mdx_clean(v@) =~= mdx_clean(v@));
    }
    while i < v.len()
        invariant
            i <= v@.len(),
            out@ + mdx_clean(v@.skip(i as int)) == mdx_clean(v@),
        decreases v@.len() - i,
    {
        let c = v[i];
        proof {
            assert(v@.skip(i as int)[0] == v@[i as int]);
            assert(v@.skip(i as int).skip(1) =~= v@.skip(i + 1));
        }
        let strip = c == '(' || c == ')' || c == '.' || c == ',' || c == '-' || c == '&'
            || c == ' ' || c == '\'' || c == '/' || c == '\\' || c == '@' || c == '_' || c == '$'
            || c == '!';
        if !strip {
            let ghost pre = out@;
            out.push(c);
            proof {
                assert(out@ + mdx_clean(v@.skip(i + 1)) =~= pre + (seq![v@[i as int]] + mdx_clean(
                    v@.skip(i + 1),
                )));
            }
        }
        i = i + 1;
    }
    proof {
        assert(v@.skip(v@.len() as int) =~= Seq::<char>::empty());
        assert(out@ + Seq::<char>::empty() =~= out@);
    }
    out
}

fn mdd_clean_chars(v: &Vec<char>) -> (r: Vec<char>)
    ensures
        r@ == mdd_clean(v@),
{
    let mut out: Vec<char> = Vec::new();
    let mut i: usize = 0;
    proof {
        assert(v@.skip(0) =~= v@);
        assert(out@ + mdd_clean(v@) =~= mdd_clean(v@));
    }
    while i < v.len()
        invariant
            i <= v@.len(),
            out@ + mdd_clean(v@.skip(i as int)) == mdd_clean(v@),
        decreases v@.len() - i,
    {
        let c = v[i];
        proof {
            assert(v@.skip(i as int)[0] == v@[i as int]);
            assert(v@.skip(i as int).skip(1) =~= v@.skip(i + 1));
        }
        let strip = c == '(' || c == ')' || c == '.' || c == ',' || c == ' ' || c == '\''
            || c == '/' || c == '@';
        if !strip {
            let ghost pre = out@;
            let mapped = if c == '_' {
                '!'
            } else {
                c
            };
            out.push(mapped);
            proof {
                assert(out@ + mdd_clean(v@.skip(i + 1)) =~= pre + (seq![mdd_map(v@[i as int])]
                    + mdd_clean(v@.skip(i + 1))));
            }
        }
        i = i + 1;
    }
    proof {
        assert(v@.skip(v@.len() as int) =~= Seq::<char>::empty());
        assert(out@ + Seq::<char>::empty() =~= out@);
    }
    out
}

fn cut_ext_chars(v: &Vec<char>) -> (r: Vec<char>)
    ensures
        r@ == cut_ext(v@),
{
    let mut j: usize = v.len();
    proof {
        assert(cut_after_last_dot(v@.take(v@.len() as int)) == cut_after_last_dot(v@)) by {
            assert(v@.take(v@.len() as int) =~= v@);
        }
        assert(has_dot(v@.take(v@.len() as int)) == has_dot(v@)) by {
            assert(v@.take(v@.len() as int) =~= v@);
        }
    }
    while j > 0
        invariant
            j <= v@.len(),
            cut_after_last_dot(v@) == cut_after_last_dot(v@.take(j as int)),
            has_dot(v@) == has_dot(v@.take(j as int)),
        decreases j,
    {
        if v[j - 1] == '.' {
            proof {
                assert(v@.take(j as int).last() == v@[j - 1]);
                assert(has_dot(v@.take(j as int)));
                assert(v@.take(j as int).drop_last() =~= v@.take(j - 1));
            }
            let mut out: Vec<char> = Vec::new();
            let mut k: usize = 0;
            while k < j - 1
                invariant
                    k <= j - 1 <= v@.len(),
                    out@ == v@.take(j - 1).take(k as int),
                decreases j - 1 - k,
            {
                out.push(v[k]);
                proof {
                    assert(v@.take(j - 1).take(k + 1) =~= v@.take(j - 1).take(k as int).push(
                        v@[k as int],
                    ));
                }
                k = k + 1;
            }
            proof {
                assert(out@ =~= v@.take(j - 1));
            }
            return out;
        }
        proof {
            assert(v@.take(j as int).last() == v@[j - 1]);
            assert(v@.take(j as int).drop_last() =~= v@.take(j - 1));
            assert(has_dot(v@.take(j as int)) == has_dot(v@.take(j - 1))) by {
                if has_dot(v@.take(j - 1)) {
                    let i = choose|i: int|
                        0 <= i < v@.take(j - 1).len() && (#[trigger] v@.take(j - 1)[i]) == '.';
                    assert(v@.take(j as int)[i] == '.');
                }
                if has_dot(v@.take(j as int)) {
                    let i = choose|i: int|
                        0 <= i < v@.take(j as int).len() && (#[trigger] v@.take(j as int)[i])
                            == '.';
                    assert(i < j - 1);
                    assert(v@.take(j - 1)[i] == '.');
                }
            }
        }
        j = j - 1;
    }
    proof {
        assert(v@.take(0) =~= Seq::<char>::empty());
        assert(!has_dot(v@.take(0)));
        assert(!has_dot(v@));
    }
    let mut out: Vec<char> = Vec::new();
    let mut k: usize = 0;
    while k < v.len()
        invariant
            k <= v@.len(),
            out@ == v@.take(k as int),
        decreases v@.len() - k,
    {
        out.push(v[k]);
        proof {
            assert(v@.take(k + 1) =~= v@.take(k as int).push(v@[k as int]));
        }
        k = k + 1;
    }
    proof {
        assert(out@ =~= v@);
    }
    out
}

/// The normalized form of a key: lowercase, class-stripped (and for MDD
/// extension-cut and `_`-mapped), then trimmed.
pub open spec fn strip_key_spec(s: Seq<char>, is_mdd: bool) -> Seq<char> {
    if is_mdd {
        trim_spec(mdd_clean(cut_ext(shims::lower_of(s))))
    } else {
        trim_spec(mdx_clean(shims::lower_of(s)))
    }
}

/// Strip punctuation and normalize a key for comparison.
pub fn strip_key(key: &str, is_mdd: bool) -> (r: String)
    ensures
        r@ == strip_key_spec(key@, is_mdd),
{
    let low = shims::lowercase(key);
    let v = shims::str_chars(low.as_str());
    let cleaned = if is_mdd {
        let cut = cut_ext_chars(&v);
        mdd_clean_chars(&cut)
    } else {
        mdx_clean_chars(&v)
    };
    let trimmed = trim_chars(&cleaned);
    shims::chars_string(&trimmed)
}

// ---------------------------------------------------------------------------
// Levenshtein edit distance
// ---------------------------------------------------------------------------

pub open spec fn min_nat(a: nat, b: nat) -> nat {
    if a <= b {
        a
    } else {
        b
    }
}

/// The Levenshtein edit distance over Unicode scalars, cost 1 for
/// substitution, insertion and deletion.
pub open spec fn edit_dist(a: Seq<char>, b: Seq<char>) -> nat
    decreases a.len() + b.len(),
{
    if a.len() == 0 {
        b.len()
    } else if b.len() == 0 {
        a.len()
    } else {
        let del = edit_dist(a.drop_last(), b) + 1;
        let ins = edit_dist(a, b.drop_last()) + 1;
        let sub = edit_dist(a.drop_last(), b.drop_last()) + (if a.last() == b.last() {
            0nat
        } else {
            1nat
        });
        min_nat(min_nat(del, ins), sub)
    }
}

pub proof fn lemma_edit_dist_bound(a: Seq<char>, b: Seq<char>)
    ensures
        edit_dist(a, b) <= a.len() + b.len(),
    decreases a.len() + b.len(),
{
    if a.len() != 0 && b.len() != 0 {
        lemma_edit_dist_bound(a.drop_last(), b.drop_last());
    }
}

/// The distance of two equal sequences is zero, and a zero distance forces
/// equality.
pub proof fn lemma_edit_dist_zero(a: Seq<char>, b: Seq<char>)
    ensures
        (edit_dist(a, b) == 0) <==> (a == b),
    decreases a.len() + b.len(),
{
    if a.len() == 0 {
        if b.len() == 0 {
            assert(a =~= b);
        }
    } else if b.len() == 0 {
    } else {
        lemma_edit_dist_zero(a.drop_last(), b.drop_last());
        if edit_dist(a, b) == 0 {
            assert(a.drop_last() == b.drop_last() && a.last() == b.last());
            assert(a =~= b) by {
                assert(forall|i: int|
                    0 <= i < a.len() - 1 ==> a[i] == a.drop_last()[i] && b[i] == b.drop_last()[i]);
            }
        }
        if a == b {
            assert(a.drop_last() =~= b.drop_last());
        }
    }
}

fn min_usize(a: usize, b: usize) -> (r: usize)
    ensures
        r as nat == min_nat(a as nat, b as nat),
{
    if a <= b {
        a
    } else {
        b
    }
}

/// Calculate the Levenshtein distance between two strings.
pub fn levenshtein_distance(a: &str, b: &str) -> (r: usize)
    ensures
        r as nat == edit_dist(a@, b@),
{
    let ac = shims::str_chars(a);
    let bc = shims::str_chars(b);
    let m = ac.len();
    let n = bc.len();
    if m == 0 {
        proof {
            assert(a@ =~= ac@);
        }
        return n;
    }
    if n == 0 {
        proof {
            assert(b@ =~= bc@);
        }
        return m;
    }
    let mut dp: Vec<Vec<usize>> = Vec::new();
    let mut row0: Vec<usize> = Vec::new();
    let mut j: usize = 0;
    while j <= n
        invariant
            n == bc@.len(),
            n <= usize::MAX / 2,
            j <= n + 1,
            row0@.len() == j,
            forall|k: int| 0 <= k < j ==> row0@[k] == k,
        decreases n + 1 - j,
    {
        row0.push(j);
        j = j + 1;
    }
    proof {
        assert(forall|k: int|
            0 <= k <= n ==> #[trigger] edit_dist(ac@.take(0), bc@.take(k)) == k) by {
            assert(forall|k: int| 0 <= k <= n ==> (ac@.take(0).len() == 0 && bc@.take(k).len()
                == k));
        }
    }
    dp.push(row0);
    let mut i: usize = 1;
    while i <= m
        invariant
            m == ac@.len(),
            n == bc@.len(),
            m >= 1,
            n >= 1,
            m <= usize::MAX / 2,
            n <= usize::MAX / 2,
            1 <= i <= m + 1,
            dp@.len() == i,
            forall|p: int| 0 <= p < i ==> #[trigger] dp@[p]@.len() == n + 1,
            forall|p: int, q: int|
                0 <= p < i && 0 <= q <= n ==> #[trigger] dp@[p]@[q] as nat == edit_dist(
                    ac@.take(p),
                    bc@.take(q),
                ),
        decreases m + 1 - i,
    {
        let mut row: Vec<usize> = Vec::new();
        row.push(i);
        proof {
            assert(bc@.take(0).len() == 0);
            assert(ac@.take(i as int).len() == i);
            assert(edit_dist(ac@.take(i as int), bc@.take(0)) == i);
        }
        let mut q: usize = 1;
        while q <= n
            invariant
                m == ac@.len(),
                n == bc@.len(),
                1 <= i <= m,
                1 <= q <= n + 1,
                m <= usize::MAX / 2,
                n <= usize::MAX / 2,
                dp@.len() == i,
                forall|p: int| 0 <= p < i ==> #[trigger] dp@[p]@.len() == n + 1,
                forall|p: int, qq: int|
                    0 <= p < i && 0 <= qq <= n ==> #[trigger] dp@[p]@[qq] as nat == edit_dist(
                        ac@.take(p),
                        bc@.take(qq),
                    ),
                row@.len() == q,
                forall|qq: int|
                    0 <= qq < q ==> #[trigger] row@[qq] as nat == edit_dist(
                        ac@.take(i as int),
                        bc@.take(qq),
                    ),
            decreases n + 1 - q,
        {
            let ghost ta = ac@.take(i as int);
            let ghost tb = bc@.take(q as int);
            proof {
                lemma_edit_dist_bound(ta, tb);
                assert(ta.drop_last() =~= ac@.take(i - 1));
                assert(tb.drop_last() =~= bc@.take(q - 1));
                assert(ta.last() == ac@[i - 1]);
                assert(tb.last() == bc@[q - 1]);
                lemma_edit_dist_bound(ta.drop_last(), tb);
                lemma_edit_dist_bound(ta, tb.drop_last());
                lemma_edit_dist_bound(ta.drop_last(), tb.drop_last());
            }
            let del = dp[i - 1][q] + 1;
            let ins = row[q - 1] + 1;
            let sub = if ac[i - 1] != bc[q - 1] {
                dp[i - 1][q - 1] + 1
            } else {
                dp[i - 1][q - 1]
            };
            let val = min_usize(min_usize(del, ins), sub);
            proof {
                assert(val as nat == edit_dist(ta, tb));
            }
            row.push(val);
            q = q + 1;
        }
        dp.push(row);
        i = i + 1;
    }
    proof {
        assert(ac@.take(m as int) =~= ac@);
        assert(bc@.take(n as int) =~= bc@);
        assert(a@ == ac@ && b@ == bc@);
    }
    let last_row = &dp[m];
    last_row[n]
}


// ---------------------------------------------------------------------------
// XOR stream cipher
// ---------------------------------------------------------------------------

/// A byte with its two nibbles swapped.
pub open spec fn rotl4(b: u8) -> u8 {
    (b << 4) | (b >> 4)
}

/// One output byte of the stream cipher: the nibble-swapped input byte XORed
/// with the previous (pre-transform) byte, the low byte of the position and
/// the keystream byte.
pub open spec fn decrypt_byte(data: Seq<u8>, key: Seq<u8>, i: int) -> u8 {
    let prev: u8 = if i == 0 {
        0x36
    } else {
        data[i - 1]
    };
    rotl4(data[i]) ^ prev ^ ((i % 256) as u8) ^ key[i % (key.len() as int)]
}

/// The whole decrypted stream.
pub open spec fn fast_decrypt_spec(data: Seq<u8>, key: Seq<u8>) -> Seq<u8> {
    Seq::new(data.len(), |i: int| decrypt_byte(data, key, i))
}

/// Fast XOR decryption, in place.
pub fn fast_decrypt(data: &mut Vec<u8>, key: &[u8])
    requires
        key@.len() >= 1,
    ensures
        final(data)@ == fast_decrypt_spec(old(data)@, key@),
{
    let n = data.len();
    let mut out: Vec<u8> = Vec::new();
    let mut prev: u8 = 0x36;
    let mut i: usize = 0;
    while i < n
        invariant
            n == data@.len(),
            data@ == old(data)@,
            key@.len() >= 1,
            i <= n,
            prev == (if i == 0 {
                0x36u8
            } else {
                data@[i - 1]
            }),
            out@ == fast_decrypt_spec(data@, key@).take(i as int),
        decreases n - i,
    {
        let b = data[i];
        let t = ((b << 4) | (b >> 4)) ^ prev ^ ((i % 256) as u8) ^ key[i % key.len()];
        proof {
            assert(t == decrypt_byte(data@, key@, i as int));
            assert(fast_decrypt_spec(data@, key@).take(i + 1) =~= fast_decrypt_spec(
                data@,
                key@,
            ).take(i as int).push(decrypt_byte(data@, key@, i as int)));
        }
        prev = b;
        out.push(t);
        i = i + 1;
    }
    proof {
        assert(fast_decrypt_spec(data@, key@).take(n as int) =~= fast_decrypt_spec(data@, key@));
    }
    *data = out;
}

// ---------------------------------------------------------------------------
// Header attribute scanning
// ---------------------------------------------------------------------------

/// An ASCII word character: letter, digit or underscore.
pub open spec fn is_word_char(c: char) -> bool {
    ('a' <= c && c <= 'z') || ('A' <= c && c <= 'Z') || ('0' <= c && c <= '9') || c == '_'
}

/// Length of the maximal run of word characters starting at `i`.
pub open spec fn word_run(s: Seq<char>, i: int) -> nat
    decreases s.len() - i,
    when 0 <= i <= s.len()
{
    if i < s.len() && is_word_char(s[i]) {
        1 + word_run(s, i + 1)
    } else {
        0
    }
}

/// Position of the quote closing an attribute value whose content starts at
/// `i`: the scan accepts any character but a quote or a backslash, and a
/// backslash together with the character after it.
pub open spec fn value_end(s: Seq<char>, i: int) -> Option<int>
    decreases s.len() - i,
    when 0 <= i <= s.len()
{
    if i >= s.len() {
        None
    } else if s[i] == '"' {
        Some(i)
    } else if s[i] == '\\' {
        if i + 2 <= s.len() {
            value_end(s, i + 2)
        } else {
            None
        }
    } else {
        value_end(s, i + 1)
    }
}

pub proof fn lemma_value_end_bounds(s: Seq<char>, i: int)
    requires
        0 <= i <= s.len(),
    ensures
        match value_end(s, i) {
            Some(e) => i <= e < s.len(),
            None => true,
        },
    decreases s.len() - i,
{
    if i < s.len() && s[i] != '"' {
        if s[i] == '\\' {
            if i + 2 <= s.len() {
                lemma_value_end_bounds(s, i + 2);
            }
        } else {
            lemma_value_end_bounds(s, i + 1);
        }
    }
}

/// The attribute token starting exactly at `i`, if any: its name, its raw
/// value, and the position one past the closing quote.
pub open spec fn match_at_spec(s: Seq<char>, i: int) -> Option<(Seq<char>, Seq<char>, int)> {
    let w = word_run(s, i) as int;
    if w == 0 {
        None
    } else if i + w + 2 <= s.len() && s[i + w] == '=' && s[i + w + 1] == '"' {
        match value_end(s, i + w + 2) {
            Some(e) => Some((s.subrange(i, i + w), s.subrange(i + w + 2, e), e + 1)),
            None => None,
        }
    } else {
        None
    }
}

/// All `name="value"` tokens of the header text, scanned left to right,
/// values still escaped.
pub open spec fn scan_attrs(s: Seq<char>, i: int) -> Seq<(Seq<char>, Seq<char>)>
    decreases s.len() - i,
    when 0 <= i <= s.len()
    via scan_attrs_decreases
{
    if i >= s.len() {
        Seq::<(Seq<char>, Seq<char>)>::empty()
    } else {
        match match_at_spec(s, i) {
            Some(m) => seq![(m.0, m.1)] + scan_attrs(s, m.2),
            None => scan_attrs(s, i + 1),
        }
    }
}

#[via_fn]
proof fn scan_attrs_decreases(s: Seq<char>, i: int) {
    if 0 <= i < s.len() {
        let w = word_run(s, i) as int;
        if w > 0 && i + w + 2 <= s.len() {
            lemma_value_end_bounds(s, i + w + 2);
        }
    }
}

/// The header attributes: every scanned token, its value unescaped.
pub open spec fn header_attrs_spec(s: Seq<char>) -> Seq<(Seq<char>, Seq<char>)> {
    scan_attrs(s, 0).map_values(|p: (Seq<char>, Seq<char>)| (p.0, unescape_spec(p.1)))
}

/// The characters of `v` from `a` (inclusive) to `b` (exclusive).
fn subvec(v: &Vec<char>, a: usize, b: usize) -> (r: Vec<char>)
    requires
        a <= b <= v@.len(),
    ensures
        r@ == v@.subrange(a as int, b as int),
{
    let mut out: Vec<char> = Vec::new();
    let mut k: usize = a;
    while k < b
        invariant
            a <= k <= b <= v@.len(),
            out@ == v@.subrange(a as int, k as int),
        decreases b - k,
    {
        out.push(v[k]);
        proof {
            assert(v@.subrange(a as int, k + 1) =~= v@.subrange(a as int, k as int).push(
                v@[k as int],
            ));
        }
        k = k + 1;
    }
    out
}

fn word_run_at(v: &Vec<char>, i: usize) -> (r: usize)
    requires
        i <= v@.len(),
    ensures
        i + r <= v@.len(),
        r as nat == word_run(v@, i as int),
{
    let mut j: usize = i;
    loop
        invariant
            i <= j <= v@.len(),
            word_run(v@, i as int) == (j - i) + word_run(v@, j as int),
        ensures
            i <= j <= v@.len(),
            word_run(v@, i as int) == (j - i),
        decreases v@.len() - j,
    {
        if j >= v.len() {
            break;
        }
        let c = v[j];
        let is_w = ('a' <= c && c <= 'z') || ('A' <= c && c <= 'Z') || ('0' <= c && c <= '9') || c
            == '_';
        if !is_w {
            break;
        }
        j = j + 1;
    }
    j - i
}

fn find_value_end(v: &Vec<char>, start: usize) -> (r: Option<usize>)
    requires
        start <= v@.len(),
        v@.len() <= usize::MAX / 2,
    ensures
        match r {
            Some(e) => value_end(v@, start as int) == Some(e as int) && start <= e < v@.len(),
            None => value_end(v@, start as int) is None,
        },
{
    let mut j: usize = start;
    loop
        invariant
            start <= j <= v@.len(),
            v@.len() <= usize::MAX / 2,
            value_end(v@, start as int) == value_end(v@, j as int),
        decreases v@.len() - j,
    {
        if j >= v.len() {
            return None;
        }
        let c = v[j];
        if c == '"' {
            return Some(j);
        }
        if c == '\\' {
            if j + 2 <= v.len() {
                j = j + 2;
            } else {
                return None;
            }
        } else {
            j = j + 1;
        }
    }
}

/// Parse the XML-like header text into its attribute list, in scan order,
/// values unescaped.  A name that occurs twice occurs twice here; a reader
/// that wants the later occurrence to win scans from the back.
pub fn parse_header(header_text: &str) -> (r: Vec<(String, String)>)
    ensures
        r@.len() == header_attrs_spec(header_text@).len(),
        forall|k: int|
            0 <= k < r@.len() ==> (#[trigger] r@[k]).0@ == header_attrs_spec(header_text@)[k].0
                && r@[k].1@ == header_attrs_spec(header_text@)[k].1,
{
    let v = shims::str_chars(header_text);
    let ghost s = v@;
    proof {
        assert(s.len() <= usize::MAX / 2);
    }
    let mut out: Vec<(String, String)> = Vec::new();
    let ghost mut raw: Seq<(Seq<char>, Seq<char>)> = Seq::empty();
    let mut i: usize = 0;
    proof {
        assert(raw + scan_attrs(s, 0) =~= scan_attrs(s, 0));
    }
    while i < v.len()
        invariant
            s == v@,
            header_text@ == s,
            i <= s.len(),
            s.len() <= usize::MAX / 2,
            scan_attrs(s, 0) == raw + scan_attrs(s, i as int),
            out@.len() == raw.len(),
            forall|k: int|
                0 <= k < raw.len() ==> (#[trigger] out@[k]).0@ == raw[k].0 && out@[k].1@
                    == unescape_spec(raw[k].1),
        decreases s.len() - i,
    {
        let w = word_run_at(&v, i);
        let mut matched = false;
        if w > 0 && i + w + 2 <= v.len() {
            if v[i + w] == '=' && v[i + w + 1] == '"' {
                match find_value_end(&v, i + w + 2) {
                    Some(e) => {
                        let name_chars = subvec(&v, i, i + w);
                        let val_chars = subvec(&v, i + w + 2, e);
                        let unescaped = unescape_chars(&val_chars);
                        let name = shims::chars_string(&name_chars);
                        let value = shims::chars_string(&unescaped);
                        proof {
                            assert(match_at_spec(s, i as int) == Some(
                                (s.subrange(i as int, i + w), s.subrange(i + w + 2, e as int), e + 1
                                ),
                            ));
                            assert(scan_attrs(s, i as int) == seq![
                                (s.subrange(i as int, i + w), s.subrange(i + w + 2, e as int)),
                            ] + scan_attrs(s, e + 1));
                            assert(raw + scan_attrs(s, i as int) =~= raw.push(
                                (s.subrange(i as int, i + w), s.subrange(i + w + 2, e as int)),
                            ) + scan_attrs(s, e + 1));
                        }
                        out.push((name, value));
                        proof {
                            raw = raw.push(
                                (s.subrange(i as int, i + w), s.subrange(i + w + 2, e as int)),
                            );
                        }
                        i = e + 1;
                        matched = true;
                    },
                    None => {},
                }
            }
        }
        if !matched {
            proof {
                assert(match_at_spec(s, i as int) is None);
                assert(scan_attrs(s, i as int) == scan_attrs(s, i + 1));
            }
            i = i + 1;
        }
    }
    proof {
        assert(scan_attrs(s, s.len() as int) =~= Seq::<(Seq<char>, Seq<char>)>::empty());
        assert(scan_attrs(s, 0) =~= raw);
        assert(header_attrs_spec(s).len() == raw.len());
        assert(forall|k: int|
            0 <= k < raw.len() ==> header_attrs_spec(s)[k] == (raw[k].0, unescape_spec(raw[k].1)));
    }
    out
}


// ---------------------------------------------------------------------------
// Byte ranges and MDX block decryption
// ---------------------------------------------------------------------------

/// The bytes of `v` from `a` (inclusive) to `b` (exclusive), as a vector.
pub fn bytes_range(v: &[u8], a: usize, b: usize) -> (r: Vec<u8>)
    requires
        a <= b <= v@.len(),
    ensures
        r@ == v@.subrange(a as int, b as int),
{
    let s = vstd::slice::slice_subrange(v, a, b);
    vstd::slice::slice_to_vec(s)
}

/// The MDX block decryption: the 8-byte compression-type header verbatim,
/// then the payload XOR-decrypted with RIPEMD-128(block[4..8] ++ 95 36 00 00)
/// as key.  A block shorter than 8 bytes passes through unchanged.
pub open spec fn mdx_decrypt_spec(comp: Seq<u8>) -> Seq<u8> {
    if comp.len() < 8 {
        comp
    } else {
        let key = crate::ripemd128::ripemd128_spec(
            seq![comp[4], comp[5], comp[6], comp[7], 0x95u8, 0x36u8, 0u8, 0u8],
        );
        comp.take(8) + fast_decrypt_spec(comp.skip(8), key)
    }
}

/// MDX decryption using RIPEMD-128.
pub fn mdx_decrypt(comp_block: &[u8]) -> (r: Vec<u8>)
    ensures
        r@ == mdx_decrypt_spec(comp_block@),
{
    let n = comp_block.len();
    if n < 8 {
        return vstd::slice::slice_to_vec(comp_block);
    }
    let mut key_buffer: Vec<u8> = Vec::new();
    key_buffer.push(comp_block[4]);
    key_buffer.push(comp_block[5]);
    key_buffer.push(comp_block[6]);
    key_buffer.push(comp_block[7]);
    key_buffer.push(0x95);
    key_buffer.push(0x36);
    key_buffer.push(0x00);
    key_buffer.push(0x00);
    proof {
        assert(key_buffer@ =~= seq![
            comp_block@[4],
            comp_block@[5],
            comp_block@[6],
            comp_block@[7],
            0x95u8,
            0x36u8,
            0u8,
            0u8,
        ]);
    }
    let key = crate::ripemd128::ripemd128(key_buffer.as_slice());
    let mut rest = bytes_range(comp_block, 8, n);
    proof {
        assert(rest@ =~= comp_block@.skip(8));
    }
    fast_decrypt(&mut rest, key.as_slice());
    let mut result = bytes_range(comp_block, 0, 8);
    proof {
        assert(result@ =~= comp_block@.take(8));
    }
    result.append(&mut rest);
    proof {
        assert(result@ =~= mdx_decrypt_spec(comp_block@));
    }
    result
}


// ---------------------------------------------------------------------------
// Text decoding
// ---------------------------------------------------------------------------

/// The decoded text of `bytes` under `enc`, when the bytes are well formed
/// under it.
pub open spec fn decode_string_spec(bytes: Seq<u8>, enc: crate::types::Encoding) -> Option<
    Seq<char>,
> {
    match enc {
        crate::types::Encoding::Utf8 => shims::utf8_of(bytes),
        crate::types::Encoding::Utf16Le => {
            let p = shims::utf16le_of(bytes);
            if p.1 {
                None
            } else {
                Some(p.0)
            }
        },
        crate::types::Encoding::Gb18030 => {
            let p = shims::gb18030_of(bytes);
            if p.1 {
                None
            } else {
                Some(p.0)
            }
        },
        crate::types::Encoding::Big5 => {
            let p = shims::big5_of(bytes);
            if p.1 {
                None
            } else {
                Some(p.0)
            }
        },
    }
}

/// Decode bytes to a string under the nominated encoding.
pub fn decode_string(bytes: &[u8], encoding: crate::types::Encoding) -> (r: Result<
    String,
    crate::error::MdictError,
>)
    ensures
        match r {
            Ok(s) => decode_string_spec(bytes@, encoding) == Some(s@),
            Err(e) => decode_string_spec(bytes@, encoding) is None && e is EncodingError,
        },
{
    match encoding {
        crate::types::Encoding::Utf8 => {
            match shims::utf8_decode(bytes) {
                Some(s) => Ok(s),
                None => Err(
                    crate::error::MdictError::EncodingError(String::from_str("UTF-8 decode error")),
                ),
            }
        },
        crate::types::Encoding::Utf16Le => {
            let p = shims::utf16le_decode(bytes);
            if p.1 {
                Err(
                    crate::error::MdictError::EncodingError(
                        String::from_str("UTF-16LE decode error"),
                    ),
                )
            } else {
                Ok(p.0)
            }
        },
        crate::types::Encoding::Gb18030 => {
            let p = shims::gb18030_decode(bytes);
            if p.1 {
                Err(
                    crate::error::MdictError::EncodingError(
                        String::from_str("GB18030 decode error"),
                    ),
                )
            } else {
                Ok(p.0)
            }
        },
        crate::types::Encoding::Big5 => {
            let p = shims::big5_decode(bytes);
            if p.1 {
                Err(crate::error::MdictError::EncodingError(String::from_str("BIG5 decode error")))
            } else {
                Ok(p.0)
            }
        },
    }
}

/// Decode UTF-16LE bytes to a string.
pub fn decode_utf16le(bytes: &[u8]) -> (r: Result<String, crate::error::MdictError>)
    ensures
        match r {
            Ok(s) => decode_string_spec(bytes@, crate::types::Encoding::Utf16Le) == Some(s@),
            Err(e) => decode_string_spec(bytes@, crate::types::Encoding::Utf16Le) is None && e
                is EncodingError,
        },
{
    decode_string(bytes, crate::types::Encoding::Utf16Le)
}

/// `s` without its trailing NUL characters.
pub open spec fn trim_nuls(s: Seq<char>) -> Seq<char>
    decreases s.len(),
{
    if s.len() > 0 && s.last() == '\0' {
        trim_nuls(s.drop_last())
    } else {
        s
    }
}

/// The text a key field decodes to: the decoded bytes (empty on a decode
/// failure) without trailing NULs.
pub open spec fn key_text_of(bytes: Seq<u8>, enc: crate::types::Encoding) -> Seq<char> {
    let d = match decode_string_spec(bytes, enc) {
        Some(s) => s,
        None => Seq::<char>::empty(),
    };
    trim_nuls(d)
}

/// Decode a key field: failed decodes become empty, trailing NULs go.
pub fn decode_key_text(bytes: &[u8], encoding: crate::types::Encoding) -> (r: String)
    ensures
        r@ == key_text_of(bytes@, encoding),
{
    let d: String = match decode_string(bytes, encoding) {
        Ok(s) => s,
        Err(_) => String::new(),
    };
    let v = shims::str_chars(d.as_str());
    let mut end: usize = v.len();
    proof {
        assert(v@.take(v@.len() as int) =~= v@);
    }
    while end > 0 && v[end - 1] == '\0'
        invariant
            end <= v@.len(),
            trim_nuls(v@) == trim_nuls(v@.take(end as int)),
        decreases end,
    {
        proof {
            assert(v@.take(end as int).last() == v@[end - 1]);
            assert(v@.take(end as int).drop_last() =~= v@.take(end - 1));
        }
        end = end - 1;
    }
    proof {
        assert(v@.take(v@.len() as int) =~= v@);
        assert(trim_nuls(v@.take(end as int)) == v@.take(end as int));
    }
    let out = subvec(&v, 0, end);
    proof {
        assert(out@ =~= v@.take(end as int));
    }
    shims::chars_string(&out)
}


/// Whether two strings hold the same characters.
pub fn str_eq(a: &str, b: &str) -> (r: bool)
    ensures
        r == (a@ == b@),
{
    let va = shims::str_chars(a);
    let vb = shims::str_chars(b);
    if va.len() != vb.len() {
        return false;
    }
    let pref = chars_start_with(&va, &vb);
    proof {
        if pref {
            assert(va@.take(vb@.len() as int) =~= va@);
        }
        if a@ == b@ {
            assert(va@.take(vb@.len() as int) =~= vb@);
        }
    }
    pref
}

} // verus!
