//! MDD resource archives: locating binary resources by key, as raw bytes or
//! base64 text, over the shared container parser.

use vstd::prelude::*;

use crate::error::MdictError;
use crate::mdict_base;
use crate::mdict_base::MdictBase;
use crate::shims;
use crate::types::DictMeta;
use crate::types::FileExt;
use crate::types::KeyWordItem;
use crate::types::LookupResult;
use crate::utils;

verus! {

/// The key's suffix after its last dot, or the whole key when it has none.
pub open spec fn after_last_dot(s: Seq<char>) -> Seq<char>
    decreases s.len(),
{
    if s.len() == 0 {
        s
    } else if s.last() == '.' {
        Seq::<char>::empty()
    } else {
        after_last_dot(s.drop_last()).push(s.last())
    }
}

/// The MIME type the reader guesses from a lowercased extension.
pub open spec fn mime_of(e: Seq<char>) -> Seq<char> {
    if e == "jpg"@ || e == "jpeg"@ {
        "image/jpeg"@
    } else if e == "png"@ {
        "image/png"@
    } else if e == "gif"@ {
        "image/gif"@
    } else if e == "bmp"@ {
        "image/bmp"@
    } else if e == "svg"@ {
        "image/svg+xml"@
    } else if e == "webp"@ {
        "image/webp"@
    } else if e == "ico"@ {
        "image/x-icon"@
    } else if e == "mp3"@ {
        "audio/mpeg"@
    } else if e == "wav"@ {
        "audio/wav"@
    } else if e == "ogg"@ {
        "audio/ogg"@
    } else if e == "spx"@ {
        "audio/speex"@
    } else if e == "css"@ {
        "text/css"@
    } else if e == "js"@ {
        "application/javascript"@
    } else if e == "html"@ || e == "htm"@ {
        "text/html"@
    } else if e == "ttf"@ {
        "font/ttf"@
    } else if e == "woff"@ {
        "font/woff"@
    } else if e == "woff2"@ {
        "font/woff2"@
    } else if e == "eot"@ {
        "application/vnd.ms-fontobject"@
    } else {
        "application/octet-stream"@
    }
}

/// The characters after the last dot of `v`.
fn ext_chars(v: &Vec<char>) -> (r: Vec<char>)
    ensures
        r@ == after_last_dot(v@),
{
    let n = v.len();
    let mut j: usize = n;
    proof {
        assert(v@.take(n as int) =~= v@);
        assert(v@.skip(n as int) =~= Seq::<char>::empty());
        assert(after_last_dot(v@.take(n as int)) + v@.skip(n as int) =~= after_last_dot(v@));
    }
    while j > 0
        invariant
            j <= n,
            n == v@.len(),
            after_last_dot(v@) == after_last_dot(v@.take(j as int)) + v@.skip(j as int),
        decreases j,
    {
        proof {
            assert(v@.take(j as int).last() == v@[j - 1]);
            assert(v@.take(j as int).drop_last() =~= v@.take(j - 1));
        }
        if v[j - 1] == '.' {
            proof {
                assert(after_last_dot(v@.take(j as int)) =~= Seq::<char>::empty());
                assert(after_last_dot(v@) =~= v@.skip(j as int));
            }
            let mut out: Vec<char> = Vec::new();
            let mut k: usize = j;
            while k < n
                invariant
                    j <= k <= n,
                    n == v@.len(),
                    out@ == v@.subrange(j as int, k as int),
                decreases n - k,
            {
                out.push(v[k]);
                proof {
                    assert(v@.subrange(j as int, k + 1) =~= v@.subrange(j as int, k as int).push(
                        v@[k as int],
                    ));
                }
                k = k + 1;
            }
            proof {
                assert(out@ =~= v@.skip(j as int));
            }
            return out;
        }
        proof {
            assert(after_last_dot(v@.take(j as int)) =~= after_last_dot(v@.take(j - 1)).push(
                v@[j - 1],
            ));
            assert(after_last_dot(v@.take(j - 1)) + v@.skip(j - 1) =~= after_last_dot(
                v@.take(j as int),
            ).drop_last() + v@.skip(j - 1));
            assert(after_last_dot(v@.take(j - 1)) + v@.skip(j - 1) =~= after_last_dot(
                v@.take(j as int),
            ) + v@.skip(j as int));
        }
        j = j - 1;
    }
    proof {
        assert(v@.take(0) =~= Seq::<char>::empty());
        assert(after_last_dot(v@) =~= v@.skip(0));
        assert(v@.skip(0) =~= v@);
    }
    let mut out: Vec<char> = Vec::new();
    let mut k: usize = 0;
    while k < n
        invariant
            k <= n,
            n == v@.len(),
            out@ == v@.take(k as int),
        decreases n - k,
    {
        out.push(v[k]);
        proof {
            assert(v@.take(k + 1) =~= v@.take(k as int).push(v@[k as int]));
        }
        k = k + 1;
    }
    proof {
        assert(out@ =~= v@);
    }
    out
}

/// Map a lowercased extension to its MIME type.
fn mime_for(e: &str) -> (r: &'static str)
    ensures
        r@ == mime_of(e@),
{
    if utils::str_eq(e, "jpg") || utils::str_eq(e, "jpeg") {
        "image/jpeg"
    } else if utils::str_eq(e, "png") {
        "image/png"
    } else if utils::str_eq(e, "gif") {
        "image/gif"
    } else if utils::str_eq(e, "bmp") {
        "image/bmp"
    } else if utils::str_eq(e, "svg") {
        "image/svg+xml"
    } else if utils::str_eq(e, "webp") {
        "image/webp"
    } else if utils::str_eq(e, "ico") {
        "image/x-icon"
    } else if utils::str_eq(e, "mp3") {
        "audio/mpeg"
    } else if utils::str_eq(e, "wav") {
        "audio/wav"
    } else if utils::str_eq(e, "ogg") {
        "audio/ogg"
    } else if utils::str_eq(e, "spx") {
        "audio/speex"
    } else if utils::str_eq(e, "css") {
        "text/css"
    } else if utils::str_eq(e, "js") {
        "application/javascript"
    } else if utils::str_eq(e, "html") || utils::str_eq(e, "htm") {
        "text/html"
    } else if utils::str_eq(e, "ttf") {
        "font/ttf"
    } else if utils::str_eq(e, "woff") {
        "font/woff"
    } else if utils::str_eq(e, "woff2") {
        "font/woff2"
    } else if utils::str_eq(e, "eot") {
        "application/vnd.ms-fontobject"
    } else {
        "application/octet-stream"
    }
}

/// Resource information.
#[derive(Debug, Clone)]
pub struct ResourceInfo {
    /// Resource key.
    pub key: String,
    /// File extension, lowercased.
    pub extension: String,
    /// MIME type guessed from the extension.
    pub mime_type: String,
}

/// What a located raw resource is: the record bytes of a keyword whose
/// canonical key equals the query's.
pub open spec fn located_raw_ok(b: MdictBase, key: Seq<char>, raw: Seq<u8>) -> bool {
    exists|i: int, blk: int, content: Seq<u8>|
        {
            &&& 0 <= i < b.keyword_list@.len()
            &&& b.cmp_of(key, b.keyword_list@[i].key_text@) == 0
            &&& #[trigger] mdict_base::record_fetch_ok(
                b,
                b.keyword_list@[i],
                blk,
                content,
                raw,
            )
        }
}

/// What a located base64 resource is: a matching keyword's text and its
/// record bytes rendered as standard base64.
pub open spec fn located_b64_ok(b: MdictBase, key: Seq<char>, kt: Seq<char>, def: Seq<char>) -> bool {
    exists|i: int, blk: int, content: Seq<u8>, raw: Seq<u8>|
        {
            &&& 0 <= i < b.keyword_list@.len()
            &&& b.cmp_of(key, b.keyword_list@[i].key_text@) == 0
            &&& kt == b.keyword_list@[i].key_text@
            &&& #[trigger] mdict_base::record_fetch_ok(
                b,
                b.keyword_list@[i],
                blk,
                content,
                raw,
            )
            &&& def == shims::base64_of(raw)
        }
}

/// An MDD binary-resource archive.
pub struct Mdd {
    /// The shared container parser.
    pub base: MdictBase,
}

impl Mdd {
    /// A handle is well formed when its parser state is.
    pub open spec fn wf(&self) -> bool {
        self.base.wf()
    }

    /// Open an MDD archive from its bytes.
    pub fn new(data: Vec<u8>) -> (r: Result<Mdd, MdictError>)
        ensures
            match r {
                Ok(m) => m.wf() && mdict_base::parsed_from(m.base, data@, FileExt::Mdd),
                Err(_) => true,
            },
    {
        let base = match MdictBase::new(data, FileExt::Mdd) {
            Ok(b) => b,
            Err(e) => {
                return Err(e);
            },
        };
        Ok(Mdd { base })
    }

    /// The header attributes.
    pub fn header(&self) -> (r: &Vec<(String, String)>)
        ensures
            r == &self.base.header,
    {
        &self.base.header
    }

    /// The archive metadata.
    pub fn meta(&self) -> (r: &DictMeta)
        ensures
            r == &self.base.meta,
    {
        &self.base.meta
    }

    /// Total number of resources.
    pub fn resource_count(&self) -> (r: usize)
        ensures
            r == self.base.keyword_list@.len(),
    {
        self.base.keyword_list.len()
    }

    /// All resource keys, in sort order.
    pub fn resource_keys(&self) -> (r: Vec<String>)
        ensures
            r@.len() == self.base.keyword_list@.len(),
            forall|k: int|
                0 <= k < r@.len() ==> (#[trigger] r@[k])@ == self.base.keyword_list@[k].key_text@,
    {
        let n = self.base.keyword_list.len();
        let mut out: Vec<String> = Vec::new();
        let mut i: usize = 0;
        while i < n
            invariant
                i <= n,
                n == self.base.keyword_list@.len(),
                out@.len() == i,
                forall|k: int|
                    0 <= k < i ==> (#[trigger] out@[k])@ == self.base.keyword_list@[k].key_text@,
            decreases n - i,
        {
            out.push(self.base.keyword_list[i].key_text.clone());
            i = i + 1;
        }
        out
    }

    /// Locate a resource and return its raw bytes.
    pub fn locate_raw(&self, resource_key: &str) -> (r: Option<Vec<u8>>)
        requires
            self.wf(),
        ensures
            match r {
                Some(v) => located_raw_ok(self.base, resource_key@, v@),
                None => true,
            },
            (forall|i: int|
                0 <= i < self.base.keyword_list@.len() ==> self.base.cmp_of(
                    resource_key@,
                    (#[trigger] self.base.keyword_list@[i]).key_text@,
                ) != 0) ==> r is None,
            r is None ==> (forall|i: int|
                0 <= i < self.base.keyword_list@.len() ==> self.base.cmp_of(
                    resource_key@,
                    (#[trigger] self.base.keyword_list@[i]).key_text@,
                ) != 0) || (exists|i: int|
                0 <= i < self.base.keyword_list@.len() && self.base.cmp_of(
                    resource_key@,
                    (#[trigger] self.base.keyword_list@[i]).key_text@,
                ) == 0 && mdict_base::fetch_fails(self.base, self.base.keyword_list@[i])),
    {
        let item = match self.base.lookup_keyword_by_word(resource_key, false) {
            Option::None => {
                return None;
            },
            Option::Some(it) => it,
        };
        match self.base.lookup_record_by_keyword(item) {
            Ok(b) => {
                proof {
                    let i0 = choose|i0: int|
                        0 <= i0 < self.base.keyword_list@.len() && self.base.keyword_list@[i0]
                            == *item;
                    let (blk, content) = choose|blk: int, content: Seq<u8>|
                        #[trigger] mdict_base::record_fetch_ok(self.base, *item, blk, content, b@);
                    assert(mdict_base::record_fetch_ok(
                        self.base,
                        self.base.keyword_list@[i0],
                        blk,
                        content,
                        b@,
                    ));
                    assert(located_raw_ok(self.base, resource_key@, b@));
                }
                Some(b)
            },
            Err(_) => {
                proof {
                    let i0 = choose|i0: int|
                        0 <= i0 < self.base.keyword_list@.len() && self.base.keyword_list@[i0]
                            == *item;
                    assert(self.base.cmp_of(
                        resource_key@,
                        self.base.keyword_list@[i0].key_text@,
                    ) == 0 && mdict_base::fetch_fails(self.base, self.base.keyword_list@[i0]));
                }
                None
            },
        }
    }

    /// Locate a resource and return its data as base64 text.
    pub fn locate(&self, resource_key: &str) -> (r: Option<LookupResult>)
        requires
            self.wf(),
        ensures
            match r {
                Some(lr) => located_b64_ok(self.base, resource_key@, lr.key_text@, lr.definition@),
                None => true,
            },
            (forall|i: int|
                0 <= i < self.base.keyword_list@.len() ==> self.base.cmp_of(
                    resource_key@,
                    (#[trigger] self.base.keyword_list@[i]).key_text@,
                ) != 0) ==> r is None,
            r is None ==> (forall|i: int|
                0 <= i < self.base.keyword_list@.len() ==> self.base.cmp_of(
                    resource_key@,
                    (#[trigger] self.base.keyword_list@[i]).key_text@,
                ) != 0) || (exists|i: int|
                0 <= i < self.base.keyword_list@.len() && self.base.cmp_of(
                    resource_key@,
                    (#[trigger] self.base.keyword_list@[i]).key_text@,
                ) == 0 && mdict_base::fetch_fails(self.base, self.base.keyword_list@[i])),
    {
        let item = match self.base.lookup_keyword_by_word(resource_key, false) {
            Option::None => {
                return None;
            },
            Option::Some(it) => it,
        };
        let data_bytes = match self.base.lookup_record_by_keyword(item) {
            Ok(b) => b,
            Err(_) => {
                proof {
                    let i0 = choose|i0: int|
                        0 <= i0 < self.base.keyword_list@.len() && self.base.keyword_list@[i0]
                            == *item;
                    assert(self.base.cmp_of(
                        resource_key@,
                        self.base.keyword_list@[i0].key_text@,
                    ) == 0 && mdict_base::fetch_fails(self.base, self.base.keyword_list@[i0]));
                }
                return None;
            },
        };
        let definition = shims::base64_encode(data_bytes.as_slice());
        proof {
            let i0 = choose|i0: int|
                0 <= i0 < self.base.keyword_list@.len() && self.base.keyword_list@[i0] == *item;
            let (blk, content) = choose|blk: int, content: Seq<u8>|
                #[trigger] mdict_base::record_fetch_ok(
                    self.base,
                    *item,
                    blk,
                    content,
                    data_bytes@,
                );
            assert(mdict_base::record_fetch_ok(
                self.base,
                self.base.keyword_list@[i0],
                blk,
                content,
                data_bytes@,
            ));
            assert(located_b64_ok(
                self.base,
                resource_key@,
                item.key_text@,
                shims::base64_of(data_bytes@),
            ));
        }
        Some(LookupResult { key_text: item.key_text.clone(), definition })
    }

    /// Find resources with the given prefix, each with its base64 data:
    /// exactly the prefix filter's entries whose fetch succeeds, in order.
    pub fn prefix(&self, prefix: &str) -> (r: Vec<LookupResult>)
        requires
            self.wf(),
        ensures
            resource_results_ok(
                self.base,
                mdict_base::filter_prefix(self.base.keyword_list@, prefix@),
                r@,
            ),
    {
        let keywords = self.base.get_prefix_keywords(prefix);
        let mut results: Vec<LookupResult> = Vec::new();
        let n = keywords.len();
        let mut i: usize = 0;
        proof {
            assert(keywords@.take(0) =~= Seq::<KeyWordItem>::empty());
        }
        while i < n
            invariant
                self.wf(),
                i <= n,
                n == keywords@.len(),
                keywords@ == mdict_base::filter_prefix(self.base.keyword_list@, prefix@),
                resource_results_ok(self.base, keywords@.take(i as int), results@),
            decreases n - i,
        {
            proof {
                assert(keywords@.take(i + 1) =~= keywords@.take(i as int).push(
                    keywords@[i as int],
                ));
            }
            match self.base.lookup_record_by_keyword(&keywords[i]) {
                Ok(data_bytes) => {
                    let definition = shims::base64_encode(data_bytes.as_slice());
                    let lr = LookupResult { key_text: keywords[i].key_text.clone(), definition };
                    proof {
                        lemma_resource_results_snoc(
                            self.base,
                            keywords@.take(i as int),
                            results@,
                            keywords@[i as int],
                            Some(lr),
                        );
                    }
                    results.push(lr);
                },
                Err(_) => {
                    proof {
                        lemma_resource_results_snoc(
                            self.base,
                            keywords@.take(i as int),
                            results@,
                            keywords@[i as int],
                            None,
                        );
                    }
                },
            }
            i = i + 1;
        }
        proof {
            assert(keywords@.take(n as int) =~= keywords@);
        }
        results
    }

    /// Find resource keys with the given prefix (keys only).
    pub fn prefix_keys(&self, prefix: &str) -> (r: Vec<String>)
        ensures
            ({
                let flt = mdict_base::filter_prefix(self.base.keyword_list@, prefix@);
                r@.len() == flt.len() && forall|k: int|
                    0 <= k < r@.len() ==> (#[trigger] r@[k])@ == flt[k].key_text@
            }),
    {
        let keywords = self.base.get_prefix_keywords(prefix);
        let n = keywords.len();
        let mut out: Vec<String> = Vec::new();
        let mut i: usize = 0;
        while i < n
            invariant
                i <= n,
                n == keywords@.len(),
                keywords@ == mdict_base::filter_prefix(self.base.keyword_list@, prefix@),
                out@.len() == i,
                forall|k: int| 0 <= k < i ==> (#[trigger] out@[k])@ == keywords@[k].key_text@,
            decreases n - i,
        {
            out.push(keywords[i].key_text.clone());
            i = i + 1;
        }
        out
    }

    /// Whether a resource exists (by canonical key).
    pub fn contains(&self, resource_key: &str) -> (r: bool)
        requires
            self.wf(),
        ensures
            r == exists|i: int|
                0 <= i < self.base.keyword_list@.len() && self.base.cmp_of(
                    resource_key@,
                    (#[trigger] self.base.keyword_list@[i]).key_text@,
                ) == 0,
    {
        match self.base.lookup_keyword_by_word(resource_key, false) {
            Option::Some(_) => true,
            Option::None => false,
        }
    }

    /// Resource information, without loading the data: the key as stored,
    /// the lowercased extension of the queried key, and the MIME type
    /// guessed from it.
    pub fn get_resource_info(&self, resource_key: &str) -> (r: Option<ResourceInfo>)
        requires
            self.wf(),
        ensures
            match r {
                Some(ri) => {
                    &&& exists|i: int|
                        0 <= i < self.base.keyword_list@.len() && self.base.cmp_of(
                            resource_key@,
                            (#[trigger] self.base.keyword_list@[i]).key_text@,
                        ) == 0 && ri.key@ == self.base.keyword_list@[i].key_text@
                    &&& ri.extension@ == shims::lower_of(after_last_dot(resource_key@))
                    &&& ri.mime_type@ == mime_of(shims::lower_of(after_last_dot(resource_key@)))
                },
                None => forall|i: int|
                    0 <= i < self.base.keyword_list@.len() ==> self.base.cmp_of(
                        resource_key@,
                        (#[trigger] self.base.keyword_list@[i]).key_text@,
                    ) != 0,
            },
    {
        let item = match self.base.lookup_keyword_by_word(resource_key, false) {
            Option::None => {
                return None;
            },
            Option::Some(it) => it,
        };
        let cs = shims::str_chars(resource_key);
        let suffix = ext_chars(&cs);
        let suffix_s = shims::chars_string(&suffix);
        let extension = shims::lowercase(suffix_s.as_str());
        let mime_type = String::from_str(mime_for(extension.as_str()));
        Some(ResourceInfo { key: item.key_text.clone(), extension, mime_type })
    }
}

/// How a resource prefix scan's results descend from the prefix filter:
/// an order-preserving walk that keeps each entry whose fetch succeeded,
/// its bytes rendered as standard base64, and drops exactly the entries
/// whose fetch fails.
pub open spec fn resource_results_ok(
    b: MdictBase,
    flt: Seq<KeyWordItem>,
    results: Seq<LookupResult>,
) -> bool
    decreases flt.len(),
{
    if flt.len() == 0 {
        results.len() == 0
    } else {
        ||| (mdict_base::fetch_fails(b, flt[0]) && resource_results_ok(b, flt.skip(1), results))
        ||| (results.len() > 0 && results[0].key_text@ == flt[0].key_text@ && (exists|
            blk: int,
            content: Seq<u8>,
            raw: Seq<u8>,
        |
            #[trigger] mdict_base::record_fetch_ok(b, flt[0], blk, content, raw)
                && results[0].definition@ == shims::base64_of(raw)) && resource_results_ok(
            b,
            flt.skip(1),
            results.skip(1),
        ))
    }
}

/// Appending one more filter entry extends the walk: dropped when its
/// fetch fails, kept when a fetch produced its base64 data.
pub proof fn lemma_resource_results_snoc(
    b: MdictBase,
    flt: Seq<KeyWordItem>,
    results: Seq<LookupResult>,
    x: KeyWordItem,
    kept: Option<LookupResult>,
)
    requires
        resource_results_ok(b, flt, results),
        match kept {
            Some(lr) => lr.key_text@ == x.key_text@ && exists|
                blk: int,
                content: Seq<u8>,
                raw: Seq<u8>,
            |
                #[trigger] mdict_base::record_fetch_ok(b, x, blk, content, raw) && lr.definition@
                    == shims::base64_of(raw),
            None => mdict_base::fetch_fails(b, x),
        },
    ensures
        match kept {
            Some(lr) => resource_results_ok(b, flt.push(x), results.push(lr)),
            None => resource_results_ok(b, flt.push(x), results),
        },
    decreases flt.len(),
{
    if flt.len() == 0 {
        assert(flt.push(x)[0] == x);
        assert(flt.push(x).skip(1) =~= Seq::<KeyWordItem>::empty());
        match kept {
            Some(lr) => {
                assert(results.push(lr)[0] == lr);
                assert(results.push(lr).skip(1) =~= Seq::<LookupResult>::empty());
                let (blk, content, raw) = choose|blk: int, content: Seq<u8>, raw: Seq<u8>|
                    #[trigger] mdict_base::record_fetch_ok(b, x, blk, content, raw)
                        && lr.definition@ == shims::base64_of(raw);
                assert(mdict_base::record_fetch_ok(b, flt.push(x)[0], blk, content, raw));
                assert(resource_results_ok(b, flt.push(x).skip(1), results.push(lr).skip(1)));
            },
            None => {
                assert(resource_results_ok(b, flt.push(x).skip(1), results));
            },
        }
    } else {
        assert(flt.push(x)[0] == flt[0]);
        assert(flt.push(x).skip(1) =~= flt.skip(1).push(x));
        if mdict_base::fetch_fails(b, flt[0]) && resource_results_ok(b, flt.skip(1), results) {
            lemma_resource_results_snoc(b, flt.skip(1), results, x, kept);
        }
        if results.len() > 0 && results[0].key_text@ == flt[0].key_text@ && (exists|
            blk: int,
            content: Seq<u8>,
            raw: Seq<u8>,
        |
            #[trigger] mdict_base::record_fetch_ok(b, flt[0], blk, content, raw)
                && results[0].definition@ == shims::base64_of(raw)) && resource_results_ok(
            b,
            flt.skip(1),
            results.skip(1),
        ) {
            lemma_resource_results_snoc(b, flt.skip(1), results.skip(1), x, kept);
            let (blk0, content0, raw0) = choose|blk: int, content: Seq<u8>, raw: Seq<u8>|
                #[trigger] mdict_base::record_fetch_ok(b, flt[0], blk, content, raw)
                    && results[0].definition@ == shims::base64_of(raw);
            assert(mdict_base::record_fetch_ok(b, flt.push(x)[0], blk0, content0, raw0));
            match kept {
                Some(lr) => {
                    assert(results.push(lr)[0] == results[0]);
                    assert(results.push(lr).skip(1) =~= results.skip(1).push(lr));
                },
                None => {},
            }
        }
    }
}

} // verus!
