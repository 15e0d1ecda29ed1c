//! MDX text dictionaries: exact lookup, prefix scan, fuzzy suggestion and
//! definition fetch over the shared container parser.

use vstd::prelude::*;

use crate::error::MdictError;
use crate::mdict_base;
use crate::mdict_base::MdictBase;
use crate::shims;
use crate::types::DictMeta;
use crate::types::FileExt;
use crate::types::FuzzyWord;
use crate::types::KeyWordItem;
use crate::types::LookupResult;
use crate::utils;

verus! {

/// The text a definition's bytes decode to: the nominated charset when it
/// accepts them, the lossy UTF-8 reading otherwise.
pub open spec fn def_text_of(bytes: Seq<u8>, enc: crate::types::Encoding) -> Seq<char> {
    match utils::decode_string_spec(bytes, enc) {
        Some(t) => t,
        None => shims::utf8_lossy_of(bytes),
    }
}

/// Decode a definition, falling back to the lossy UTF-8 reading.
fn decode_definition(bytes: &Vec<u8>, enc: crate::types::Encoding) -> (r: String)
    ensures
        r@ == def_text_of(bytes@, enc),
{
    match utils::decode_string(bytes.as_slice(), enc) {
        Ok(t) => t,
        Err(_) => shims::utf8_decode_lossy(bytes.as_slice()),
    }
}

/// The associated-keyword pool `Suggest` and `FuzzySearch` draw from: empty
/// for an empty index, else the key block of the entry at the binary-search
/// landing point for the word (an entry with an equal canonical key when
/// one exists).
pub open spec fn assoc_pool_ok(b: MdictBase, word: Seq<char>, pool: Seq<KeyWordItem>) -> bool {
    &&& (b.keyword_list@.len() == 0 ==> pool.len() == 0)
    &&& (b.keyword_list@.len() > 0 ==> exists|lb: int|
        {
            &&& #[trigger] mdict_base::is_lower_bound(b, word, lb)
            &&& pool == mdict_base::filter_block(
                b.keyword_list@,
                b.keyword_list@[mdict_base::clamp_index(
                    b.keyword_list@.len() as int,
                    lb,
                )].key_block_idx as int,
            )
            &&& ((exists|i: int|
                0 <= i < b.keyword_list@.len() && b.cmp_of(
                    word,
                    (#[trigger] b.keyword_list@[i]).key_text@,
                ) == 0) ==> b.cmp_of(
                word,
                b.keyword_list@[mdict_base::clamp_index(
                    b.keyword_list@.len() as int,
                    lb,
                )].key_text@,
            ) == 0)
        })
}

/// The pool entries within `maxd` of the stripped query, paired with their
/// distances, in pool order.
pub open spec fn dist_filter(
    pool: Seq<KeyWordItem>,
    target: Seq<char>,
    maxd: nat,
    is_mdd: bool,
) -> Seq<(KeyWordItem, nat)>
    decreases pool.len(),
{
    if pool.len() == 0 {
        Seq::<(KeyWordItem, nat)>::empty()
    } else {
        let d = utils::edit_dist(utils::strip_key_spec(pool[0].key_text@, is_mdd), target);
        if d <= maxd {
            seq![(pool[0], d)] + dist_filter(pool.skip(1), target, maxd, is_mdd)
        } else {
            dist_filter(pool.skip(1), target, maxd, is_mdd)
        }
    }
}

/// Everything the distance filter keeps is a true within-bound distance.
pub proof fn lemma_dist_filter_elems(
    pool: Seq<KeyWordItem>,
    target: Seq<char>,
    maxd: nat,
    is_mdd: bool,
)
    ensures
        forall|k: int|
            0 <= k < dist_filter(pool, target, maxd, is_mdd).len() ==> {
                let p = #[trigger] dist_filter(pool, target, maxd, is_mdd)[k];
                p.1 == utils::edit_dist(utils::strip_key_spec(p.0.key_text@, is_mdd), target)
                    && p.1 <= maxd
            },
    decreases pool.len(),
{
    if pool.len() > 0 {
        lemma_dist_filter_elems(pool.skip(1), target, maxd, is_mdd);
        let f = dist_filter(pool, target, maxd, is_mdd);
        let rest = dist_filter(pool.skip(1), target, maxd, is_mdd);
        let d = utils::edit_dist(utils::strip_key_spec(pool[0].key_text@, is_mdd), target);
        if d <= maxd {
            assert forall|k: int| 0 <= k < f.len() implies {
                let p = #[trigger] f[k];
                p.1 == utils::edit_dist(utils::strip_key_spec(p.0.key_text@, is_mdd), target)
                    && p.1 <= maxd
            } by {
                if k == 0 {
                    assert(f[0] == (pool[0], d));
                } else {
                    assert(f[k] == rest[k - 1]);
                }
            }
        } else {
            assert(f == rest);
        }
    }
}

/// The scored view of a fuzzy result list.
pub open spec fn scored_view(s: Seq<FuzzyWord>) -> Seq<(KeyWordItem, nat)> {
    s.map_values(|f: FuzzyWord| (f.item, f.edit_distance as nat))
}

/// Scored candidates in ascending distance order.
pub open spec fn sorted_by_dist(s: Seq<FuzzyWord>) -> bool {
    forall|i: int, j: int|
        0 <= i < j < s.len() ==> (#[trigger] s[i]).edit_distance <= (#[trigger] s[j]).edit_distance
}

/// Collect the pool entries within distance `maxd` of the stripped query,
/// in pool order.
fn score_candidates(pool: &Vec<KeyWordItem>, stripped: &String, maxd: usize, is_mdd: bool) -> (r:
    Vec<FuzzyWord>)
    ensures
        scored_view(r@) == dist_filter(pool@, stripped@, maxd as nat, is_mdd),
{
    let n = pool.len();
    let mut out: Vec<FuzzyWord> = Vec::new();
    let mut i: usize = 0;
    proof {
        assert(pool@.skip(0) =~= pool@);
        assert(scored_view(out@) + dist_filter(pool@, stripped@, maxd as nat, is_mdd)
            =~= dist_filter(pool@, stripped@, maxd as nat, is_mdd));
    }
    while i < n
        invariant
            i <= n,
            n == pool@.len(),
            scored_view(out@) + dist_filter(pool@.skip(i as int), stripped@, maxd as nat, is_mdd)
                == dist_filter(pool@, stripped@, maxd as nat, is_mdd),
        decreases n - i,
    {
        let ghost tail = pool@.skip(i as int);
        proof {
            assert(tail[0] == pool@[i as int]);
            assert(tail.skip(1) =~= pool@.skip(i + 1));
        }
        let sk = utils::strip_key(pool[i].key_text.as_str(), is_mdd);
        let d = utils::levenshtein_distance(sk.as_str(), stripped.as_str());
        if d <= maxd {
            let ghost pre = out@;
            out.push(FuzzyWord { item: mdict_base::clone_item(&pool[i]), edit_distance: d });
            proof {
                assert(scored_view(out@) =~= scored_view(pre).push((pool@[i as int], d as nat)));
                assert(scored_view(out@) + dist_filter(
                    pool@.skip(i + 1),
                    stripped@,
                    maxd as nat,
                    is_mdd,
                ) =~= scored_view(pre) + (seq![(pool@[i as int], d as nat)] + dist_filter(
                    pool@.skip(i + 1),
                    stripped@,
                    maxd as nat,
                    is_mdd,
                )));
            }
        }
        i = i + 1;
    }
    proof {
        assert(pool@.skip(n as int) =~= Seq::<KeyWordItem>::empty());
        assert(scored_view(out@) + Seq::<(KeyWordItem, nat)>::empty() =~= scored_view(out@));
    }
    out
}

/// Insert a scored candidate before the first strictly-farther entry:
/// entries at its own distance stay ahead of it.
pub open spec fn stable_insert(s: Seq<FuzzyWord>, x: FuzzyWord) -> Seq<FuzzyWord>
    decreases s.len(),
{
    if s.len() == 0 {
        seq![x]
    } else if s[0].edit_distance > x.edit_distance {
        seq![x] + s
    } else {
        seq![s[0]] + stable_insert(s.skip(1), x)
    }
}

/// The stable ascending-distance sort: each element inserted, in input
/// order, after every entry at its own distance.
pub open spec fn stable_sort_by_dist(s: Seq<FuzzyWord>) -> Seq<FuzzyWord>
    decreases s.len(),
{
    if s.len() == 0 {
        Seq::<FuzzyWord>::empty()
    } else {
        stable_insert(stable_sort_by_dist(s.drop_last()), s.last())
    }
}

/// A stable insert into a sorted list lands at the first strictly-farther
/// position.
proof fn lemma_stable_insert_at(s: Seq<FuzzyWord>, x: FuzzyWord, p: int)
    requires
        sorted_by_dist(s),
        0 <= p <= s.len(),
        forall|q: int| 0 <= q < p ==> (#[trigger] s[q]).edit_distance <= x.edit_distance,
        p < s.len() ==> s[p].edit_distance > x.edit_distance,
    ensures
        stable_insert(s, x) == s.take(p) + seq![x] + s.skip(p),
    decreases s.len(),
{
    if s.len() == 0 {
        assert(stable_insert(s, x) =~= s.take(0) + seq![x] + s.skip(0));
    } else if s[0].edit_distance > x.edit_distance {
        assert(p == 0) by {
            if p > 0 {
                assert(s[0].edit_distance <= x.edit_distance);
            }
        }
        assert(stable_insert(s, x) =~= s.take(0) + seq![x] + s.skip(0));
    } else {
        assert(p >= 1);
        assert(sorted_by_dist(s.skip(1))) by {
            assert(forall|a: int, b: int|
                0 <= a < b < s.skip(1).len() ==> s.skip(1)[a] == s[a + 1] && s.skip(1)[b] == s[b
                    + 1]);
        }
        assert(forall|q: int|
            0 <= q < p - 1 ==> (#[trigger] s.skip(1)[q]).edit_distance <= x.edit_distance);
        lemma_stable_insert_at(s.skip(1), x, p - 1);
        assert(stable_insert(s, x) =~= s.take(p) + seq![x] + s.skip(p)) by {
            assert(s.skip(1).take(p - 1) =~= s.subrange(1, p));
            assert(s.skip(1).skip(p - 1) =~= s.skip(p));
        }
    }
}

/// The stable sort is sorted, keeps the length, and keeps the multiset.
proof fn lemma_stable_sort_props(s: Seq<FuzzyWord>)
    ensures
        sorted_by_dist(stable_sort_by_dist(s)),
        stable_sort_by_dist(s).len() == s.len(),
        stable_sort_by_dist(s).to_multiset() == s.to_multiset(),
    decreases s.len(),
{
    broadcast use vstd::seq_lib::group_to_multiset_ensures;

    if s.len() > 0 {
        lemma_stable_sort_props(s.drop_last());
        lemma_stable_insert_props(stable_sort_by_dist(s.drop_last()), s.last());
        assert(s =~= s.drop_last().push(s.last()));
        assert(s.drop_last().push(s.last()).to_multiset() =~= s.drop_last().to_multiset().insert(
            s.last(),
        ));
    }
}

/// A stable insert into a sorted list stays sorted, grows by one, and adds
/// the element to the multiset.
proof fn lemma_stable_insert_props(s: Seq<FuzzyWord>, x: FuzzyWord)
    requires
        sorted_by_dist(s),
    ensures
        sorted_by_dist(stable_insert(s, x)),
        stable_insert(s, x).len() == s.len() + 1,
        stable_insert(s, x).to_multiset() == s.to_multiset().insert(x),
    decreases s.len(),
{
    broadcast use vstd::seq_lib::group_to_multiset_ensures;

    if s.len() == 0 {
        assert(stable_insert(s, x) =~= Seq::<FuzzyWord>::empty().push(x));
        assert(Seq::<FuzzyWord>::empty().push(x).to_multiset() =~= Seq::<
            FuzzyWord,
        >::empty().to_multiset().insert(x));
    } else if s[0].edit_distance > x.edit_distance {
        let out = stable_insert(s, x);
        assert(out =~= s.insert(0, x));
        vstd::seq_lib::to_multiset_insert(s, 0, x);
        assert forall|a: int, b: int| 0 <= a < b < out.len() implies (#[trigger] out[a]).edit_distance
            <= (#[trigger] out[b]).edit_distance by {
            if a > 0 {
                assert(out[a] == s[a - 1] && out[b] == s[b - 1]);
            } else {
                assert(out[b] == s[b - 1]);
                if b > 1 {
                    assert(s[0].edit_distance <= s[b - 1].edit_distance);
                }
            }
        }
    } else {
        assert(sorted_by_dist(s.skip(1))) by {
            assert(forall|a: int, b: int|
                0 <= a < b < s.skip(1).len() ==> s.skip(1)[a] == s[a + 1] && s.skip(1)[b] == s[b
                    + 1]);
        }
        lemma_stable_insert_props(s.skip(1), x);
        let rest = stable_insert(s.skip(1), x);
        let out = stable_insert(s, x);
        assert(out =~= seq![s[0]] + rest);
        assert(out =~= rest.insert(0, s[0]));
        vstd::seq_lib::to_multiset_insert(rest, 0, s[0]);
        assert(s =~= s.skip(1).insert(0, s[0]));
        vstd::seq_lib::to_multiset_insert(s.skip(1), 0, s[0]);
        assert(out.to_multiset() =~= s.to_multiset().insert(x)) by {
            broadcast use vstd::multiset::group_multiset_axioms;

            assert(forall|e: FuzzyWord|
                #[trigger] out.to_multiset().count(e) == s.to_multiset().insert(x).count(e));
        }
        assert forall|a: int, b: int| 0 <= a < b < out.len() implies (#[trigger] out[a]).edit_distance
            <= (#[trigger] out[b]).edit_distance by {
            assert(out[0] == s[0]);
            if a > 0 {
                assert(out[a] == rest[a - 1] && out[b] == rest[b - 1]);
            } else {
                assert(out[b] == rest[b - 1]);
                // the head is no farther than anything inserted after it:
                // rest holds x (no farther than the head allows) and the
                // tail of s (sorted after the head)
                lemma_stable_insert_member_bound(s.skip(1), x, b - 1);
                if rest[b - 1].edit_distance < s[0].edit_distance {
                    assert(false);
                }
            }
        }
    }
}

/// Every entry of a stable insert is either the inserted element or one of
/// the list's own.
proof fn lemma_stable_insert_member_bound(s: Seq<FuzzyWord>, x: FuzzyWord, k: int)
    requires
        0 <= k < stable_insert(s, x).len(),
    ensures
        stable_insert(s, x)[k] == x || exists|j: int|
            0 <= j < s.len() && #[trigger] s[j] == stable_insert(s, x)[k],
    decreases s.len(),
{
    if s.len() == 0 {
    } else if s[0].edit_distance > x.edit_distance {
        if k > 0 {
            assert(stable_insert(s, x)[k] == s[k - 1]);
        }
    } else {
        if k == 0 {
            assert(stable_insert(s, x)[0] == s[0]);
        } else {
            lemma_stable_insert_member_bound(s.skip(1), x, k - 1);
            assert(stable_insert(s, x)[k] == stable_insert(s.skip(1), x)[k - 1]);
            if stable_insert(s.skip(1), x)[k - 1] != x {
                let j = choose|j: int|
                    0 <= j < s.skip(1).len() && #[trigger] s.skip(1)[j] == stable_insert(
                        s.skip(1),
                        x,
                    )[k - 1];
                assert(s[j + 1] == stable_insert(s, x)[k]);
            }
        }
    }
}

/// A one-element list is its own stable sort.
proof fn lemma_stable_sort_singleton(s: Seq<FuzzyWord>)
    requires
        s.len() == 1,
    ensures
        stable_sort_by_dist(s) == s,
{
    assert(s.drop_last() =~= Seq::<FuzzyWord>::empty());
    assert(stable_sort_by_dist(Seq::<FuzzyWord>::empty()) =~= Seq::<FuzzyWord>::empty());
    assert(stable_insert(Seq::<FuzzyWord>::empty(), s.last()) =~= seq![s.last()]);
    assert(stable_sort_by_dist(s) == stable_insert(
        stable_sort_by_dist(s.drop_last()),
        s.last(),
    ));
    assert(stable_sort_by_dist(s) =~= s);
}

/// Sort scored candidates by ascending edit distance: the stable insertion
/// sort, exactly.
fn sort_fuzzy(list: &mut Vec<FuzzyWord>)
    ensures
        final(list)@ == stable_sort_by_dist(old(list)@),
        final(list)@.to_multiset() == old(list)@.to_multiset(),
        final(list)@.len() == old(list)@.len(),
        sorted_by_dist(final(list)@),
{
    let ghost orig = list@;
    let n = list.len();
    proof {
        lemma_stable_sort_props(orig);
    }
    if n <= 1 {
        proof {
            if n == 1 {
                lemma_stable_sort_singleton(orig);
            } else {
                assert(stable_sort_by_dist(orig) =~= orig);
            }
        }
        return ;
    }
    let mut i: usize = 1;
    proof {
        lemma_stable_sort_singleton(orig.take(1));
        assert(list@ =~= stable_sort_by_dist(orig.take(1)) + orig.skip(1));
    }
    while i < n
        invariant
            1 <= i <= n,
            n == list@.len(),
            n == orig.len(),
            list@ == stable_sort_by_dist(orig.take(i as int)) + orig.skip(i as int),
        decreases n - i,
    {
        let ghost prefix = stable_sort_by_dist(orig.take(i as int));
        proof {
            lemma_stable_sort_props(orig.take(i as int));
            assert(prefix.len() == i);
            assert(forall|q: int| 0 <= q < i ==> #[trigger] list@[q] == prefix[q]);
            assert(list@[i as int] == orig.skip(i as int)[0]);
            assert(orig.skip(i as int)[0] == orig[i as int]);
        }
        let mut p: usize = 0;
        loop
            invariant
                p <= i < n,
                n == list@.len(),
                n == orig.len(),
                list@ == prefix + orig.skip(i as int),
                prefix.len() == i,
                forall|q: int|
                    0 <= q < p ==> (#[trigger] prefix[q]).edit_distance
                        <= orig[i as int].edit_distance,
            ensures
                p <= i,
                n == list@.len(),
                list@ == prefix + orig.skip(i as int),
                forall|q: int|
                    0 <= q < p ==> (#[trigger] prefix[q]).edit_distance
                        <= orig[i as int].edit_distance,
                p < i ==> prefix[p as int].edit_distance > orig[i as int].edit_distance,
            decreases i - p,
        {
            if p >= i {
                break;
            }
            proof {
                assert(list@[p as int] == prefix[p as int]);
                assert(list@[i as int] == orig[i as int]);
            }
            if list[p].edit_distance > list[i].edit_distance {
                break;
            }
            p = p + 1;
        }
        proof {
            lemma_stable_insert_at(prefix, orig[i as int], p as int);
            assert(orig.take(i + 1).drop_last() =~= orig.take(i as int));
            assert(orig.take(i + 1).last() == orig[i as int]);
            assert(stable_sort_by_dist(orig.take(i + 1)) == stable_insert(
                prefix,
                orig[i as int],
            ));
        }
        if p < i {
            let ghost before = list@;
            let x = list.remove(i);
            let ghost mid = list@;
            list.insert(p, x);
            proof {
                assert(x == orig[i as int]);
                assert(mid =~= before.remove(i as int));
                assert(list@ =~= mid.insert(p as int, x));
                assert(list@ =~= (prefix.take(p as int) + seq![x] + prefix.skip(p as int))
                    + orig.skip(i + 1));
                assert(list@ =~= stable_sort_by_dist(orig.take(i + 1)) + orig.skip(i + 1));
            }
        } else {
            proof {
                assert(stable_insert(prefix, orig[i as int]) =~= prefix.take(i as int) + seq![
                    orig[i as int],
                ] + prefix.skip(i as int));
                assert(list@ =~= stable_sort_by_dist(orig.take(i + 1)) + orig.skip(i + 1));
            }
        }
        i = i + 1;
    }
    proof {
        assert(orig.take(n as int) =~= orig);
        assert(orig.skip(n as int) =~= Seq::<FuzzyWord>::empty());
        assert(list@ =~= stable_sort_by_dist(orig));
    }
}

/// How a prefix scan's results descend from the prefix filter: an
/// order-preserving walk that keeps each entry whose fetch succeeded, with
/// its decoded definition, and drops exactly the entries whose fetch
/// fails.
pub open spec fn prefix_results_ok(
    b: MdictBase,
    flt: Seq<KeyWordItem>,
    results: Seq<LookupResult>,
) -> bool
    decreases flt.len(),
{
    if flt.len() == 0 {
        results.len() == 0
    } else {
        ||| (mdict_base::fetch_fails(b, flt[0]) && prefix_results_ok(b, flt.skip(1), results))
        ||| (results.len() > 0 && results[0].key_text@ == flt[0].key_text@ && (exists|
            blk: int,
            content: Seq<u8>,
            raw: Seq<u8>,
        |
            #[trigger] mdict_base::record_fetch_ok(b, flt[0], blk, content, raw)
                && results[0].definition@ == def_text_of(raw, b.meta.encoding))
            && prefix_results_ok(b, flt.skip(1), results.skip(1)))
    }
}

/// Appending one more filter entry extends the walk: dropped when its
/// fetch fails, kept when a fetch produced its definition.
pub proof fn lemma_prefix_results_snoc(
    b: MdictBase,
    flt: Seq<KeyWordItem>,
    results: Seq<LookupResult>,
    x: KeyWordItem,
    kept: Option<LookupResult>,
)
    requires
        prefix_results_ok(b, flt, results),
        match kept {
            Some(lr) => lr.key_text@ == x.key_text@ && exists|
                blk: int,
                content: Seq<u8>,
                raw: Seq<u8>,
            |
                #[trigger] mdict_base::record_fetch_ok(b, x, blk, content, raw) && lr.definition@
                    == def_text_of(raw, b.meta.encoding),
            None => mdict_base::fetch_fails(b, x),
        },
    ensures
        match kept {
            Some(lr) => prefix_results_ok(b, flt.push(x), results.push(lr)),
            None => prefix_results_ok(b, flt.push(x), results),
        },
    decreases flt.len(),
{
    if flt.len() == 0 {
        assert(flt.push(x)[0] == x);
        assert(flt.push(x).skip(1) =~= Seq::<KeyWordItem>::empty());
        match kept {
            Some(lr) => {
                assert(results.push(lr)[0] == lr);
                assert(results.push(lr).skip(1) =~= Seq::<LookupResult>::empty());
                let (blk, content, raw) = choose|blk: int, content: Seq<u8>, raw: Seq<u8>|
                    #[trigger] mdict_base::record_fetch_ok(b, x, blk, content, raw)
                        && lr.definition@ == def_text_of(raw, b.meta.encoding);
                assert(mdict_base::record_fetch_ok(b, flt.push(x)[0], blk, content, raw));
                assert(prefix_results_ok(b, flt.push(x).skip(1), results.push(lr).skip(1)));
            },
            None => {
                assert(prefix_results_ok(b, flt.push(x).skip(1), results));
            },
        }
    } else {
        assert(flt.push(x)[0] == flt[0]);
        assert(flt.push(x).skip(1) =~= flt.skip(1).push(x));
        if mdict_base::fetch_fails(b, flt[0]) && prefix_results_ok(b, flt.skip(1), results) {
            lemma_prefix_results_snoc(b, flt.skip(1), results, x, kept);
        }
        if results.len() > 0 && results[0].key_text@ == flt[0].key_text@ && (exists|
            blk: int,
            content: Seq<u8>,
            raw: Seq<u8>,
        |
            #[trigger] mdict_base::record_fetch_ok(b, flt[0], blk, content, raw)
                && results[0].definition@ == def_text_of(raw, b.meta.encoding))
            && prefix_results_ok(b, flt.skip(1), results.skip(1)) {
            lemma_prefix_results_snoc(b, flt.skip(1), results.skip(1), x, kept);
            let (blk0, content0, raw0) = choose|blk: int, content: Seq<u8>, raw: Seq<u8>|
                #[trigger] mdict_base::record_fetch_ok(b, flt[0], blk, content, raw)
                    && results[0].definition@ == def_text_of(raw, b.meta.encoding);
            assert(mdict_base::record_fetch_ok(b, flt.push(x)[0], blk0, content0, raw0));
            match kept {
                Some(lr) => {
                    assert(results.push(lr)[0] == results[0]);
                    assert(results.push(lr).skip(1) =~= results.skip(1).push(lr));
                },
                None => {},
            }
        }
    }
}

/// The inputs a fuzzy query scores: the associated pool of the query and
/// the pool's distance filter, in pool order.
pub open spec fn suggest_witness(
    b: MdictBase,
    word: Seq<char>,
    maxd: nat,
    pool: Seq<KeyWordItem>,
    cands: Seq<FuzzyWord>,
) -> bool {
    &&& assoc_pool_ok(b, word, pool)
    &&& scored_view(cands) == dist_filter(pool, utils::strip_key_spec(word, false), maxd, false)
}

/// An MDX text dictionary.
pub struct Mdx {
    /// The shared container parser.
    pub base: MdictBase,
}

impl Mdx {
    /// A handle is well formed when its parser state is.
    pub open spec fn wf(&self) -> bool {
        self.base.wf()
    }

    /// Whether this dictionary treats keys as MDD resource paths (it does
    /// not).
    pub open spec fn spec_is_mdd(&self) -> bool {
        self.base.meta.ext is Mdd
    }

    /// Open an MDX dictionary from its bytes.
    pub fn new(data: Vec<u8>) -> (r: Result<Mdx, MdictError>)
        ensures
            match r {
                Ok(m) => m.wf() && mdict_base::parsed_from(m.base, data@, FileExt::Mdx),
                Err(_) => true,
            },
    {
        let base = match MdictBase::new(data, FileExt::Mdx) {
            Ok(b) => b,
            Err(e) => {
                return Err(e);
            },
        };
        Ok(Mdx { base })
    }

    /// The header attributes.
    pub fn header(&self) -> (r: &Vec<(String, String)>)
        ensures
            r == &self.base.header,
    {
        &self.base.header
    }

    /// The dictionary metadata.
    pub fn meta(&self) -> (r: &DictMeta)
        ensures
            r == &self.base.meta,
    {
        &self.base.meta
    }

    /// Total number of keywords.
    pub fn keyword_count(&self) -> (r: usize)
        ensures
            r == self.base.keyword_list@.len(),
    {
        self.base.keyword_list.len()
    }

    /// All keywords, in sort order.
    pub fn keywords(&self) -> (r: Vec<String>)
        ensures
            r@.len() == self.base.keyword_list@.len(),
            forall|k: int|
                0 <= k < r@.len() ==> (#[trigger] r@[k])@ == self.base.keyword_list@[k].key_text@,
    {
        let n = self.base.keyword_list.len();
        let mut out: Vec<String> = Vec::new();
        let mut i: usize = 0;
        while i < n
            invariant
                i <= n,
                n == self.base.keyword_list@.len(),
                out@.len() == i,
                forall|k: int|
                    0 <= k < i ==> (#[trigger] out@[k])@ == self.base.keyword_list@[k].key_text@,
            decreases n - i,
        {
            out.push(self.base.keyword_list[i].key_text.clone());
            i = i + 1;
        }
        out
    }

    /// Look a word up and return its definition: the keyword with an equal
    /// canonical key, when one exists and its record fetch and decode go
    /// through.
    pub fn lookup(&self, word: &str) -> (r: Option<LookupResult>)
        requires
            self.wf(),
        ensures
            match r {
                Some(lr) => exists|i: int, blk: int, content: Seq<u8>, raw: Seq<u8>|
                    {
                        &&& 0 <= i < self.base.keyword_list@.len()
                        &&& self.base.cmp_of(
                            word@,
                            (#[trigger] self.base.keyword_list@[i]).key_text@,
                        ) == 0
                        &&& #[trigger] mdict_base::record_fetch_ok(
                            self.base,
                            self.base.keyword_list@[i],
                            blk,
                            content,
                            raw,
                        )
                        &&& lr.key_text@ == self.base.keyword_list@[i].key_text@
                        &&& lr.definition@ == def_text_of(raw, self.base.meta.encoding)
                    },
                None => true,
            },
            (forall|i: int|
                0 <= i < self.base.keyword_list@.len() ==> self.base.cmp_of(
                    word@,
                    (#[trigger] self.base.keyword_list@[i]).key_text@,
                ) != 0) ==> r is None,
            r is None ==> (forall|i: int|
                0 <= i < self.base.keyword_list@.len() ==> self.base.cmp_of(
                    word@,
                    (#[trigger] self.base.keyword_list@[i]).key_text@,
                ) != 0) || (exists|i: int|
                0 <= i < self.base.keyword_list@.len() && self.base.cmp_of(
                    word@,
                    (#[trigger] self.base.keyword_list@[i]).key_text@,
                ) == 0 && mdict_base::fetch_fails(self.base, self.base.keyword_list@[i])),
    {
        let item = match self.base.lookup_keyword_by_word(word, false) {
            Option::None => {
                return None;
            },
            Option::Some(it) => it,
        };
        let def_bytes = match self.base.lookup_record_by_keyword(item) {
            Ok(b) => b,
            Err(_) => {
                proof {
                    let i0 = choose|i0: int|
                        0 <= i0 < self.base.keyword_list@.len() && self.base.keyword_list@[i0]
                            == *item;
                    assert(self.base.cmp_of(
                        word@,
                        self.base.keyword_list@[i0].key_text@,
                    ) == 0 && mdict_base::fetch_fails(self.base, self.base.keyword_list@[i0]));
                }
                return None;
            },
        };
        let definition = decode_definition(&def_bytes, self.base.meta.encoding);
        Some(LookupResult { key_text: item.key_text.clone(), definition })
    }

    /// Find words with the given prefix, each with its definition: exactly
    /// the prefix filter's entries whose fetch succeeds, in order.
    pub fn prefix(&self, prefix: &str) -> (r: Vec<LookupResult>)
        requires
            self.wf(),
        ensures
            prefix_results_ok(
                self.base,
                mdict_base::filter_prefix(self.base.keyword_list@, prefix@),
                r@,
            ),
    {
        let keywords = self.base.get_prefix_keywords(prefix);
        let mut results: Vec<LookupResult> = Vec::new();
        let n = keywords.len();
        let mut i: usize = 0;
        proof {
            assert(keywords@.take(0) =~= Seq::<KeyWordItem>::empty());
        }
        while i < n
            invariant
                self.wf(),
                i <= n,
                n == keywords@.len(),
                keywords@ == mdict_base::filter_prefix(self.base.keyword_list@, prefix@),
                prefix_results_ok(self.base, keywords@.take(i as int), results@),
            decreases n - i,
        {
            proof {
                assert(keywords@.take(i + 1) =~= keywords@.take(i as int).push(
                    keywords@[i as int],
                ));
            }
            match self.base.lookup_record_by_keyword(&keywords[i]) {
                Ok(def_bytes) => {
                    let definition = decode_definition(&def_bytes, self.base.meta.encoding);
                    let lr = LookupResult { key_text: keywords[i].key_text.clone(), definition };
                    proof {
                        lemma_prefix_results_snoc(
                            self.base,
                            keywords@.take(i as int),
                            results@,
                            keywords@[i as int],
                            Some(lr),
                        );
                    }
                    results.push(lr);
                },
                Err(_) => {
                    proof {
                        lemma_prefix_results_snoc(
                            self.base,
                            keywords@.take(i as int),
                            results@,
                            keywords@[i as int],
                            None,
                        );
                    }
                },
            }
            i = i + 1;
        }
        proof {
            assert(keywords@.take(n as int) =~= keywords@);
        }
        results
    }

    /// Find words with the given prefix (keys only).
    pub fn prefix_keys(&self, prefix: &str) -> (r: Vec<String>)
        ensures
            ({
                let flt = mdict_base::filter_prefix(self.base.keyword_list@, prefix@);
                r@.len() == flt.len() && forall|k: int|
                    0 <= k < r@.len() ==> (#[trigger] r@[k])@ == flt[k].key_text@
            }),
    {
        let keywords = self.base.get_prefix_keywords(prefix);
        let n = keywords.len();
        let mut out: Vec<String> = Vec::new();
        let mut i: usize = 0;
        while i < n
            invariant
                i <= n,
                n == keywords@.len(),
                keywords@ == mdict_base::filter_prefix(self.base.keyword_list@, prefix@),
                out@.len() == i,
                forall|k: int| 0 <= k < i ==> (#[trigger] out@[k])@ == keywords@[k].key_text@,
            decreases n - i,
        {
            out.push(keywords[i].key_text.clone());
            i = i + 1;
        }
        out
    }

    /// Suggest similar words: the associated pool filtered by edit distance
    /// over stripped keys, ascending by distance.  Distances above five are
    /// refused with an empty list; with distance zero every suggestion's
    /// stripped key equals the query's.
    pub fn suggest(&self, word: &str, max_distance: usize) -> (r: Vec<String>)
        requires
            self.wf(),
        ensures
            max_distance > 5 ==> r@.len() == 0,
            max_distance <= 5 ==> exists|pool: Seq<KeyWordItem>, cands: Seq<FuzzyWord>|
                {
                    &&& #[trigger] suggest_witness(
                        self.base,
                        word@,
                        max_distance as nat,
                        pool,
                        cands,
                    )
                    &&& r@.len() == cands.len()
                    &&& forall|k: int|
                        0 <= k < r@.len() ==> (#[trigger] r@[k])@ == stable_sort_by_dist(
                            cands,
                        )[k].item.key_text@
                },
            forall|k: int|
                0 <= k < r@.len() ==> utils::edit_dist(
                    utils::strip_key_spec((#[trigger] r@[k])@, false),
                    utils::strip_key_spec(word@, false),
                ) <= max_distance,
            max_distance == 0 ==> forall|k: int|
                0 <= k < r@.len() ==> utils::strip_key_spec((#[trigger] r@[k])@, false)
                    == utils::strip_key_spec(word@, false),
    {
        broadcast use vstd::seq_lib::group_to_multiset_ensures;

        if max_distance > 5 {
            let empty: Vec<String> = Vec::new();
            return empty;
        }
        let stripped = utils::strip_key(word, false);
        let pool = self.base.get_associated_keywords(word);
        let mut scored = score_candidates(&pool, &stripped, max_distance, false);
        let ghost scored0 = scored@;
        sort_fuzzy(&mut scored);
        let n = scored.len();
        let mut out: Vec<String> = Vec::new();
        let mut i: usize = 0;
        proof {
            lemma_dist_filter_elems(
                pool@,
                utils::strip_key_spec(word@, false),
                max_distance as nat,
                false,
            );
            assert(scored_view(scored@).to_multiset() =~= scored_view(scored0).to_multiset()) by {
                lemma_scored_view_multiset(scored0, scored@);
            }
        }
        while i < n
            invariant
                i <= n,
                n == scored@.len(),
                out@.len() == i,
                scored_view(scored@).to_multiset() == dist_filter(
                    pool@,
                    utils::strip_key_spec(word@, false),
                    max_distance as nat,
                    false,
                ).to_multiset(),
                forall|k: int|
                    0 <= k < i ==> (#[trigger] out@[k])@ == scored@[k].item.key_text@,
                forall|k: int|
                    0 <= k < i ==> utils::edit_dist(
                        utils::strip_key_spec((#[trigger] out@[k])@, false),
                        utils::strip_key_spec(word@, false),
                    ) <= max_distance,
            decreases n - i,
        {
            proof {
                broadcast use vstd::seq_lib::group_to_multiset_ensures;

                let sv = scored_view(scored@);
                let df = dist_filter(
                    pool@,
                    utils::strip_key_spec(word@, false),
                    max_distance as nat,
                    false,
                );
                assert(sv[i as int] == (scored@[i as int].item, scored@[i as int].edit_distance as nat));
                assert(sv.to_multiset().count(sv[i as int]) > 0) by {
                    vstd::seq_lib::to_multiset_contains(sv, sv[i as int]);
                    assert(sv.contains(sv[i as int]));
                }
                assert(df.to_multiset().count(sv[i as int]) > 0);
                vstd::seq_lib::to_multiset_contains(df, sv[i as int]);
                assert(df.contains(sv[i as int]));
                let j = choose|j: int| 0 <= j < df.len() && df[j] == sv[i as int];
                lemma_dist_filter_elems(
                    pool@,
                    utils::strip_key_spec(word@, false),
                    max_distance as nat,
                    false,
                );
                assert(df[j].1 <= max_distance as nat);
                assert(scored@[i as int].edit_distance as nat == utils::edit_dist(
                    utils::strip_key_spec(scored@[i as int].item.key_text@, false),
                    utils::strip_key_spec(word@, false),
                ));
            }
            out.push(scored[i].item.key_text.clone());
            i = i + 1;
        }
        proof {
            if max_distance == 0 {
                assert forall|k: int| 0 <= k < out@.len() implies utils::strip_key_spec(
                    (#[trigger] out@[k])@,
                    false,
                ) == utils::strip_key_spec(word@, false) by {
                    utils::lemma_edit_dist_zero(
                        utils::strip_key_spec(out@[k]@, false),
                        utils::strip_key_spec(word@, false),
                    );
                }
            }
            assert(assoc_pool_ok(self.base, word@, pool@));
            assert(suggest_witness(self.base, word@, max_distance as nat, pool@, scored0));
            assert(scored@ == stable_sort_by_dist(scored0));
            assert(out@.len() == scored0.len());
        }
        out
    }

    /// Fuzzy search: like `suggest`, but returning the scored items,
    /// truncated to `max_results`.
    pub fn fuzzy_search(&self, word: &str, max_results: usize, max_distance: usize) -> (r: Vec<
        FuzzyWord,
    >)
        requires
            self.wf(),
        ensures
            exists|pool: Seq<KeyWordItem>, cands: Seq<FuzzyWord>|
                {
                    &&& #[trigger] suggest_witness(
                        self.base,
                        word@,
                        max_distance as nat,
                        pool,
                        cands,
                    )
                    &&& r@ == stable_sort_by_dist(cands).take(
                        if max_results <= cands.len() {
                            max_results as int
                        } else {
                            cands.len() as int
                        },
                    )
                },
            sorted_by_dist(r@),
            forall|k: int| 0 <= k < r@.len() ==> (#[trigger] r@[k]).edit_distance <= max_distance,
    {
        let stripped = utils::strip_key(word, false);
        let pool = self.base.get_associated_keywords(word);
        let mut scored = score_candidates(&pool, &stripped, max_distance, false);
        let ghost scored0 = scored@;
        sort_fuzzy(&mut scored);
        proof {
            lemma_scored_view_multiset(scored0, scored@);
        }
        let ghost full = scored@;
        scored.truncate(max_results);
        proof {
            if max_results <= full.len() {
                assert(scored@ =~= full.take(max_results as int));
            } else {
                assert(scored@ =~= full.take(full.len() as int));
                assert(full.take(full.len() as int) =~= full);
            }
            assert forall|k: int| 0 <= k < scored@.len() implies (#[trigger] scored@[k]).edit_distance
                <= max_distance by {
                broadcast use vstd::seq_lib::group_to_multiset_ensures;

                let sv = scored_view(full);
                let df = dist_filter(
                    pool@,
                    utils::strip_key_spec(word@, false),
                    max_distance as nat,
                    false,
                );
                assert(scored@[k] == full[k]);
                assert(sv[k] == (full[k].item, full[k].edit_distance as nat));
                vstd::seq_lib::to_multiset_contains(sv, sv[k]);
                assert(sv.contains(sv[k]));
                assert(df.to_multiset().count(sv[k]) > 0);
                vstd::seq_lib::to_multiset_contains(df, sv[k]);
                assert(df.contains(sv[k]));
                let j = choose|j: int| 0 <= j < df.len() && df[j] == sv[k];
                lemma_dist_filter_elems(
                    pool@,
                    utils::strip_key_spec(word@, false),
                    max_distance as nat,
                    false,
                );
                assert(df[j].1 <= max_distance as nat);
            }
            assert(assoc_pool_ok(self.base, word@, pool@));
            assert(suggest_witness(self.base, word@, max_distance as nat, pool@, scored0));
            assert(full == stable_sort_by_dist(scored0));
            assert(full.len() == scored0.len());
            assert forall|a: int, b: int| 0 <= a < b < scored@.len() implies (#[trigger] scored@[a]).edit_distance
                <= (#[trigger] scored@[b]).edit_distance by {
                assert(scored@[a] == full[a] && scored@[b] == full[b]);
            }
        }
        scored
    }

    /// Get the definition for a keyword item.
    pub fn get_definition(&self, item: &KeyWordItem) -> (r: Option<String>)
        requires
            self.wf(),
        ensures
            match r {
                Some(d) => exists|blk: int, content: Seq<u8>, raw: Seq<u8>|
                    #[trigger] mdict_base::record_fetch_ok(self.base, *item, blk, content, raw)
                        && d@ == def_text_of(raw, self.base.meta.encoding),
                None => mdict_base::fetch_fails(self.base, *item),
            },
            !mdict_base::fetch_fails(self.base, *item) ==> r is Some,
    {
        let def_bytes = match self.base.lookup_record_by_keyword(item) {
            Ok(b) => b,
            Err(_) => {
                return None;
            },
        };
        Some(decode_definition(&def_bytes, self.base.meta.encoding))
    }

    /// Whether a word exists in the dictionary (by canonical key).
    pub fn contains(&self, word: &str) -> (r: bool)
        requires
            self.wf(),
        ensures
            r == exists|i: int|
                0 <= i < self.base.keyword_list@.len() && self.base.cmp_of(
                    word@,
                    (#[trigger] self.base.keyword_list@[i]).key_text@,
                ) == 0,
    {
        match self.base.lookup_keyword_by_word(word, false) {
            Option::Some(_) => true,
            Option::None => false,
        }
    }

    /// The keywords grouped in the same key block as the nearest entry.
    pub fn associate(&self, word: &str) -> (r: Vec<KeyWordItem>)
        requires
            self.wf(),
        ensures
            assoc_pool_ok(self.base, word@, r@),
            forall|k1: int, k2: int|
                0 <= k1 < r@.len() && 0 <= k2 < r@.len() ==> (#[trigger] r@[k1]).key_block_idx == (
                #[trigger] r@[k2]).key_block_idx,
    {
        self.base.get_associated_keywords(word)
    }

    /// Look a keyword item up by word (block and offset information
    /// included).
    pub fn lookup_keyword(&self, word: &str) -> (r: Option<&KeyWordItem>)
        requires
            self.wf(),
        ensures
            match r {
                Some(item) => exists|i: int|
                    0 <= i < self.base.keyword_list@.len() && self.base.keyword_list@[i] == *item
                        && self.base.cmp_of(word@, item.key_text@) == 0,
                None => forall|i: int|
                    0 <= i < self.base.keyword_list@.len() ==> self.base.cmp_of(
                        word@,
                        (#[trigger] self.base.keyword_list@[i]).key_text@,
                    ) != 0,
            },
    {
        let r = self.base.lookup_keyword_by_word(word, false);
        proof {
            if r is Some {
                let item = r.unwrap();
                let i = choose|i: int|
                    0 <= i < self.base.keyword_list@.len() && self.base.keyword_list@[i] == *item;
                assert(self.base.keyword_list@[i] == *item && self.base.cmp_of(
                    word@,
                    item.key_text@,
                ) == 0);
            }
        }
        r
    }

    /// Fetch the definition for a keyword item, with its key text.
    pub fn fetch(&self, item: &KeyWordItem) -> (r: Option<LookupResult>)
        requires
            self.wf(),
        ensures
            match r {
                Some(lr) => exists|blk: int, content: Seq<u8>, raw: Seq<u8>|
                    #[trigger] mdict_base::record_fetch_ok(self.base, *item, blk, content, raw)
                        && lr.key_text@ == item.key_text@ && lr.definition@ == def_text_of(
                        raw,
                        self.base.meta.encoding,
                    ),
                None => mdict_base::fetch_fails(self.base, *item),
            },
            !mdict_base::fetch_fails(self.base, *item) ==> r is Some,
    {
        let def_bytes = match self.base.lookup_record_by_keyword(item) {
            Ok(b) => b,
            Err(_) => {
                return None;
            },
        };
        let definition = decode_definition(&def_bytes, self.base.meta.encoding);
        Some(LookupResult { key_text: item.key_text.clone(), definition })
    }

    /// All keyword items, in sort order.
    pub fn keyword_list(&self) -> (r: &Vec<KeyWordItem>)
        ensures
            r == &self.base.keyword_list,
    {
        &self.base.keyword_list
    }
}

/// Two fuzzy lists with equal multisets have equal scored-view multisets.
proof fn lemma_scored_view_multiset(a: Seq<FuzzyWord>, b: Seq<FuzzyWord>)
    requires
        a.to_multiset() == b.to_multiset(),
    ensures
        scored_view(a).to_multiset() == scored_view(b).to_multiset(),
    decreases a.len(),
{
    broadcast use vstd::seq_lib::group_to_multiset_ensures;

    if a.len() > 0 {
        let x = a[0];
        vstd::seq_lib::to_multiset_contains(a, x);
        assert(a.to_multiset().count(x) > 0);
        vstd::seq_lib::to_multiset_contains(b, x);
        assert(b.contains(x));
        let j = choose|j: int| 0 <= j < b.len() && b[j] == x;
        let a1 = a.remove(0);
        let b1 = b.remove(j);
        vstd::seq_lib::to_multiset_remove(a, 0);
        vstd::seq_lib::to_multiset_remove(b, j);
        assert(a1.to_multiset() =~= b1.to_multiset()) by {
            broadcast use vstd::multiset::group_multiset_axioms;

            assert(forall|e: FuzzyWord|
                #[trigger] a1.to_multiset().count(e) == b1.to_multiset().count(e));
        }
        lemma_scored_view_multiset(a1, b1);
        assert(scored_view(a) =~= scored_view(a1).insert(0, (x.item, x.edit_distance as nat)));
        assert(scored_view(b) =~= scored_view(b1).insert(j, (x.item, x.edit_distance as nat)));
        vstd::seq_lib::to_multiset_insert(scored_view(a1), 0, (x.item, x.edit_distance as nat));
        vstd::seq_lib::to_multiset_insert(scored_view(b1), j, (x.item, x.edit_distance as nat));
        assert(scored_view(a).to_multiset() =~= scored_view(b).to_multiset());
    } else {
        assert(b.len() == 0) by {
            vstd::seq_lib::to_multiset_len(a);
            vstd::seq_lib::to_multiset_len(b);
        }
        assert(scored_view(a) =~= scored_view(b));
    }
}

} // verus!
