//! The order of the recent list and the ranking of search results.
//!
//! A search looks at keys and tags only. An entry whose lower-cased key starts
//! with the query ranks first, one whose lower-cased key contains it ranks
//! second, and one with a tag that contains it ranks third; entries that match
//! none of these are left out. Within a rank, the most recently updated entry
//! comes first, then the smaller key, then the smaller id. Update times
//! compare by the instant they denote (see `timestamp`); keys and ids compare
//! by their UTF-8 bytes, as `str` does.

use vstd::prelude::*;

use crate::model::EntrySummary;
use crate::timestamp::{
    instant_of, is_later, later, lemma_later_is_later_instant, lemma_later_strict,
    lemma_later_total, lemma_later_transitive, lemma_same_time_congruent, same_time,
};
use crate::text::{
    bytes_contains, bytes_less, bytes_lt, bytes_starts_with, lemma_bytes_lt_asymmetric,
    lemma_bytes_lt_irreflexive, lemma_bytes_lt_total, lemma_bytes_lt_transitive, lowercase_of,
    lemma_str_prefix_is_contained, str_contains, str_starts_with, to_lowercase, trim, trimmed, utf8,
};

verus! {

// ---------------------------------------------------------------------------
// Recent order
// ---------------------------------------------------------------------------

/// `a` was updated strictly later than `b`: its update time denotes a later
/// instant.
pub open spec fn more_recent(a: EntrySummary, b: EntrySummary) -> bool {
    later(a.updated_at@, b.updated_at@)
}

/// `a` and `b` were updated at the same instant.
pub open spec fn same_update_time(a: EntrySummary, b: EntrySummary) -> bool {
    same_time(a.updated_at@, b.updated_at@)
}

/// In the recent list, the entry at position `i` of `entries` comes before
/// the one at `j`: it is more recent, or equally recent and earlier in
/// `entries`.
pub open spec fn recent_precedes(entries: Seq<EntrySummary>, i: int, j: int) -> bool {
    ||| more_recent(entries[i], entries[j])
    ||| same_update_time(entries[i], entries[j]) && i < j
}

/// `out` lists `entries`, each once, by `perm`: `out[k]` is `entries[perm[k]]`.
pub open spec fn lists_by(
    entries: Seq<EntrySummary>,
    out: Seq<EntrySummary>,
    perm: Seq<int>,
) -> bool {
    &&& perm.len() == out.len()
    &&& forall|k: int|
        0 <= k < perm.len() ==> 0 <= #[trigger] perm[k] < entries.len() && out[k]
            == entries[perm[k]]
}

/// `out` holds every entry of `entries`, most recently updated first; entries
/// with the same update time keep their order.
pub open spec fn is_recent_list(entries: Seq<EntrySummary>, out: Seq<EntrySummary>) -> bool {
    exists|perm: Seq<int>|
        {
            &&& lists_by(entries, out, perm)
            &&& forall|i: int| 0 <= i < entries.len() ==> #[trigger] perm.contains(i)
            &&& forall|k: int, l: int|
                0 <= k < l < perm.len() ==> recent_precedes(
                    entries,
                    #[trigger] perm[k],
                    #[trigger] perm[l],
                )
        }
}

// ---------------------------------------------------------------------------
// Search ranking
// ---------------------------------------------------------------------------

/// The query as a search uses it: trimmed, then lower-cased.
pub open spec fn normalized_query(query: Seq<char>) -> Seq<char> {
    lowercase_of(trimmed(query))
}

/// Some tag of `tags` contains `q`.
pub open spec fn tags_contain(tags: Seq<Seq<char>>, q: Seq<char>) -> bool {
    exists|t: int| 0 <= t < tags.len() && str_contains(#[trigger] tags[t], q)
}

/// The rank of `e` for the normalised query `q`: 0 when its lower-cased key
/// starts with `q`, else 1 when its lower-cased key contains `q`, else 2 when
/// one of its tags contains `q`; none when nothing matches.
pub open spec fn match_class(e: EntrySummary, q: Seq<char>) -> Option<int> {
    let key = lowercase_of(e.key@);
    if str_starts_with(key, q) {
        Some(0)
    } else if str_contains(key, q) {
        Some(1)
    } else if tags_contain(e.tags.deep_view(), q) {
        Some(2)
    } else {
        None
    }
}

/// `a` (of rank `ca`) ranks strictly before `b` (of rank `cb`): a lower
/// rank; or the same rank and a later update; or those equal and a smaller
/// key; or those equal and a smaller id.
pub open spec fn ranks_before(ca: int, a: EntrySummary, cb: int, b: EntrySummary) -> bool {
    let (ka, kb) = (utf8(a.key@), utf8(b.key@));
    let (ia, ib) = (utf8(a.id@), utf8(b.id@));
    ||| ca < cb
    ||| ca == cb && more_recent(a, b)
    ||| ca == cb && same_update_time(a, b) && bytes_lt(ka, kb)
    ||| ca == cb && same_update_time(a, b) && ka == kb && bytes_lt(ia, ib)
}

/// `a` and `b` agree in rank, update time, key and id.
pub open spec fn ranks_tied(ca: int, a: EntrySummary, cb: int, b: EntrySummary) -> bool {
    &&& ca == cb
    &&& same_update_time(a, b)
    &&& utf8(a.key@) == utf8(b.key@)
    &&& utf8(a.id@) == utf8(b.id@)
}

/// Among the results for `q`, the entry at position `i` of `entries` comes
/// before the one at `j`: it ranks before it, or they tie and it is earlier
/// in `entries`.
pub open spec fn search_precedes(entries: Seq<EntrySummary>, q: Seq<char>, i: int, j: int) -> bool {
    let ci = match_class(entries[i], q)->0;
    let cj = match_class(entries[j], q)->0;
    ||| ranks_before(ci, entries[i], cj, entries[j])
    ||| ranks_tied(ci, entries[i], cj, entries[j]) && i < j
}

/// `out` holds exactly the entries of `entries` that match `q`, in rank
/// order; tied entries keep their order.
pub open spec fn is_search_result(
    entries: Seq<EntrySummary>,
    q: Seq<char>,
    out: Seq<EntrySummary>,
) -> bool {
    exists|perm: Seq<int>|
        {
            &&& lists_by(entries, out, perm)
            &&& forall|k: int|
                0 <= k < perm.len() ==> (#[trigger] match_class(entries[perm[k]], q)) is Some
            &&& forall|i: int|
                0 <= i < entries.len() && (#[trigger] match_class(entries[i], q)) is Some
                    ==> perm.contains(i)
            &&& forall|k: int, l: int|
                0 <= k < l < perm.len() ==> search_precedes(
                    entries,
                    q,
                    #[trigger] perm[k],
                    #[trigger] perm[l],
                )
        }
}

/// What a search for `query` over `entries` gives: the recent list when the
/// query is blank, else the ranked entries that match the trimmed,
/// lower-cased query.
pub open spec fn is_search_outcome(
    entries: Seq<EntrySummary>,
    query: Seq<char>,
    out: Seq<EntrySummary>,
) -> bool {
    if trimmed(query).len() == 0 {
        is_recent_list(entries, out)
    } else {
        is_search_result(entries, normalized_query(query), out)
    }
}

// ---------------------------------------------------------------------------
// Order lemmas
// ---------------------------------------------------------------------------

/// Ranking before is transitive.
pub proof fn lemma_ranks_before_transitive(
    ca: int,
    a: EntrySummary,
    cb: int,
    b: EntrySummary,
    cc: int,
    c: EntrySummary,
)
    requires
        ranks_before(ca, a, cb, b),
        ranks_before(cb, b, cc, c),
    ensures
        ranks_before(ca, a, cc, c),
{
    let (ua, ub, uc) = (a.updated_at@, b.updated_at@, c.updated_at@);
    let (ka, kb, kc) = (utf8(a.key@), utf8(b.key@), utf8(c.key@));
    let (ia, ib, ic) = (utf8(a.id@), utf8(b.id@), utf8(c.id@));
    if later(ua, ub) && later(ub, uc) {
        lemma_later_transitive(ua, ub, uc);
    }
    if same_time(ua, ub) {
        lemma_same_time_congruent(ua, ub, uc);
    }
    if same_time(ub, uc) {
        lemma_same_time_congruent(ub, uc, ua);
        lemma_same_time_congruent(uc, ub, ua);
    }
    if bytes_lt(ka, kb) && bytes_lt(kb, kc) {
        lemma_bytes_lt_transitive(ka, kb, kc);
    }
    if bytes_lt(ia, ib) && bytes_lt(ib, ic) {
        lemma_bytes_lt_transitive(ia, ib, ic);
    }
}

/// Of two entries, one ranks before the other or they tie.
pub proof fn lemma_ranks_total(ca: int, a: EntrySummary, cb: int, b: EntrySummary)
    ensures
        ranks_before(ca, a, cb, b) || ranks_before(cb, b, ca, a) || ranks_tied(ca, a, cb, b),
{
    lemma_later_total(a.updated_at@, b.updated_at@);
    lemma_later_strict(a.updated_at@, b.updated_at@);
    lemma_bytes_lt_total(utf8(a.key@), utf8(b.key@));
    lemma_bytes_lt_total(utf8(a.id@), utf8(b.id@));
}

/// Ranking before excludes the reverse and a tie.
pub proof fn lemma_ranks_strict(ca: int, a: EntrySummary, cb: int, b: EntrySummary)
    ensures
        ranks_before(ca, a, cb, b) ==> !ranks_before(cb, b, ca, a) && !ranks_tied(ca, a, cb, b),
{
    lemma_later_strict(a.updated_at@, b.updated_at@);
    lemma_later_strict(b.updated_at@, a.updated_at@);
    lemma_bytes_lt_asymmetric(utf8(a.key@), utf8(b.key@));
    lemma_bytes_lt_asymmetric(utf8(a.id@), utf8(b.id@));
    lemma_bytes_lt_irreflexive(utf8(a.key@));
    lemma_bytes_lt_irreflexive(utf8(a.id@));
}

/// Entries that tie stand in the same ranking relations to every entry.
pub proof fn lemma_ranks_tied_congruent(
    ca: int,
    a: EntrySummary,
    cb: int,
    b: EntrySummary,
    cc: int,
    c: EntrySummary,
)
    requires
        ranks_tied(ca, a, cb, b),
    ensures
        ranks_tied(cb, b, ca, a),
        ranks_before(ca, a, cc, c) == ranks_before(cb, b, cc, c),
        ranks_before(cc, c, ca, a) == ranks_before(cc, c, cb, b),
        ranks_tied(ca, a, cc, c) == ranks_tied(cb, b, cc, c),
        ranks_tied(cc, c, ca, a) == ranks_tied(cc, c, cb, b),
{
    lemma_same_time_congruent(a.updated_at@, b.updated_at@, c.updated_at@);
}

/// The order of search results is transitive.
pub proof fn lemma_search_precedes_transitive(
    entries: Seq<EntrySummary>,
    q: Seq<char>,
    i: int,
    j: int,
    k: int,
)
    requires
        search_precedes(entries, q, i, j),
        search_precedes(entries, q, j, k),
    ensures
        search_precedes(entries, q, i, k),
{
    let ci = match_class(entries[i], q)->0;
    let cj = match_class(entries[j], q)->0;
    let ck = match_class(entries[k], q)->0;
    if ranks_before(ci, entries[i], cj, entries[j]) && ranks_before(cj, entries[j], ck, entries[k]) {
        lemma_ranks_before_transitive(ci, entries[i], cj, entries[j], ck, entries[k]);
    }
    if ranks_tied(ci, entries[i], cj, entries[j]) {
        lemma_ranks_tied_congruent(ci, entries[i], cj, entries[j], ck, entries[k]);
    }
    if ranks_tied(cj, entries[j], ck, entries[k]) {
        lemma_ranks_tied_congruent(cj, entries[j], ck, entries[k], ci, entries[i]);
        lemma_ranks_tied_congruent(ck, entries[k], cj, entries[j], ci, entries[i]);
    }
}

/// Recent order is transitive.
pub proof fn lemma_recent_precedes_transitive(entries: Seq<EntrySummary>, i: int, j: int, k: int)
    requires
        recent_precedes(entries, i, j),
        recent_precedes(entries, j, k),
    ensures
        recent_precedes(entries, i, k),
{
    let (ui, uj, uk) = (entries[i].updated_at@, entries[j].updated_at@, entries[k].updated_at@);
    if later(ui, uj) && later(uj, uk) {
        lemma_later_transitive(ui, uj, uk);
    }
    if same_time(ui, uj) {
        lemma_same_time_congruent(ui, uj, uk);
    }
    if same_time(uj, uk) {
        lemma_same_time_congruent(uj, uk, ui);
        lemma_same_time_congruent(uk, uj, ui);
    }
}

// ---------------------------------------------------------------------------
// Recent list
// ---------------------------------------------------------------------------

/// Whether `a` was updated strictly later than `b`.
fn is_more_recent(a: &EntrySummary, b: &EntrySummary) -> (r: bool)
    ensures
        r == more_recent(*a, *b),
{
    is_later(a.updated_at.as_str(), b.updated_at.as_str())
}

/// The recent list: the given entries, most recently updated first. Entries
/// with the same update time keep their order.
pub fn get_recent_entries(entries: Vec<EntrySummary>) -> (out: Vec<EntrySummary>)
    ensures
        is_recent_list(entries@, out@),
{
    let ghost src = entries@;
    let n = entries.len();
    let mut rest = entries;
    let mut sorted: Vec<EntrySummary> = Vec::new();
    let ghost mut perm: Seq<int> = Seq::empty();
    assert(src.skip(0) =~= src);
    for i in 0..n
        invariant
            n == src.len(),
            rest@ == src.skip(i as int),
            lists_by(src, sorted@, perm),
            forall|k: int| 0 <= k < perm.len() ==> #[trigger] perm[k] < i,
            forall|j: int| 0 <= j < i ==> #[trigger] perm.contains(j),
            forall|k: int, l: int|
                0 <= k < l < perm.len() ==> recent_precedes(src, #[trigger] perm[k], #[trigger] perm[l]),
    {
        let entry = rest.remove(0);
        assert(src.skip(i as int).remove(0) =~= src.skip(i + 1));
        assert(entry == src[i as int]);
        let mut p: usize = 0;
        while p < sorted.len() && !is_more_recent(&entry, &sorted[p])
            invariant
                0 <= p <= sorted.len(),
                entry == src[i as int],
                lists_by(src, sorted@, perm),
                forall|k: int| 0 <= k < p ==> !more_recent(entry, #[trigger] sorted@[k]),
            decreases sorted.len() - p,
        {
            p = p + 1;
        }
        let ghost old_perm = perm;
        let ghost old_sorted = sorted@;
        sorted.insert(p, entry);
        proof {
            perm = old_perm.insert(p as int, i as int);
            let ii = i as int;
            let pp = p as int;
            assert forall|k: int| 0 <= k < perm.len() implies 0 <= #[trigger] perm[k] < src.len()
                && sorted@[k] == src[perm[k]] by {
                if k < pp {
                    assert(perm[k] == old_perm[k]);
                } else if k > pp {
                    assert(perm[k] == old_perm[k - 1]);
                }
            }
            assert forall|k: int| 0 <= k < perm.len() implies #[trigger] perm[k] < i + 1 by {
                if k < pp {
                    assert(perm[k] == old_perm[k]);
                } else if k > pp {
                    assert(perm[k] == old_perm[k - 1]);
                }
            }
            assert forall|j: int| 0 <= j < i + 1 implies #[trigger] perm.contains(j) by {
                if j == ii {
                    assert(perm[pp] == ii);
                } else {
                    assert(old_perm.contains(j));
                    let k = choose|k: int| 0 <= k < old_perm.len() && old_perm[k] == j;
                    if k < pp {
                        assert(perm[k] == j);
                    } else {
                        assert(perm[k + 1] == j);
                    }
                }
            }
            assert forall|k: int, l: int| 0 <= k < l < perm.len() implies recent_precedes(
                src,
                #[trigger] perm[k],
                #[trigger] perm[l],
            ) by {
                if l < pp {
                    assert(perm[k] == old_perm[k] && perm[l] == old_perm[l]);
                } else if k > pp {
                    assert(perm[k] == old_perm[k - 1] && perm[l] == old_perm[l - 1]);
                } else if k < pp && l > pp {
                    assert(perm[k] == old_perm[k] && perm[l] == old_perm[l - 1]);
                } else if l == pp {
                    assert(perm[k] == old_perm[k]);
                    assert(!more_recent(entry, old_sorted[k]));
                    assert(old_sorted[k] == src[old_perm[k]]);
                    lemma_later_total(src[old_perm[k]].updated_at@, src[ii].updated_at@);
                    lemma_later_strict(src[ii].updated_at@, src[old_perm[k]].updated_at@);
                } else {
                    // k == pp, l > pp
                    assert(perm[l] == old_perm[l - 1]);
                    assert(more_recent(entry, old_sorted[pp]));
                    assert(old_sorted[pp] == src[old_perm[pp]]);
                    assert(recent_precedes(src, ii, old_perm[pp]));
                    if l - 1 > pp {
                        assert(recent_precedes(src, old_perm[pp], old_perm[l - 1]));
                        lemma_recent_precedes_transitive(src, ii, old_perm[pp], old_perm[l - 1]);
                    }
                }
            }
        }
    }
    proof {
        assert(is_recent_list(src, sorted@)) by {
            assert forall|i: int| 0 <= i < src.len() implies #[trigger] perm.contains(i) by {}
        }
    }
    sorted
}

// ---------------------------------------------------------------------------
// Search
// ---------------------------------------------------------------------------

/// An entry that matched a search, with its rank.
struct RankedSummary {
    class: u8,
    entry: EntrySummary,
}

/// The rank of `entry` for the normalised query `q`, or none when it does not
/// match.
fn match_class_of(entry: &EntrySummary, q: &String) -> (r: Option<u8>)
    ensures
        match r {
            Some(c) => match_class(*entry, q@) == Some(c as int),
            None => match_class(*entry, q@) is None,
        },
{
    let key_lower = to_lowercase(entry.key.as_str());
    let key_bytes = key_lower.as_str().as_bytes();
    let query_bytes = q.as_str().as_bytes();
    if bytes_starts_with(key_bytes, query_bytes) {
        return Some(0);
    }
    if bytes_contains(key_bytes, query_bytes) {
        return Some(1);
    }
    let mut t: usize = 0;
    while t < entry.tags.len()
        invariant
            0 <= t <= entry.tags.len(),
            query_bytes@ == utf8(q@),
            !str_starts_with(lowercase_of(entry.key@), q@),
            !str_contains(lowercase_of(entry.key@), q@),
            forall|m: int| 0 <= m < t ==> !str_contains(#[trigger] entry.tags.deep_view()[m], q@),
        decreases entry.tags.len() - t,
    {
        if bytes_contains(entry.tags[t].as_str().as_bytes(), query_bytes) {
            assert(str_contains(entry.tags.deep_view()[t as int], q@));
            return Some(2);
        }
        t = t + 1;
    }
    None
}

/// Whether `a` ranks strictly before `b`.
fn ranks_less(a: &RankedSummary, b: &RankedSummary) -> (r: bool)
    ensures
        r == ranks_before(a.class as int, a.entry, b.class as int, b.entry),
{
    if a.class != b.class {
        return a.class < b.class;
    }
    let ua = a.entry.updated_at.as_str();
    let ub = b.entry.updated_at.as_str();
    if is_later(ua, ub) {
        return true;
    }
    if is_later(ub, ua) {
        proof {
            lemma_later_strict(ub@, ua@);
        }
        return false;
    }
    proof {
        lemma_later_total(ua@, ub@);
    }
    let ka = a.entry.key.as_str().as_bytes();
    let kb = b.entry.key.as_str().as_bytes();
    if bytes_less(ka, kb) {
        return true;
    }
    if bytes_less(kb, ka) {
        proof {
            lemma_bytes_lt_asymmetric(ka@, kb@);
            lemma_bytes_lt_irreflexive(ka@);
        }
        return false;
    }
    proof {
        lemma_bytes_lt_total(ka@, kb@);
    }
    bytes_less(a.entry.id.as_str().as_bytes(), b.entry.id.as_str().as_bytes())
}

/// Inserting entry `ii`, which comes after every entry already placed and
/// ranks before none of the first `pp` of them but before the one at `pp`,
/// at position `pp` keeps the placed entries in search order.
proof fn lemma_insert_keeps_search_order(
    src: Seq<EntrySummary>,
    qv: Seq<char>,
    old_perm: Seq<int>,
    old_ranked: Seq<RankedSummary>,
    it: RankedSummary,
    ii: int,
    pp: int,
)
    requires
        0 <= pp <= old_perm.len(),
        old_perm.len() == old_ranked.len(),
        forall|k: int|
            0 <= k < old_perm.len() ==> 0 <= #[trigger] old_perm[k] < ii && old_ranked[k].entry
                == src[old_perm[k]] && match_class(src[old_perm[k]], qv) == Some(
                old_ranked[k].class as int,
            ),
        forall|k: int, l: int|
            0 <= k < l < old_perm.len() ==> search_precedes(
                src,
                qv,
                #[trigger] old_perm[k],
                #[trigger] old_perm[l],
            ),
        it.entry == src[ii],
        match_class(src[ii], qv) == Some(it.class as int),
        forall|k: int|
            0 <= k < pp ==> !ranks_before(
                it.class as int,
                it.entry,
                (#[trigger] old_ranked[k]).class as int,
                old_ranked[k].entry,
            ),
        pp < old_ranked.len() ==> ranks_before(
            it.class as int,
            it.entry,
            old_ranked[pp].class as int,
            old_ranked[pp].entry,
        ),
    ensures
        forall|k: int, l: int|
            0 <= k < l < old_perm.len() + 1 ==> search_precedes(
                src,
                qv,
                #[trigger] old_perm.insert(pp, ii)[k],
                #[trigger] old_perm.insert(pp, ii)[l],
            ),
{
    let perm = old_perm.insert(pp, ii);
    assert forall|k: int, l: int| 0 <= k < l < perm.len() implies search_precedes(
        src,
        qv,
        #[trigger] perm[k],
        #[trigger] perm[l],
    ) by {
        if l < pp {
            assert(perm[k] == old_perm[k] && perm[l] == old_perm[l]);
        } else if k > pp {
            assert(perm[k] == old_perm[k - 1] && perm[l] == old_perm[l - 1]);
        } else if k < pp && l > pp {
            assert(perm[k] == old_perm[k] && perm[l] == old_perm[l - 1]);
        } else if l == pp {
            let other = old_ranked[k];
            assert(perm[k] == old_perm[k]);
            assert(!ranks_before(it.class as int, it.entry, other.class as int, other.entry));
            lemma_ranks_total(it.class as int, it.entry, other.class as int, other.entry);
            lemma_later_strict(it.entry.updated_at@, other.entry.updated_at@);
        } else {
            let first = old_ranked[pp];
            assert(perm[l] == old_perm[l - 1]);
            assert(ranks_before(it.class as int, it.entry, first.class as int, first.entry));
            assert(search_precedes(src, qv, ii, old_perm[pp]));
            if l - 1 > pp {
                assert(search_precedes(src, qv, old_perm[pp], old_perm[l - 1]));
                lemma_search_precedes_transitive(src, qv, ii, old_perm[pp], old_perm[l - 1]);
            }
        }
    }
}

/// The entries whose key or tags match `query`, best first.
///
/// The query is trimmed and lower-cased; when nothing is left, the result is
/// the recent list. Otherwise an entry whose lower-cased key starts with the
/// query ranks first, one whose lower-cased key contains it second, one with
/// a tag that contains it third, and other entries are left out. Within a
/// rank the most recently updated entry comes first, then the smaller key,
/// then the smaller id.
pub fn search_entries(entries: Vec<EntrySummary>, query: &str) -> (out: Vec<EntrySummary>)
    ensures
        is_search_outcome(entries@, query@, out@),
{
    let trimmed_query = trim(query);
    let q = to_lowercase(trimmed_query.as_str());
    if q.as_str().is_empty() {
        return get_recent_entries(entries);
    }
    let ghost src = entries@;
    let ghost qv = q@;
    let n = entries.len();
    let mut rest = entries;
    let mut ranked: Vec<RankedSummary> = Vec::new();
    let ghost mut perm: Seq<int> = Seq::empty();
    assert(src.skip(0) =~= src);
    for i in 0..n
        invariant
            n == src.len(),
            qv == q@,
            rest@ == src.skip(i as int),
            perm.len() == ranked@.len(),
            forall|k: int|
                0 <= k < perm.len() ==> 0 <= #[trigger] perm[k] < i && ranked@[k].entry
                    == src[perm[k]] && match_class(src[perm[k]], qv) == Some(
                    ranked@[k].class as int,
                ),
            forall|j: int|
                0 <= j < i && (#[trigger] match_class(src[j], qv)) is Some ==> perm.contains(j),
            forall|k: int, l: int|
                0 <= k < l < perm.len() ==> search_precedes(
                    src,
                    qv,
                    #[trigger] perm[k],
                    #[trigger] perm[l],
                ),
    {
        let entry = rest.remove(0);
        assert(src.skip(i as int).remove(0) =~= src.skip(i + 1));
        assert(entry == src[i as int]);
        match match_class_of(&entry, &q) {
            None => {},
            Some(class) => {
                let item = RankedSummary { class, entry };
                let mut p: usize = 0;
                while p < ranked.len() && !ranks_less(&item, &ranked[p])
                    invariant
                        0 <= p <= ranked@.len(),
                        forall|k: int|
                            0 <= k < p ==> !ranks_before(
                                item.class as int,
                                item.entry,
                                (#[trigger] ranked@[k]).class as int,
                                ranked@[k].entry,
                            ),
                    decreases ranked.len() - p,
                {
                    p = p + 1;
                }
                let ghost old_perm = perm;
                let ghost old_ranked = ranked@;
                let ghost it = item;
                ranked.insert(p, item);
                proof {
                    perm = old_perm.insert(p as int, i as int);
                    let ii = i as int;
                    let pp = p as int;
                    assert(it.entry == src[ii]);
                    assert(match_class(src[ii], qv) == Some(it.class as int));
                    assert forall|k: int| 0 <= k < perm.len() implies 0 <= #[trigger] perm[k] < i
                        + 1 && ranked@[k].entry == src[perm[k]] && match_class(src[perm[k]], qv)
                        == Some(ranked@[k].class as int) by {
                        if k < pp {
                            assert(perm[k] == old_perm[k] && ranked@[k] == old_ranked[k]);
                        } else if k > pp {
                            assert(perm[k] == old_perm[k - 1] && ranked@[k] == old_ranked[k - 1]);
                        }
                    }
                    assert forall|j: int|
                        0 <= j < i + 1 && (#[trigger] match_class(src[j], qv)) is Some implies perm.contains(
                        j,
                    ) by {
                        if j == ii {
                            assert(perm[pp] == ii);
                        } else {
                            assert(old_perm.contains(j));
                            let k = choose|k: int| 0 <= k < old_perm.len() && old_perm[k] == j;
                            if k < pp {
                                assert(perm[k] == j);
                            } else {
                                assert(perm[k + 1] == j);
                            }
                        }
                    }
                    lemma_insert_keeps_search_order(src, qv, old_perm, old_ranked, it, ii, pp);
                }
            },
        }
    }
    let ghost ranked_final = ranked@;
    let mut out: Vec<EntrySummary> = Vec::new();
    let m = ranked.len();
    for k in 0..m
        invariant
            m == ranked_final.len(),
            ranked@ == ranked_final.skip(k as int),
            out@.len() == k,
            forall|x: int| 0 <= x < k ==> out@[x] == (#[trigger] ranked_final[x]).entry,
    {
        let item = ranked.remove(0);
        assert(ranked_final.skip(k as int).remove(0) =~= ranked_final.skip(k + 1));
        out.push(item.entry);
    }
    proof {
        assert(lists_by(src, out@, perm));
        assert forall|k: int| 0 <= k < perm.len() implies (#[trigger] match_class(
            src[perm[k]],
            qv,
        )) is Some by {}
    }
    out
}

// ---------------------------------------------------------------------------
// Laws
// ---------------------------------------------------------------------------

/// The order of search results never holds both ways.
pub proof fn lemma_search_precedes_asymmetric(entries: Seq<EntrySummary>, q: Seq<char>, i: int, j: int)
    ensures
        search_precedes(entries, q, i, j) ==> !search_precedes(entries, q, j, i),
{
    let ci = match_class(entries[i], q)->0;
    let cj = match_class(entries[j], q)->0;
    lemma_later_strict(entries[i].updated_at@, entries[j].updated_at@);
    lemma_ranks_strict(ci, entries[i], cj, entries[j]);
    lemma_ranks_strict(cj, entries[j], ci, entries[i]);
}

/// Recent order never holds both ways.
pub proof fn lemma_recent_precedes_asymmetric(entries: Seq<EntrySummary>, i: int, j: int)
    ensures
        recent_precedes(entries, i, j) ==> !recent_precedes(entries, j, i),
{
    lemma_later_strict(entries[i].updated_at@, entries[j].updated_at@);
    lemma_later_strict(entries[j].updated_at@, entries[i].updated_at@);
}

/// A search has one result: two lists that are both the result of searching
/// `entries` for `q` are the same list.
pub proof fn lemma_search_result_unique(
    entries: Seq<EntrySummary>,
    q: Seq<char>,
    out1: Seq<EntrySummary>,
    out2: Seq<EntrySummary>,
)
    requires
        is_search_result(entries, q, out1),
        is_search_result(entries, q, out2),
    ensures
        out1 == out2,
{
    let p1 = choose|perm: Seq<int>|
        {
            &&& lists_by(entries, out1, perm)
            &&& forall|k: int|
                0 <= k < perm.len() ==> (#[trigger] match_class(entries[perm[k]], q)) is Some
            &&& forall|i: int|
                0 <= i < entries.len() && (#[trigger] match_class(entries[i], q)) is Some
                    ==> perm.contains(i)
            &&& forall|k: int, l: int|
                0 <= k < l < perm.len() ==> search_precedes(
                    entries,
                    q,
                    #[trigger] perm[k],
                    #[trigger] perm[l],
                )
        };
    let p2 = choose|perm: Seq<int>|
        {
            &&& lists_by(entries, out2, perm)
            &&& forall|k: int|
                0 <= k < perm.len() ==> (#[trigger] match_class(entries[perm[k]], q)) is Some
            &&& forall|i: int|
                0 <= i < entries.len() && (#[trigger] match_class(entries[i], q)) is Some
                    ==> perm.contains(i)
            &&& forall|k: int, l: int|
                0 <= k < l < perm.len() ==> search_precedes(
                    entries,
                    q,
                    #[trigger] perm[k],
                    #[trigger] perm[l],
                )
        };
    let prec = |i: int, j: int| search_precedes(entries, q, i, j);
    assert forall|a: int, b: int| #[trigger] prec(a, b) implies !prec(b, a) by {
        lemma_search_precedes_asymmetric(entries, q, a, b);
    }
    assert forall|x: int| p1.contains(x) <==> p2.contains(x) by {
        if p1.contains(x) {
            let k = choose|k: int| 0 <= k < p1.len() && p1[k] == x;
            assert(match_class(entries[p1[k]], q) is Some);
        }
        if p2.contains(x) {
            let k = choose|k: int| 0 <= k < p2.len() && p2[k] == x;
            assert(match_class(entries[p2[k]], q) is Some);
        }
    }
    assert(crate::order::strictly_sorted_by(p1, prec));
    assert(crate::order::strictly_sorted_by(p2, prec));
    crate::order::lemma_sorted_arrangement_unique(p1, p2, prec);
    assert(out1.len() == out2.len());
    assert forall|k: int| 0 <= k < out1.len() implies out1[k] == out2[k] by {
        assert(out1[k] == entries[p1[k]]);
        assert(out2[k] == entries[p2[k]]);
    }
    assert(out1 =~= out2);
}

/// The recent list of some entries is one list: two lists that both are it
/// are the same list.
pub proof fn lemma_recent_list_unique(
    entries: Seq<EntrySummary>,
    out1: Seq<EntrySummary>,
    out2: Seq<EntrySummary>,
)
    requires
        is_recent_list(entries, out1),
        is_recent_list(entries, out2),
    ensures
        out1 == out2,
{
    let p1 = choose|perm: Seq<int>|
        {
            &&& lists_by(entries, out1, perm)
            &&& forall|i: int| 0 <= i < entries.len() ==> #[trigger] perm.contains(i)
            &&& forall|k: int, l: int|
                0 <= k < l < perm.len() ==> recent_precedes(
                    entries,
                    #[trigger] perm[k],
                    #[trigger] perm[l],
                )
        };
    let p2 = choose|perm: Seq<int>|
        {
            &&& lists_by(entries, out2, perm)
            &&& forall|i: int| 0 <= i < entries.len() ==> #[trigger] perm.contains(i)
            &&& forall|k: int, l: int|
                0 <= k < l < perm.len() ==> recent_precedes(
                    entries,
                    #[trigger] perm[k],
                    #[trigger] perm[l],
                )
        };
    let prec = |i: int, j: int| recent_precedes(entries, i, j);
    assert forall|a: int, b: int| #[trigger] prec(a, b) implies !prec(b, a) by {
        lemma_recent_precedes_asymmetric(entries, a, b);
    }
    assert forall|x: int| p1.contains(x) <==> p2.contains(x) by {
        if p1.contains(x) {
            let k = choose|k: int| 0 <= k < p1.len() && p1[k] == x;
            assert(0 <= p1[k] < entries.len());
        }
        if p2.contains(x) {
            let k = choose|k: int| 0 <= k < p2.len() && p2[k] == x;
            assert(0 <= p2[k] < entries.len());
        }
    }
    assert(crate::order::strictly_sorted_by(p1, prec));
    assert(crate::order::strictly_sorted_by(p2, prec));
    crate::order::lemma_sorted_arrangement_unique(p1, p2, prec);
    assert(out1.len() == out2.len());
    assert forall|k: int| 0 <= k < out1.len() implies out1[k] == out2[k] by {
        assert(out1[k] == entries[p1[k]]);
        assert(out2[k] == entries[p2[k]]);
    }
    assert(out1 =~= out2);
}

/// What a search result shows: only entries that match, every entry that
/// matches, key-prefix matches before key-substring matches before tag
/// matches, and within one rank no entry before a more recently updated one.
pub proof fn lemma_search_result_ranking(
    entries: Seq<EntrySummary>,
    q: Seq<char>,
    out: Seq<EntrySummary>,
)
    requires
        is_search_result(entries, q, out),
    ensures
        forall|k: int| 0 <= k < out.len() ==> (#[trigger] match_class(out[k], q)) is Some,
        forall|i: int|
            0 <= i < entries.len() && (#[trigger] match_class(entries[i], q)) is Some
                ==> out.contains(entries[i]),
        forall|k: int, l: int|
            0 <= k < l < out.len() ==> match_class(#[trigger] out[k], q)->0 <= match_class(
                #[trigger] out[l],
                q,
            )->0,
        forall|k: int, l: int|
            0 <= k < l < out.len() && match_class(#[trigger] out[k], q) == match_class(
                #[trigger] out[l],
                q,
            ) ==> !more_recent(out[l], out[k]),
{
    let perm = choose|perm: Seq<int>|
        {
            &&& lists_by(entries, out, perm)
            &&& forall|k: int|
                0 <= k < perm.len() ==> (#[trigger] match_class(entries[perm[k]], q)) is Some
            &&& forall|i: int|
                0 <= i < entries.len() && (#[trigger] match_class(entries[i], q)) is Some
                    ==> perm.contains(i)
            &&& forall|k: int, l: int|
                0 <= k < l < perm.len() ==> search_precedes(
                    entries,
                    q,
                    #[trigger] perm[k],
                    #[trigger] perm[l],
                )
        };
    assert forall|k: int| 0 <= k < out.len() implies (#[trigger] match_class(out[k], q)) is Some by {
        assert(out[k] == entries[perm[k]]);
    }
    assert forall|i: int|
        0 <= i < entries.len() && (#[trigger] match_class(entries[i], q)) is Some implies out.contains(
        entries[i],
    ) by {
        let k = choose|k: int| 0 <= k < perm.len() && perm[k] == i;
        assert(out[k] == entries[i]);
    }
    assert forall|k: int, l: int| 0 <= k < l < out.len() implies match_class(
        #[trigger] out[k],
        q,
    )->0 <= match_class(#[trigger] out[l], q)->0 && (match_class(out[k], q) == match_class(
        out[l],
        q,
    ) ==> !more_recent(out[l], out[k])) by {
        assert(out[k] == entries[perm[k]] && out[l] == entries[perm[l]]);
        assert(search_precedes(entries, q, perm[k], perm[l]));
        lemma_later_strict(out[k].updated_at@, out[l].updated_at@);
        lemma_later_strict(out[l].updated_at@, out[k].updated_at@);
    }
}

/// What the recent list shows: every entry, and none before a more recently
/// updated one.
pub proof fn lemma_recent_list_newest_first(entries: Seq<EntrySummary>, out: Seq<EntrySummary>)
    requires
        is_recent_list(entries, out),
    ensures
        forall|i: int| 0 <= i < entries.len() ==> out.contains(#[trigger] entries[i]),
        forall|k: int, l: int|
            0 <= k < l < out.len() ==> !more_recent(#[trigger] out[l], #[trigger] out[k]),
{
    let perm = choose|perm: Seq<int>|
        {
            &&& lists_by(entries, out, perm)
            &&& forall|i: int| 0 <= i < entries.len() ==> #[trigger] perm.contains(i)
            &&& forall|k: int, l: int|
                0 <= k < l < perm.len() ==> recent_precedes(
                    entries,
                    #[trigger] perm[k],
                    #[trigger] perm[l],
                )
        };
    assert forall|i: int| 0 <= i < entries.len() implies out.contains(#[trigger] entries[i]) by {
        assert(perm.contains(i));
        let k = choose|k: int| 0 <= k < perm.len() && perm[k] == i;
        assert(out[k] == entries[i]);
    }
    assert forall|k: int, l: int| 0 <= k < l < out.len() implies !more_recent(
        #[trigger] out[l],
        #[trigger] out[k],
    ) by {
        assert(out[k] == entries[perm[k]] && out[l] == entries[perm[l]]);
        assert(recent_precedes(entries, perm[k], perm[l]));
        lemma_later_strict(out[k].updated_at@, out[l].updated_at@);
        lemma_later_strict(out[l].updated_at@, out[k].updated_at@);
    }
}

/// The rank of an entry for a query follows from its lower-cased key and its
/// tags: rank 0 when the lower-cased key starts with the query, rank 1 when
/// it contains the query without starting with it, rank 2 when it does not
/// contain the query but a tag does, and no rank otherwise.
pub proof fn lemma_match_class_rules(e: EntrySummary, q: Seq<char>)
    ensures
        str_starts_with(lowercase_of(e.key@), q) ==> match_class(e, q) == Some(0int),
        !str_starts_with(lowercase_of(e.key@), q) && str_contains(lowercase_of(e.key@), q)
            ==> match_class(e, q) == Some(1int),
        !str_contains(lowercase_of(e.key@), q) && (exists|t: int|
            0 <= t < e.tags@.len() && str_contains(#[trigger] e.tags@[t]@, q)) ==> match_class(
            e,
            q,
        ) == Some(2int),
        !str_contains(lowercase_of(e.key@), q) && !(exists|t: int|
            0 <= t < e.tags@.len() && str_contains(#[trigger] e.tags@[t]@, q)) ==> match_class(
            e,
            q,
        ) is None,
{
    lemma_str_prefix_is_contained(lowercase_of(e.key@), q);
    assert forall|t: int| 0 <= t < e.tags@.len() implies e.tags.deep_view()[t] == #[trigger] e.tags@[t]@ by {}
}

/// A search lists exactly the entries whose lower-cased key contains the
/// query or that have a tag containing it.
pub proof fn lemma_search_lists_exactly_the_matches(
    entries: Seq<EntrySummary>,
    q: Seq<char>,
    out: Seq<EntrySummary>,
)
    requires
        is_search_result(entries, q, out),
    ensures
        forall|i: int|
            0 <= i < entries.len() && (str_contains(lowercase_of(entries[i].key@), q) || exists|
                t: int,
            |
                0 <= t < entries[i].tags@.len() && str_contains(#[trigger] entries[i].tags@[t]@, q))
                ==> out.contains(#[trigger] entries[i]),
        forall|k: int|
            0 <= k < out.len() ==> str_contains(lowercase_of((#[trigger] out[k]).key@), q) || exists|
                t: int,
            | 0 <= t < out[k].tags@.len() && str_contains(#[trigger] out[k].tags@[t]@, q),
{
    lemma_search_result_ranking(entries, q, out);
    assert forall|i: int|
        0 <= i < entries.len() && (str_contains(lowercase_of(entries[i].key@), q) || exists|t: int|
            0 <= t < entries[i].tags@.len() && str_contains(#[trigger] entries[i].tags@[t]@, q))
        implies out.contains(#[trigger] entries[i]) by {
        lemma_match_class_rules(entries[i], q);
    }
    assert forall|k: int| 0 <= k < out.len() implies str_contains(
        lowercase_of((#[trigger] out[k]).key@),
        q,
    ) || exists|t: int| 0 <= t < out[k].tags@.len() && str_contains(#[trigger] out[k].tags@[t]@, q) by {
        lemma_match_class_rules(out[k], q);
    }
}

/// In the recent list no entry comes before one whose update time denotes a
/// later instant.
pub proof fn lemma_recent_list_by_instant(entries: Seq<EntrySummary>, out: Seq<EntrySummary>)
    requires
        is_recent_list(entries, out),
    ensures
        forall|k: int, l: int|
            0 <= k < l < out.len() && instant_of((#[trigger] out[k]).updated_at@) is Some
                && instant_of((#[trigger] out[l]).updated_at@) is Some ==> {
                let x = instant_of(out[k].updated_at@).unwrap();
                let y = instant_of(out[l].updated_at@).unwrap();
                x.0 > y.0 || (x.0 == y.0 && x.1 >= y.1)
            },
{
    lemma_recent_list_newest_first(entries, out);
    assert forall|k: int, l: int|
        0 <= k < l < out.len() && instant_of((#[trigger] out[k]).updated_at@) is Some && instant_of(
            (#[trigger] out[l]).updated_at@,
        ) is Some implies {
        let x = instant_of(out[k].updated_at@).unwrap();
        let y = instant_of(out[l].updated_at@).unwrap();
        x.0 > y.0 || (x.0 == y.0 && x.1 >= y.1)
    } by {
        lemma_later_is_later_instant(out[l].updated_at@, out[k].updated_at@);
    }
}

/// Among search results of one rank, no entry comes before one whose update
/// time denotes a later instant.
pub proof fn lemma_search_rank_by_instant(
    entries: Seq<EntrySummary>,
    q: Seq<char>,
    out: Seq<EntrySummary>,
)
    requires
        is_search_result(entries, q, out),
    ensures
        forall|k: int, l: int|
            0 <= k < l < out.len() && match_class(#[trigger] out[k], q) == match_class(
                #[trigger] out[l],
                q,
            ) && instant_of(out[k].updated_at@) is Some && instant_of(out[l].updated_at@) is Some
                ==> {
                let x = instant_of(out[k].updated_at@).unwrap();
                let y = instant_of(out[l].updated_at@).unwrap();
                x.0 > y.0 || (x.0 == y.0 && x.1 >= y.1)
            },
{
    lemma_search_result_ranking(entries, q, out);
    assert forall|k: int, l: int|
        0 <= k < l < out.len() && match_class(#[trigger] out[k], q) == match_class(
            #[trigger] out[l],
            q,
        ) && instant_of(out[k].updated_at@) is Some && instant_of(out[l].updated_at@) is Some implies {
        let x = instant_of(out[k].updated_at@).unwrap();
        let y = instant_of(out[l].updated_at@).unwrap();
        x.0 > y.0 || (x.0 == y.0 && x.1 >= y.1)
    } by {
        lemma_later_is_later_instant(out[l].updated_at@, out[k].updated_at@);
    }
}

/// A blank query gives the recent list: what a search for a query that is
/// empty or only whitespace returns is what the recent list of the same
/// entries is.
pub proof fn lemma_blank_query_gives_recent_list(
    entries: Seq<EntrySummary>,
    query: Seq<char>,
    searched: Seq<EntrySummary>,
    recent: Seq<EntrySummary>,
)
    requires
        trimmed(query).len() == 0,
        is_search_outcome(entries, query, searched),
        is_recent_list(entries, recent),
    ensures
        searched == recent,
{
    lemma_recent_list_unique(entries, searched, recent);
}

/// Searching a search result again with the same query gives it back.
pub proof fn lemma_search_again_same(
    entries: Seq<EntrySummary>,
    q: Seq<char>,
    out: Seq<EntrySummary>,
    again: Seq<EntrySummary>,
)
    requires
        is_search_result(entries, q, out),
        is_search_result(out, q, again),
    ensures
        again == out,
{
    let perm = choose|perm: Seq<int>|
        {
            &&& lists_by(entries, out, perm)
            &&& forall|k: int|
                0 <= k < perm.len() ==> (#[trigger] match_class(entries[perm[k]], q)) is Some
            &&& forall|i: int|
                0 <= i < entries.len() && (#[trigger] match_class(entries[i], q)) is Some
                    ==> perm.contains(i)
            &&& forall|k: int, l: int|
                0 <= k < l < perm.len() ==> search_precedes(
                    entries,
                    q,
                    #[trigger] perm[k],
                    #[trigger] perm[l],
                )
        };
    let id = Seq::new(out.len(), |k: int| k);
    assert(lists_by(out, out, id));
    assert forall|k: int| 0 <= k < id.len() implies (#[trigger] match_class(out[id[k]], q)) is Some by {
        assert(out[k] == entries[perm[k]]);
    }
    assert forall|i: int|
        0 <= i < out.len() && (#[trigger] match_class(out[i], q)) is Some implies id.contains(i) by {
        assert(id[i] == i);
    }
    assert forall|k: int, l: int| 0 <= k < l < id.len() implies search_precedes(
        out,
        q,
        #[trigger] id[k],
        #[trigger] id[l],
    ) by {
        assert(out[k] == entries[perm[k]] && out[l] == entries[perm[l]]);
        assert(search_precedes(entries, q, perm[k], perm[l]));
    }
    assert(is_search_result(out, q, out));
    lemma_search_result_unique(out, q, again, out);
}

/// Taking the recent list of a recent list gives it back.
pub proof fn lemma_recent_again_same(
    entries: Seq<EntrySummary>,
    out: Seq<EntrySummary>,
    again: Seq<EntrySummary>,
)
    requires
        is_recent_list(entries, out),
        is_recent_list(out, again),
    ensures
        again == out,
{
    let perm = choose|perm: Seq<int>|
        {
            &&& lists_by(entries, out, perm)
            &&& forall|i: int| 0 <= i < entries.len() ==> #[trigger] perm.contains(i)
            &&& forall|k: int, l: int|
                0 <= k < l < perm.len() ==> recent_precedes(
                    entries,
                    #[trigger] perm[k],
                    #[trigger] perm[l],
                )
        };
    let id = Seq::new(out.len(), |k: int| k);
    assert(lists_by(out, out, id));
    assert forall|i: int| 0 <= i < out.len() implies #[trigger] id.contains(i) by {
        assert(id[i] == i);
    }
    assert forall|k: int, l: int| 0 <= k < l < id.len() implies recent_precedes(
        out,
        #[trigger] id[k],
        #[trigger] id[l],
    ) by {
        assert(out[k] == entries[perm[k]] && out[l] == entries[perm[l]]);
        assert(recent_precedes(entries, perm[k], perm[l]));
    }
    assert(is_recent_list(out, out));
    lemma_recent_list_unique(out, again, out);
}

} // verus!
