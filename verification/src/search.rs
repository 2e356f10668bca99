//! Fuzzy search ranking over catalog entries.
//!
//! `rank` is a pure function from the entries, a query and a field
//! choice to a display ordering: the empty query keeps the catalog
//! order; otherwise the entries whose chosen field does not contain
//! the query as a character subsequence are excluded, and the rest
//! are sorted by ascending slack — the number of field characters
//! left unmatched, so a tighter match ranks first — with ties broken
//! by the original catalog order. The input order itself is never
//! mutated: the result is a derived view.

use crate::catalog::{DataEntry, DataEntryView};
use crate::chars::str_to_char_vec;
use vstd::prelude::*;
use vstd::seq_lib::group_to_multiset_ensures;
use vstd::seq_lib::lemma_multiset_commutative;

verus! {

/// Which field of an entry the query is matched against.
#[derive(Clone, Copy, Debug, PartialEq, Eq, Structural)]
pub enum SearchField {
    Key,
    Description,
}

/// The text of the chosen field.
pub open spec fn field_text(e: DataEntryView, field: SearchField) -> Seq<char> {
    match field {
        SearchField::Key => e.key,
        SearchField::Description => e.description_raw,
    }
}

/// Is `q` a subsequence of `s` (all of `q`'s characters occur in `s`,
/// in order)?
pub open spec fn is_subsequence(q: Seq<char>, s: Seq<char>) -> bool
    decreases q.len() + s.len(),
{
    if q.len() == 0 {
        true
    } else if s.len() == 0 {
        false
    } else if q[0] == s[0] {
        is_subsequence(q.drop_first(), s.drop_first())
    } else {
        is_subsequence(q, s.drop_first())
    }
}

/// A subsequence is never longer than the text it matches.
pub proof fn lemma_subsequence_len(q: Seq<char>, s: Seq<char>)
    requires
        is_subsequence(q, s),
    ensures
        q.len() <= s.len(),
    decreases q.len() + s.len(),
{
    if q.len() > 0 && s.len() > 0 {
        if q[0] == s[0] {
            lemma_subsequence_len(q.drop_first(), s.drop_first());
        } else {
            lemma_subsequence_len(q, s.drop_first());
        }
    }
}

/// A match survives putting one more character in front of the text.
proof fn lemma_subsequence_cons(q: Seq<char>, s: Seq<char>, c: char)
    requires
        is_subsequence(q, s),
    ensures
        is_subsequence(q, seq![c] + s),
    decreases q.len() + s.len(), 1int,
{
    let cs = seq![c] + s;
    if q.len() > 0 {
        assert(cs[0] == c);
        assert(cs.drop_first() =~= s);
        if q[0] == c {
            lemma_subsequence_tail(q, s);
        }
    }
}

/// Whatever matches as a subsequence still matches after its first
/// character is dropped.
proof fn lemma_subsequence_tail(q: Seq<char>, s: Seq<char>)
    requires
        is_subsequence(q, s),
        q.len() > 0,
    ensures
        is_subsequence(q.drop_first(), s),
    decreases q.len() + s.len(), 0int,
{
    assert(s.len() > 0);
    if q[0] == s[0] {
        lemma_subsequence_cons(q.drop_first(), s.drop_first(), s[0]);
        assert(seq![s[0]] + s.drop_first() =~= s);
    } else {
        lemma_subsequence_tail(q, s.drop_first());
        lemma_subsequence_cons(q.drop_first(), s.drop_first(), s[0]);
        assert(seq![s[0]] + s.drop_first() =~= s);
    }
}

/// A prefix of a matching query still matches.
pub proof fn lemma_subsequence_prefix(q1: Seq<char>, q2: Seq<char>, s: Seq<char>)
    requires
        q1.len() <= q2.len(),
        q2.take(q1.len() as int) == q1,
        is_subsequence(q2, s),
    ensures
        is_subsequence(q1, s),
    decreases q2.len() + s.len(),
{
    if q1.len() > 0 {
        assert(q1[0] == q2[0]);
        assert(q2.len() > 0 && s.len() > 0);
        if q2[0] == s[0] {
            assert(q2.drop_first().take(q1.len() - 1) =~= q1.drop_first());
            lemma_subsequence_prefix(q1.drop_first(), q2.drop_first(), s.drop_first());
        } else {
            lemma_subsequence_prefix(q1, q2, s.drop_first());
            lemma_subsequence_cons(q1, s.drop_first(), s[0]);
            assert(seq![s[0]] + s.drop_first() =~= s);
        }
    }
}

/// Does the entry match the query on the chosen field?
pub open spec fn entry_matches(e: DataEntryView, q: Seq<char>, field: SearchField) -> bool {
    is_subsequence(q, field_text(e, field))
}

/// Sort key of a match: its slack — the unmatched field characters,
/// lower is a better match — and the entry's original position,
/// which breaks ties, keeping the ranking stable.
pub struct RankKey {
    pub slack: int,
    pub index: int,
}

/// Strict ordering on sort keys: by slack, then by original
/// position. Distinct matches always compare strictly, since their
/// positions differ.
pub open spec fn key_lt(a: RankKey, b: RankKey) -> bool {
    a.slack < b.slack || (a.slack == b.slack && a.index < b.index)
}

/// The sort keys of the matching entries, in catalog order.
pub open spec fn match_keys(es: Seq<DataEntryView>, q: Seq<char>, field: SearchField) -> Seq<
    RankKey,
>
    decreases es.len(),
{
    if es.len() == 0 {
        Seq::empty()
    } else {
        let pre = match_keys(es.drop_last(), q, field);
        if entry_matches(es.last(), q, field) {
            pre.push(
                RankKey {
                    slack: field_text(es.last(), field).len() - q.len(),
                    index: es.len() - 1,
                },
            )
        } else {
            pre
        }
    }
}

/// `x` inserted in front of the first element above it.
pub open spec fn insert_key(x: RankKey, s: Seq<RankKey>) -> Seq<RankKey>
    decreases s.len(),
{
    if s.len() == 0 {
        seq![x]
    } else if key_lt(x, s[0]) {
        seq![x] + s
    } else {
        seq![s[0]] + insert_key(x, s.drop_first())
    }
}

/// Insertion sort of the keys, processing left to right.
pub open spec fn sort_keys(s: Seq<RankKey>) -> Seq<RankKey>
    decreases s.len(),
{
    if s.len() == 0 {
        Seq::empty()
    } else {
        insert_key(s.last(), sort_keys(s.drop_last()))
    }
}

/// The ranking: the matching entries, fetched by the sorted keys.
pub open spec fn ranked_spec(es: Seq<DataEntryView>, q: Seq<char>, field: SearchField) -> Seq<
    DataEntryView,
> {
    sort_keys(match_keys(es, q, field)).map_values(|k: RankKey| es[k.index])
}

/// Law: extending the query by an exact suffix is monotonic. Two
/// entries that still match the extended query also matched the
/// original one, and their relative ranking — the order of their
/// sort keys — is the same under both queries: nothing that stays a
/// match gets worse.
pub proof fn lemma_rank_prefix_monotonic(
    e1: DataEntryView,
    i1: int,
    e2: DataEntryView,
    i2: int,
    q1: Seq<char>,
    q2: Seq<char>,
    field: SearchField,
)
    requires
        q1.len() <= q2.len(),
        q2.take(q1.len() as int) == q1,
        entry_matches(e1, q2, field),
        entry_matches(e2, q2, field),
    ensures
        entry_matches(e1, q1, field),
        entry_matches(e2, q1, field),
        key_lt(
            RankKey { slack: field_text(e1, field).len() - q1.len(), index: i1 },
            RankKey { slack: field_text(e2, field).len() - q1.len(), index: i2 },
        ) == key_lt(
            RankKey { slack: field_text(e1, field).len() - q2.len(), index: i1 },
            RankKey { slack: field_text(e2, field).len() - q2.len(), index: i2 },
        ),
{
    lemma_subsequence_prefix(q1, q2, field_text(e1, field));
    lemma_subsequence_prefix(q1, q2, field_text(e2, field));
}

/// The match list names exactly the matching entries: each of its
/// keys points at a matching entry and carries its slack, and every
/// matching entry's key is in the list.
pub proof fn lemma_match_keys_members(es: Seq<DataEntryView>, q: Seq<char>, field: SearchField)
    ensures
        forall|m: int|
            0 <= m < match_keys(es, q, field).len() ==> {
                let k = #[trigger] match_keys(es, q, field)[m];
                &&& 0 <= k.index < es.len()
                &&& entry_matches(es[k.index], q, field)
                &&& k.slack == field_text(es[k.index], field).len() - q.len()
            },
        forall|i: int|
            0 <= i < es.len() && entry_matches(#[trigger] es[i], q, field) ==> match_keys(
                es,
                q,
                field,
            ).contains(RankKey { slack: field_text(es[i], field).len() - q.len(), index: i }),
    decreases es.len(),
{
    let mk = match_keys(es, q, field);
    if es.len() > 0 {
        let d = es.drop_last();
        let pre = match_keys(d, q, field);
        lemma_match_keys_members(d, q, field);
        assert forall|m: int| 0 <= m < mk.len() implies {
            let k = #[trigger] mk[m];
            &&& 0 <= k.index < es.len()
            &&& entry_matches(es[k.index], q, field)
            &&& k.slack == field_text(es[k.index], field).len() - q.len()
        } by {
            if m < pre.len() {
                assert(mk[m] == pre[m]);
                assert(d[pre[m].index] == es[pre[m].index]);
            } else {
                assert(entry_matches(es.last(), q, field));
            }
        }
        assert forall|i: int|
            0 <= i < es.len() && entry_matches(#[trigger] es[i], q, field) implies mk.contains(
            RankKey { slack: field_text(es[i], field).len() - q.len(), index: i },
        ) by {
            let k = RankKey { slack: field_text(es[i], field).len() - q.len(), index: i };
            if i < es.len() - 1 {
                assert(d[i] == es[i]);
                assert(pre.contains(k));
                let w = choose|w: int| 0 <= w < pre.len() && pre[w] == k;
                assert(mk[w] == k);
            } else {
                assert(mk.last() == k);
            }
        }
    }
}

/// Inserting a key adds exactly it to the multiset of keys.
proof fn lemma_insert_key_multiset(x: RankKey, s: Seq<RankKey>)
    ensures
        insert_key(x, s).to_multiset() == s.to_multiset().insert(x),
    decreases s.len(),
{
    broadcast use group_to_multiset_ensures;

    if s.len() == 0 {
        assert(seq![x] =~= Seq::<RankKey>::empty().push(x));
        assert(insert_key(x, s).to_multiset() =~= s.to_multiset().insert(x));
    } else if key_lt(x, s[0]) {
        lemma_multiset_commutative(seq![x], s);
        assert(seq![x] =~= Seq::<RankKey>::empty().push(x));
        assert(insert_key(x, s).to_multiset() =~= s.to_multiset().insert(x));
    } else {
        let d = s.drop_first();
        lemma_insert_key_multiset(x, d);
        lemma_multiset_commutative(seq![s[0]], insert_key(x, d));
        lemma_multiset_commutative(seq![s[0]], d);
        assert(seq![s[0]] + d =~= s);
        assert(seq![s[0]] =~= Seq::<RankKey>::empty().push(s[0]));
        assert(insert_key(x, s).to_multiset() =~= s.to_multiset().insert(x));
    }
}

/// Sorting permutes the keys: the multiset is unchanged.
pub proof fn lemma_sort_keys_multiset(s: Seq<RankKey>)
    ensures
        sort_keys(s).to_multiset() == s.to_multiset(),
    decreases s.len(),
{
    broadcast use group_to_multiset_ensures;

    if s.len() > 0 {
        lemma_sort_keys_multiset(s.drop_last());
        lemma_insert_key_multiset(s.last(), sort_keys(s.drop_last()));
        assert(s.drop_last().push(s.last()) =~= s);
    }
}

/// The keys stand in ascending order: no later key is strictly below
/// an earlier one.
pub open spec fn keys_sorted(s: Seq<RankKey>) -> bool {
    forall|m: int, n: int| 0 <= m < n < s.len() ==> !key_lt(#[trigger] s[n], #[trigger] s[m])
}

/// Inserting into a sorted run keeps it sorted.
proof fn lemma_insert_key_sorted(x: RankKey, s: Seq<RankKey>)
    requires
        keys_sorted(s),
    ensures
        keys_sorted(insert_key(x, s)),
    decreases s.len(),
{
    broadcast use group_to_multiset_ensures;

    let r = insert_key(x, s);
    if s.len() == 0 {
    } else if key_lt(x, s[0]) {
        assert forall|m: int, n: int| 0 <= m < n < r.len() implies !key_lt(
            #[trigger] r[n],
            #[trigger] r[m],
        ) by {
            assert(r[n] == s[n - 1]);
            if m > 0 {
                assert(r[m] == s[m - 1]);
            }
        }
    } else {
        let d = s.drop_first();
        assert forall|m: int, n: int| 0 <= m < n < d.len() implies !key_lt(
            #[trigger] d[n],
            #[trigger] d[m],
        ) by {
            assert(d[m] == s[m + 1] && d[n] == s[n + 1]);
        }
        lemma_insert_key_sorted(x, d);
        let rd = insert_key(x, d);
        lemma_insert_key_multiset(x, d);
        assert forall|m: int, n: int| 0 <= m < n < r.len() implies !key_lt(
            #[trigger] r[n],
            #[trigger] r[m],
        ) by {
            if m == 0 {
                // r[n] is x or an element of d; neither is below s[0].
                let e = rd[n - 1];
                assert(r[n] == e);
                assert(rd.contains(e));
                assert(rd.to_multiset().count(e) > 0);
                if e == x {
                    assert(!key_lt(e, s[0]));
                } else {
                    assert(d.to_multiset().count(e) > 0);
                    assert(d.contains(e));
                    let w = choose|w: int| 0 <= w < d.len() && d[w] == e;
                    assert(s[w + 1] == e);
                    assert(!key_lt(e, s[0]));
                }
            } else {
                assert(r[m] == rd[m - 1] && r[n] == rd[n - 1]);
            }
        }
    }
}

/// Sorting sorts: the result is in ascending key order.
pub proof fn lemma_sort_keys_sorted(s: Seq<RankKey>)
    ensures
        keys_sorted(sort_keys(s)),
    decreases s.len(),
{
    if s.len() > 0 {
        lemma_sort_keys_sorted(s.drop_last());
        lemma_insert_key_sorted(s.last(), sort_keys(s.drop_last()));
    }
}

/// Law: what the ranking holds and in what order. Its keys are the
/// match keys, permuted into ascending order — so an entry is ranked
/// exactly when it matches the query, every ranked element is a
/// matching entry, and slack with the catalog position as tie-break
/// decides the order.
pub proof fn lemma_ranked_properties(es: Seq<DataEntryView>, q: Seq<char>, field: SearchField)
    ensures
        keys_sorted(sort_keys(match_keys(es, q, field))),
        sort_keys(match_keys(es, q, field)).to_multiset() == match_keys(es, q, field).to_multiset(),
        ranked_spec(es, q, field).len() == match_keys(es, q, field).len(),
        forall|m: int|
            #![trigger ranked_spec(es, q, field)[m]]
            0 <= m < ranked_spec(es, q, field).len() ==> exists|i: int|
                0 <= i < es.len() && entry_matches(#[trigger] es[i], q, field) && ranked_spec(
                    es,
                    q,
                    field,
                )[m] == es[i],
        forall|i: int|
            0 <= i < es.len() && entry_matches(#[trigger] es[i], q, field) ==> ranked_spec(
                es,
                q,
                field,
            ).contains(es[i]),
{
    broadcast use group_to_multiset_ensures;

    let mk = match_keys(es, q, field);
    let sk = sort_keys(mk);
    let ranked = ranked_spec(es, q, field);
    lemma_sort_keys_sorted(mk);
    lemma_sort_keys_multiset(mk);
    lemma_match_keys_members(es, q, field);
    assert(sk.to_multiset().len() == mk.to_multiset().len());
    assert(sk.len() == mk.len());
    assert forall|m: int| #![trigger ranked_spec(es, q, field)[m]] 0 <= m < ranked.len() implies exists|i: int|
        0 <= i < es.len() && entry_matches(#[trigger] es[i], q, field) && ranked_spec(
            es,
            q,
            field,
        )[m] == es[i] by {
        let k = sk[m];
        assert(sk.contains(k));
        assert(sk.to_multiset().count(k) > 0);
        assert(mk.contains(k));
        let w = choose|w: int| 0 <= w < mk.len() && mk[w] == k;
        assert(entry_matches(es[k.index], q, field));
        assert(ranked[m] == es[k.index]);
    }
    assert forall|i: int|
        0 <= i < es.len() && entry_matches(#[trigger] es[i], q, field) implies ranked.contains(
        es[i],
    ) by {
        let k = RankKey { slack: field_text(es[i], field).len() - q.len(), index: i };
        assert(mk.contains(k));
        assert(mk.to_multiset().count(k) > 0);
        assert(sk.contains(k));
        let w = choose|w: int| 0 <= w < sk.len() && sk[w] == k;
        assert(ranked[w] == es[i]);
    }
}

/// Inserting at the first position whose element is above `x` is
/// what `insert_key` does.
proof fn lemma_insert_key_at(x: RankKey, s: Seq<RankKey>, j: int)
    requires
        0 <= j <= s.len(),
        forall|m: int| 0 <= m < j ==> !key_lt(x, #[trigger] s[m]),
        j < s.len() ==> key_lt(x, s[j]),
    ensures
        insert_key(x, s) == s.take(j) + seq![x] + s.skip(j),
    decreases s.len(),
{
    if s.len() == 0 {
        assert(insert_key(x, s) =~= s.take(j) + seq![x] + s.skip(j));
    } else if j == 0 {
        assert(key_lt(x, s[0]));
        assert(s.take(0) + seq![x] + s.skip(0) =~= seq![x] + s);
    } else {
        assert(!key_lt(x, s[0]));
        let d = s.drop_first();
        assert forall|m: int| 0 <= m < j - 1 implies !key_lt(x, #[trigger] d[m]) by {
            assert(d[m] == s[m + 1]);
        }
        if j - 1 < d.len() {
            assert(d[j - 1] == s[j]);
        }
        lemma_insert_key_at(x, d, j - 1);
        assert(seq![s[0]] + (d.take(j - 1) + seq![x] + d.skip(j - 1)) =~= s.take(j) + seq![x]
            + s.skip(j));
    }
}

/// Is `q` a subsequence of `s`? The two-pointer scan.
fn is_subsequence_exec(q: &Vec<char>, s: &Vec<char>) -> (r: bool)
    ensures
        r == is_subsequence(q@, s@),
{
    let mut qi: usize = 0;
    let mut si: usize = 0;
    proof {
        assert(q@.skip(0) =~= q@);
        assert(s@.skip(0) =~= s@);
    }
    while qi < q.len() && si < s.len()
        invariant
            qi <= q@.len(),
            si <= s@.len(),
            is_subsequence(q@, s@) == is_subsequence(q@.skip(qi as int), s@.skip(si as int)),
        decreases s@.len() - si,
    {
        let ghost qs = q@.skip(qi as int);
        let ghost ss = s@.skip(si as int);
        proof {
            assert(qs[0] == q@[qi as int]);
            assert(ss[0] == s@[si as int]);
            assert(qs.drop_first() =~= q@.skip(qi + 1));
            assert(ss.drop_first() =~= s@.skip(si + 1));
        }
        if q[qi] == s[si] {
            qi = qi + 1;
            si = si + 1;
        } else {
            si = si + 1;
        }
    }
    proof {
        if qi == q@.len() {
            assert(q@.skip(qi as int) =~= Seq::<char>::empty());
        } else {
            assert(s@.skip(si as int) =~= Seq::<char>::empty());
            assert(q@.skip(qi as int).len() > 0);
        }
    }
    qi == q.len()
}

/// One match being carried toward its sorted position.
struct RankItem {
    slack: usize,
    index: usize,
    entry: DataEntry,
}

/// The sort key of an item.
spec fn item_key(it: RankItem) -> RankKey {
    RankKey { slack: it.slack as int, index: it.index as int }
}

/// The keys of a run of items.
spec fn keys_of(items: Seq<RankItem>) -> Seq<RankKey> {
    items.map_values(|it: RankItem| item_key(it))
}

/// Every item carries the entry standing at its recorded position.
spec fn items_coherent(items: Seq<RankItem>, es: Seq<DataEntryView>) -> bool {
    forall|m: int|
        0 <= m < items.len() ==> 0 <= (#[trigger] items[m]).index < es.len() && items[m].entry@
            == es[items[m].index as int]
}

/// Rank entries against a query.
///
/// An empty query returns the entries unchanged, in catalog order.
/// Otherwise the result holds exactly the matching entries — those
/// whose chosen field contains the query as a subsequence — sorted
/// by ascending slack with ties in catalog order: `ranked_spec`.
pub fn rank(entries: &Vec<DataEntry>, query: &str, field: SearchField) -> (r: Vec<DataEntry>)
    ensures
        query@.len() == 0 ==> r.deep_view() == entries.deep_view(),
        query@.len() > 0 ==> r.deep_view() == ranked_spec(entries.deep_view(), query@, field),
{
    let ghost es = entries.deep_view();
    let q = str_to_char_vec(query);
    if q.len() == 0 {
        let mut r: Vec<DataEntry> = Vec::new();
        let mut i: usize = 0;
        while i < entries.len()
            invariant
                i <= es.len(),
                es == entries.deep_view(),
                r.deep_view() == es.take(i as int),
            decreases es.len() - i,
        {
            let c = entries[i].clone();
            let ghost cv = c@;
            r.push(c);
            proof {
                assert(r.deep_view().len() == r@.len());
                assert(es.take(i as int).len() == i);
                assert(r@[i as int]@ == cv);
                assert(r.deep_view() =~= es.take(i + 1));
            }
            i = i + 1;
        }
        proof {
            assert(es.take(es.len() as int) =~= es);
        }
        return r;
    }
    // Collect the matching entries with their sort keys.
    let mut items: Vec<RankItem> = Vec::new();
    let mut i: usize = 0;
    while i < entries.len()
        invariant
            i <= es.len(),
            es == entries.deep_view(),
            q@ == query@,
            q@.len() > 0,
            keys_of(items@) == match_keys(es.take(i as int), q@, field),
            items_coherent(items@, es),
        decreases es.len() - i,
    {
        let ghost items0 = items@;
        let ghost pre = es.take(i as int);
        proof {
            assert(es.take(i + 1).drop_last() =~= pre);
            assert(es.take(i + 1).last() == es[i as int]);
        }
        let text = match field {
            SearchField::Key => str_to_char_vec(entries[i].key.as_str()),
            SearchField::Description => str_to_char_vec(entries[i].description_raw.as_str()),
        };
        proof {
            assert(text@ == field_text(es[i as int], field));
        }
        if is_subsequence_exec(&q, &text) {
            proof {
                lemma_subsequence_len(q@, text@);
            }
            let it = RankItem { slack: text.len() - q.len(), index: i, entry: entries[i].clone() };
            let ghost itv = item_key(it);
            let ghost ite = it.entry@;
            items.push(it);
            proof {
                assert(items@[items0.len() as int].entry@ == ite);
                assert(keys_of(items@) =~= keys_of(items0).push(itv));
            }
        }
        i = i + 1;
    }
    proof {
        assert(es.take(es.len() as int) =~= es);
    }
    // Insertion sort by (slack, original position).
    let mut sorted: Vec<RankItem> = Vec::new();
    let mut i: usize = 0;
    while i < items.len()
        invariant
            i <= items@.len(),
            es == entries.deep_view(),
            keys_of(sorted@) == sort_keys(keys_of(items@).take(i as int)),
            items_coherent(items@, es),
            items_coherent(sorted@, es),
            keys_of(items@) == match_keys(es, q@, field),
        decreases items@.len() - i,
    {
        let ghost ks = keys_of(items@);
        let ghost sorted0 = sorted@;
        proof {
            assert(ks.take(i + 1).drop_last() =~= ks.take(i as int));
            assert(ks.take(i + 1).last() == ks[i as int]);
            assert(ks[i as int] == item_key(items@[i as int]));
        }
        let x = items[i].clone_item();
        let ghost xv = item_key(x);
        let ghost xe = x.entry@;
        // Find the first position whose key is above x.
        let mut j: usize = 0;
        while j < sorted.len() && !key_lt_exec(&x, &sorted[j])
            invariant
                j <= sorted@.len(),
                sorted@ == sorted0,
                item_key(x) == xv,
                forall|m: int| 0 <= m < j ==> !key_lt(xv, #[trigger] keys_of(sorted0)[m]),
            decreases sorted@.len() - j,
        {
            proof {
                assert(keys_of(sorted0)[j as int] == item_key(sorted0[j as int]));
            }
            j = j + 1;
        }
        proof {
            if j < sorted0.len() {
                assert(keys_of(sorted0)[j as int] == item_key(sorted0[j as int]));
            }
            lemma_insert_key_at(xv, keys_of(sorted0), j as int);
        }
        sorted.insert(j, x);
        proof {
            assert(keys_of(sorted@) =~= keys_of(sorted0).take(j as int) + seq![xv] + keys_of(
                sorted0,
            ).skip(j as int));
            assert forall|m: int|
                0 <= m < sorted@.len() implies 0 <= (#[trigger] sorted@[m]).index < es.len()
                && sorted@[m].entry@ == es[sorted@[m].index as int] by {
                if m < j {
                    assert(sorted@[m] == sorted0[m]);
                } else if m == j {
                    assert(sorted@[m].entry@ == xe);
                } else {
                    assert(sorted@[m] == sorted0[m - 1]);
                }
            }
        }
        i = i + 1;
    }
    proof {
        assert(keys_of(items@).take(items@.len() as int) =~= keys_of(items@));
    }
    // Hand the entries out in sorted order.
    let mut r: Vec<DataEntry> = Vec::new();
    let mut i: usize = 0;
    while i < sorted.len()
        invariant
            i <= sorted@.len(),
            es == entries.deep_view(),
            items_coherent(sorted@, es),
            keys_of(sorted@) == sort_keys(match_keys(es, q@, field)),
            r@.len() == i,
            forall|m: int|
                0 <= m < i ==> #[trigger] r.deep_view()[m] == es[keys_of(sorted@)[m].index],
        decreases sorted@.len() - i,
    {
        let ghost r0 = r.deep_view();
        let c = sorted[i].entry.clone();
        let ghost cv = c@;
        r.push(c);
        proof {
            assert(r.deep_view().len() == r@.len());
            assert(r@[i as int]@ == cv);
            assert(sorted@[i as int].entry@ == es[sorted@[i as int].index as int]);
            assert(keys_of(sorted@)[i as int] == item_key(sorted@[i as int]));
            assert forall|m: int|
                0 <= m < i + 1 implies #[trigger] r.deep_view()[m] == es[keys_of(
                sorted@,
            )[m].index] by {
                if m < i {
                    assert(r.deep_view()[m] == r@[m].deep_view());
                    assert(r.deep_view()[m] == r0[m]);
                }
            }
        }
        i = i + 1;
    }
    proof {
        assert(keys_of(sorted@).len() == sorted@.len());
        let ranked = ranked_spec(es, query@, field);
        assert(ranked.len() == keys_of(sorted@).len());
        assert forall|m: int| 0 <= m < r.deep_view().len() implies r.deep_view()[m]
            == ranked[m] by {
            assert(ranked[m] == es[keys_of(sorted@)[m].index]);
        }
        assert(r.deep_view() =~~= ranked);
    }
    r
}

/// Strict key order on items, as executable comparison.
fn key_lt_exec(a: &RankItem, b: &RankItem) -> (r: bool)
    ensures
        r == key_lt(item_key(*a), item_key(*b)),
{
    a.slack < b.slack || (a.slack == b.slack && a.index < b.index)
}

impl RankItem {
    /// A fresh copy of the item.
    fn clone_item(&self) -> (r: RankItem)
        ensures
            item_key(r) == item_key(*self),
            r.entry@ == self.entry@,
            r.index == self.index,
    {
        RankItem { slack: self.slack, index: self.index, entry: self.entry.clone() }
    }
}

} // verus!
