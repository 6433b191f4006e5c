//! The result aggregator: fan-in concatenation of the per-task record
//! lists, a stable descending sort by the chosen ranking key, and
//! truncation to the display limit. The sort is specified as repeated
//! stable insertion, which pins down the exact output sequence: sorted
//! descending, a permutation of the input, and arrival order preserved
//! among equal keys.

use vstd::multiset::Multiset;
use vstd::prelude::*;

use crate::size::size_key;
use crate::text::{fits_i32, int_text_val, parse_i32};
use crate::types::{Sort, Torrent};

verus! {

/// The numeric seeder count a record's text stands for: the parsed
/// value, or 0 when the text is not a number in `i32` range.
pub open spec fn seeders_key(s: Seq<char>) -> int {
    if fits_i32(s) {
        int_text_val(s)
    } else {
        0
    }
}

/// Parses a seeder text for ranking; any failure counts as 0.
pub fn seeders_as_i64(s: &str) -> (r: i64)
    ensures
        r as int == seeders_key(s@),
{
    match parse_i32(s) {
        Some(v) => v as i64,
        None => 0,
    }
}

/// The ranking key of one record under a sort mode.
pub open spec fn rank_key(mode: Sort, t: Torrent) -> int {
    match mode {
        Sort::Size => size_key(t.size@),
        Sort::Seeds => seeders_key(t.seeders@),
    }
}

fn rank_key_exec(mode: &Sort, t: &Torrent) -> (k: i64)
    ensures
        k as int == rank_key(*mode, *t),
{
    match mode {
        Sort::Size => t.get_size_as_i64(),
        Sort::Seeds => seeders_as_i64(t.seeders.as_str()),
    }
}

/// Sorted in descending key order.
pub open spec fn sorted_desc(mode: Sort, s: Seq<Torrent>) -> bool {
    forall|i: int, j: int|
        0 <= i <= j < s.len() ==> rank_key(mode, s[i]) >= rank_key(mode, s[j])
}

/// Stable insertion into a descending list: the new record goes after
/// every record whose key is at least as large.
pub open spec fn insert_desc(mode: Sort, s: Seq<Torrent>, t: Torrent) -> Seq<Torrent>
    decreases s.len(),
{
    if s.len() == 0 {
        seq![t]
    } else if rank_key(mode, s[0]) >= rank_key(mode, t) {
        seq![s[0]] + insert_desc(mode, s.drop_first(), t)
    } else {
        seq![t] + s
    }
}

/// The stable descending sort: records inserted one by one in arrival
/// order.
pub open spec fn sort_desc(mode: Sort, s: Seq<Torrent>) -> Seq<Torrent>
    decreases s.len(),
{
    if s.len() == 0 {
        Seq::empty()
    } else {
        insert_desc(mode, sort_desc(mode, s.drop_last()), s.last())
    }
}

/// The position stable insertion puts the new record at: the count of
/// leading records whose key is at least as large.
pub open spec fn insert_pos(mode: Sort, s: Seq<Torrent>, t: Torrent) -> int
    decreases s.len(),
{
    if s.len() == 0 {
        0
    } else if rank_key(mode, s[0]) >= rank_key(mode, t) {
        1 + insert_pos(mode, s.drop_first(), t)
    } else {
        0
    }
}

proof fn lemma_insert_pos(mode: Sort, s: Seq<Torrent>, t: Torrent)
    ensures
        0 <= insert_pos(mode, s, t) <= s.len(),
        forall|j: int|
            0 <= j < insert_pos(mode, s, t) ==> rank_key(mode, s[j]) >= rank_key(mode, t),
        insert_pos(mode, s, t) < s.len() ==> rank_key(mode, s[insert_pos(mode, s, t)])
            < rank_key(mode, t),
    decreases s.len(),
{
    if s.len() > 0 && rank_key(mode, s[0]) >= rank_key(mode, t) {
        lemma_insert_pos(mode, s.drop_first(), t);
        assert forall|j: int| 0 <= j < insert_pos(mode, s, t) implies rank_key(mode, s[j])
            >= rank_key(mode, t) by {
            if j > 0 {
                assert(s.drop_first()[j - 1] == s[j]);
            }
        }
    }
}

/// Stable insertion splits the list at any position that is after all
/// keys at least as large and before the first strictly smaller key.
proof fn lemma_insert_desc_at(mode: Sort, s: Seq<Torrent>, t: Torrent, p: int)
    requires
        0 <= p <= s.len(),
        forall|j: int| 0 <= j < p ==> rank_key(mode, s[j]) >= rank_key(mode, t),
        p < s.len() ==> rank_key(mode, s[p]) < rank_key(mode, t),
    ensures
        insert_desc(mode, s, t) == s.subrange(0, p) + seq![t] + s.subrange(p, s.len() as int),
    decreases s.len(),
{
    if s.len() == 0 {
        assert(insert_desc(mode, s, t) =~= s.subrange(0, p) + seq![t] + s.subrange(
            p,
            s.len() as int,
        ));
    } else if rank_key(mode, s[0]) >= rank_key(mode, t) {
        assert(p >= 1);
        let d = s.drop_first();
        assert forall|j: int| 0 <= j < p - 1 implies rank_key(mode, d[j]) >= rank_key(
            mode,
            t,
        ) by {
            assert(d[j] == s[j + 1]);
        }
        lemma_insert_desc_at(mode, d, t, p - 1);
        assert(seq![s[0]] + (d.subrange(0, p - 1) + seq![t] + d.subrange(p - 1, d.len() as int))
            =~= s.subrange(0, p) + seq![t] + s.subrange(p, s.len() as int));
    } else {
        assert(p == 0);
        assert(seq![t] + s =~= s.subrange(0, p) + seq![t] + s.subrange(p, s.len() as int));
    }
}

/// Inserting into a descending list keeps it descending.
proof fn lemma_insert_desc_sorted(mode: Sort, s: Seq<Torrent>, t: Torrent)
    requires
        sorted_desc(mode, s),
    ensures
        sorted_desc(mode, insert_desc(mode, s, t)),
        insert_desc(mode, s, t).len() == s.len() + 1,
{
    let p = insert_pos(mode, s, t);
    lemma_insert_pos(mode, s, t);
    lemma_insert_desc_at(mode, s, t, p);
    let r = insert_desc(mode, s, t);
    assert forall|i: int, j: int| 0 <= i <= j < r.len() implies rank_key(mode, r[i]) >= rank_key(
        mode,
        r[j],
    ) by {
        if i < p {
            assert(r[i] == s[i]);
        } else if i == p {
            assert(r[i] == t);
        } else {
            assert(r[i] == s[i - 1]);
        }
        if j < p {
            assert(r[j] == s[j]);
        } else if j == p {
            assert(r[j] == t);
        } else {
            assert(r[j] == s[j - 1]);
        }
    }
}

/// Concatenation turns sequence contents into multiset sums.
proof fn lemma_to_multiset_add<T>(a: Seq<T>, b: Seq<T>)
    ensures
        (a + b).to_multiset() == a.to_multiset().add(b.to_multiset()),
    decreases b.len(),
{
    broadcast use vstd::seq_lib::group_to_multiset_ensures;

    if b.len() == 0 {
        assert(a + b =~= a);
        assert(b.to_multiset() =~= Multiset::<T>::empty());
        assert(a.to_multiset().add(b.to_multiset()) =~= a.to_multiset());
    } else {
        lemma_to_multiset_add(a, b.drop_last());
        assert(a + b =~= (a + b.drop_last()).push(b.last()));
        assert(b =~= b.drop_last().push(b.last()));
        assert((a + b).to_multiset() =~= a.to_multiset().add(b.to_multiset()));
    }
}

/// Stable insertion adds exactly the new record to the contents.
proof fn lemma_insert_desc_multiset(mode: Sort, s: Seq<Torrent>, t: Torrent)
    ensures
        insert_desc(mode, s, t).to_multiset() == s.to_multiset().insert(t),
{
    broadcast use vstd::seq_lib::group_to_multiset_ensures;

    let p = insert_pos(mode, s, t);
    lemma_insert_pos(mode, s, t);
    lemma_insert_desc_at(mode, s, t, p);
    let a = s.subrange(0, p);
    let b = s.subrange(p, s.len() as int);
    lemma_to_multiset_add(a + seq![t], b);
    lemma_to_multiset_add(a, seq![t]);
    lemma_to_multiset_add(a, b);
    assert(insert_desc(mode, s, t) == (a + seq![t]) + b);
    assert(a + b =~= s);
    assert(seq![t] =~= Seq::<Torrent>::empty().push(t));
    assert(seq![t].to_multiset() =~= Multiset::<Torrent>::empty().insert(t));
    assert(insert_desc(mode, s, t).to_multiset() =~= s.to_multiset().insert(t));
}

/// A list none of whose records satisfy the predicate filters to empty.
proof fn lemma_filter_none<T>(s: Seq<T>, pred: spec_fn(T) -> bool)
    requires
        forall|i: int| 0 <= i < s.len() ==> !pred(#[trigger] s[i]),
    ensures
        s.filter(pred) == Seq::<T>::empty(),
    decreases s.len(),
{
    reveal(Seq::filter);
    if s.len() > 0 {
        assert forall|i: int| 0 <= i < s.drop_last().len() implies !pred(
            #[trigger] s.drop_last()[i],
        ) by {
            assert(s.drop_last()[i] == s[i]);
        }
        lemma_filter_none(s.drop_last(), pred);
    }
}

/// How stable insertion changes the records of one key: the new record
/// is appended to its own key class, every other class is untouched.
proof fn lemma_insert_desc_filter(mode: Sort, s: Seq<Torrent>, t: Torrent, k: int)
    requires
        sorted_desc(mode, s),
    ensures
        insert_desc(mode, s, t).filter((|x: Torrent| rank_key(mode, x) == k)) == (
        if rank_key(mode, t) == k {
            s.filter((|x: Torrent| rank_key(mode, x) == k)).push(t)
        } else {
            s.filter((|x: Torrent| rank_key(mode, x) == k))
        }),
{
    reveal(Seq::filter);
    let pred = |x: Torrent| rank_key(mode, x) == k;
    let p = insert_pos(mode, s, t);
    lemma_insert_pos(mode, s, t);
    lemma_insert_desc_at(mode, s, t, p);
    let a = s.subrange(0, p);
    let b = s.subrange(p, s.len() as int);
    assert(insert_desc(mode, s, t) == (a + seq![t]) + b);
    Seq::filter_distributes_over_add(a + seq![t], b, pred);
    Seq::filter_distributes_over_add(a, seq![t], pred);
    Seq::filter_distributes_over_add(a, b, pred);
    assert(a + b =~= s);
    assert(seq![t].drop_last() =~= Seq::<Torrent>::empty());
    if rank_key(mode, t) == k {
        assert(seq![t].filter(pred) =~= Seq::<Torrent>::empty().push(t));
        // Everything after the insertion point has a strictly smaller
        // key, so the key class of `t` gains nothing from `b`.
        assert forall|i: int| 0 <= i < b.len() implies !pred(#[trigger] b[i]) by {
            assert(b[i] == s[p + i]);
            if p < s.len() {
                assert(rank_key(mode, s[p]) < rank_key(mode, t));
                assert(rank_key(mode, s[p + i]) <= rank_key(mode, s[p]));
            }
        }
        lemma_filter_none(b, pred);
        assert(insert_desc(mode, s, t).filter(pred) =~= s.filter(pred).push(t));
    } else {
        assert(Seq::<Torrent>::empty().filter(pred) =~= Seq::<Torrent>::empty());
        assert(seq![t].filter(pred) =~= Seq::<Torrent>::empty());
        assert(insert_desc(mode, s, t).filter(pred) =~= s.filter(pred));
    }
}

/// The aggregator's sort leaves the output in descending key order and
/// only permutes the input: same length, same contents as a multiset.
pub proof fn lemma_sort_desc_sorted(mode: Sort, s: Seq<Torrent>)
    ensures
        sorted_desc(mode, sort_desc(mode, s)),
        sort_desc(mode, s).len() == s.len(),
        sort_desc(mode, s).to_multiset() == s.to_multiset(),
    decreases s.len(),
{
    broadcast use vstd::seq_lib::group_to_multiset_ensures;

    if s.len() > 0 {
        let s1 = s.drop_last();
        lemma_sort_desc_sorted(mode, s1);
        lemma_insert_desc_sorted(mode, sort_desc(mode, s1), s.last());
        lemma_insert_desc_multiset(mode, sort_desc(mode, s1), s.last());
        assert(s =~= s1.push(s.last()));
        assert(sort_desc(mode, s).to_multiset() =~= s.to_multiset());
    }
}

/// The aggregator's sort is stable: within any one ranking-key class
/// the records keep their arrival order, exactly.
pub proof fn lemma_sort_desc_stable(mode: Sort, s: Seq<Torrent>, k: int)
    ensures
        sort_desc(mode, s).filter((|x: Torrent| rank_key(mode, x) == k)) == s.filter(
            (|x: Torrent| rank_key(mode, x) == k),
        ),
    decreases s.len(),
{
    reveal(Seq::filter);
    let pred = |x: Torrent| rank_key(mode, x) == k;
    if s.len() == 0 {
        assert(sort_desc(mode, s) =~= s);
    } else {
        let s1 = s.drop_last();
        let t = s.last();
        lemma_sort_desc_stable(mode, s1, k);
        lemma_sort_desc_sorted(mode, s1);
        lemma_insert_desc_filter(mode, sort_desc(mode, s1), t, k);
    }
}

/// First position in a descending list whose key is strictly below
/// `kt`: where a stable insertion of a record with key `kt` belongs.
fn find_insert_pos(mode: &Sort, v: &Vec<Torrent>, kt: i64) -> (p: usize)
    ensures
        p <= v@.len(),
        forall|j: int| 0 <= j < p ==> rank_key(*mode, v@[j]) >= kt as int,
        p < v@.len() ==> rank_key(*mode, v@[p as int]) < kt as int,
{
    let mut p: usize = 0;
    while p < v.len()
        invariant
            p <= v@.len(),
            forall|j: int| 0 <= j < p ==> rank_key(*mode, v@[j]) >= kt as int,
        decreases v@.len() - p,
    {
        let kp = rank_key_exec(mode, &v[p]);
        if kp < kt {
            return p;
        }
        p = p + 1;
    }
    p
}

/// Sorts the working list by the chosen key, descending and stable:
/// the result is exactly the stable insertion sort of the input.
#[verifier::loop_isolation(false)]
pub fn sort_torrents(mode: &Sort, torrents: Vec<Torrent>) -> (r: Vec<Torrent>)
    ensures
        r@ == sort_desc(*mode, torrents@),
{
    let ghost orig = torrents@;
    let mut rem = torrents;
    let mut out: Vec<Torrent> = Vec::new();
    proof {
        assert(orig.subrange(0, 0) =~= Seq::<Torrent>::empty());
    }
    while rem.len() > 0
        invariant
            rem@.len() <= orig.len(),
            rem@ == orig.subrange(orig.len() - rem@.len(), orig.len() as int),
            out@ == sort_desc(*mode, orig.subrange(0, orig.len() - rem@.len())),
        decreases rem@.len(),
    {
        let ghost m = orig.len() - rem@.len();
        let ghost sorted_prefix = out@;
        let ghost old_rem = rem@;
        let t = rem.remove(0);
        proof {
            assert(t == old_rem[0]);
            assert(t == orig[m as int]);
            assert(rem@ =~= orig.subrange(m as int + 1, orig.len() as int));
            lemma_sort_desc_sorted(*mode, orig.subrange(0, m as int));
        }
        let kt = rank_key_exec(mode, &t);
        let p = find_insert_pos(mode, &out, kt);
        out.insert(p, t);
        proof {
            lemma_insert_desc_at(*mode, sorted_prefix, t, p as int);
            assert(sorted_prefix.insert(p as int, t) =~= sorted_prefix.subrange(0, p as int)
                + seq![t] + sorted_prefix.subrange(p as int, sorted_prefix.len() as int));
            assert(orig.subrange(0, m + 1).drop_last() =~= orig.subrange(0, m as int));
            assert(orig.subrange(0, m + 1).last() == orig[m as int]);
            assert(out@ == sort_desc(*mode, orig.subrange(0, m + 1)));
        }
    }
    proof {
        assert(orig.subrange(0, orig.len() as int) =~= orig);
    }
    out
}

/// Views of a collected batch of per-task record lists.
pub open spec fn views_of(lists: Seq<Vec<Torrent>>) -> Seq<Seq<Torrent>> {
    lists.map_values(|l: Vec<Torrent>| l@)
}

/// All collected lists laid end to end, in arrival order.
pub open spec fn concat_all(lists: Seq<Seq<Torrent>>) -> Seq<Torrent>
    decreases lists.len(),
{
    if lists.len() == 0 {
        Seq::empty()
    } else {
        concat_all(lists.drop_last()) + lists.last()
    }
}

/// Total record count over a batch of lists.
pub open spec fn total_len(lists: Seq<Seq<Torrent>>) -> int
    decreases lists.len(),
{
    if lists.len() == 0 {
        0
    } else {
        total_len(lists.drop_last()) + lists.last().len()
    }
}

/// Fan-in over any number of task contributions loses nothing and adds
/// nothing: the working list holds exactly the sum of the list lengths.
pub proof fn lemma_concat_all_len(lists: Seq<Seq<Torrent>>)
    ensures
        concat_all(lists).len() == total_len(lists),
        total_len(lists) >= 0,
    decreases lists.len(),
{
    if lists.len() > 0 {
        lemma_concat_all_len(lists.drop_last());
    }
}

/// A task that contributes an empty list leaves the working list
/// exactly as if the task had not run at all.
pub proof fn lemma_empty_contribution(lists: Seq<Seq<Torrent>>, i: int)
    requires
        0 <= i < lists.len(),
        lists[i].len() == 0,
    ensures
        concat_all(lists.remove(i)) == concat_all(lists),
    decreases lists.len(),
{
    if i == lists.len() - 1 {
        assert(lists.remove(i) =~= lists.drop_last());
        assert(lists.last() =~= Seq::<Torrent>::empty());
        assert(concat_all(lists.drop_last()) + lists.last() =~= concat_all(lists.drop_last()));
    } else {
        assert(lists.remove(i).drop_last() =~= lists.drop_last().remove(i));
        assert(lists.drop_last()[i] == lists[i]);
        lemma_empty_contribution(lists.drop_last(), i);
        assert(lists.remove(i).last() == lists.last());
    }
}

/// Drains a batch of task results into one working list, in arrival
/// order.
#[verifier::loop_isolation(false)]
#[verifier::rlimit(30)]
pub fn collect_results(lists: Vec<Vec<Torrent>>) -> (r: Vec<Torrent>)
    ensures
        r@ == concat_all(views_of(lists@)),
{
    let ghost orig = views_of(lists@);
    let mut rem = lists;
    let mut out: Vec<Torrent> = Vec::new();
    proof {
        assert(orig.subrange(0, 0) =~= Seq::<Seq<Torrent>>::empty());
        assert(orig.subrange(0, orig.len() as int) =~= orig);
    }
    while rem.len() > 0
        invariant
            rem@.len() <= orig.len(),
            views_of(rem@) == orig.subrange(orig.len() - rem@.len(), orig.len() as int),
            out@ == concat_all(orig.subrange(0, orig.len() - rem@.len())),
        decreases rem@.len(),
    {
        let ghost m = orig.len() - rem@.len();
        let ghost old_rem = rem@;
        let mut l = rem.remove(0);
        proof {
            assert(views_of(old_rem)[0] == old_rem[0]@);
            assert(l@ == orig[m as int]);
            assert(views_of(rem@) =~= orig.subrange(m as int + 1, orig.len() as int)) by {
                assert(views_of(rem@).len() == rem@.len());
                assert forall|j: int| 0 <= j < rem@.len() implies views_of(rem@)[j] == orig[m + 1
                    + j] by {
                    assert(rem@[j] == old_rem[j + 1]);
                    assert(views_of(old_rem)[j + 1] == old_rem[j + 1]@);
                    assert(views_of(old_rem)[j + 1] == orig[m + 1 + j]);
                }
            }
        }
        out.append(&mut l);
        proof {
            assert(orig.subrange(0, m + 1).drop_last() =~= orig.subrange(0, m as int));
            assert(orig.subrange(0, m + 1).last() == orig[m as int]);
        }
    }
    out
}

/// What one whole search hands the presentation layer: every collected
/// record, stably sorted descending by the chosen key, cut to the
/// display limit.
pub open spec fn aggregate_spec(lists: Seq<Seq<Torrent>>, mode: Sort, limit: int) -> Seq<Torrent> {
    let sorted = sort_desc(mode, concat_all(lists));
    if sorted.len() > limit {
        sorted.take(limit)
    } else {
        sorted
    }
}

/// A task that failed and deposited an empty list is invisible to the
/// search: the aggregator's output is exactly what it would have been
/// had the task never been dispatched.
pub proof fn lemma_failed_task_invisible(lists: Seq<Seq<Torrent>>, i: int, mode: Sort, limit: int)
    requires
        0 <= i < lists.len(),
        lists[i].len() == 0,
    ensures
        aggregate_spec(lists.remove(i), mode, limit) == aggregate_spec(lists, mode, limit),
{
    lemma_empty_contribution(lists, i);
}

/// What the presentation layer receives is in descending key order:
/// truncation only drops rank-losers from the end.
pub proof fn lemma_aggregate_sorted(lists: Seq<Seq<Torrent>>, mode: Sort, limit: int)
    requires
        limit >= 0,
    ensures
        sorted_desc(mode, aggregate_spec(lists, mode, limit)),
{
    let sorted = sort_desc(mode, concat_all(lists));
    lemma_sort_desc_sorted(mode, concat_all(lists));
    let out = aggregate_spec(lists, mode, limit);
    assert forall|i: int, j: int| 0 <= i <= j < out.len() implies rank_key(mode, out[i])
        >= rank_key(mode, out[j]) by {
        assert(out[i] == sorted[i]);
        assert(out[j] == sorted[j]);
    }
}

/// Fan-in, rank and truncate: concatenates the collected lists in
/// arrival order, sorts them stably descending by the chosen key, and
/// keeps the first `limit` entries.
pub fn aggregate(lists: Vec<Vec<Torrent>>, mode: &Sort, limit: usize) -> (r: Vec<Torrent>)
    ensures
        r@ == aggregate_spec(views_of(lists@), *mode, limit as int),
        r@.len() == (if total_len(views_of(lists@)) <= limit as int {
            total_len(views_of(lists@))
        } else {
            limit as int
        }),
{
    let all = collect_results(lists);
    proof {
        lemma_concat_all_len(views_of(lists@));
        lemma_sort_desc_sorted(*mode, all@);
    }
    let mut sorted = sort_torrents(mode, all);
    if sorted.len() > limit {
        sorted.truncate(limit);
        proof {
            assert(sorted@ =~= sort_desc(*mode, concat_all(views_of(lists@))).take(limit as int));
        }
    }
    sorted
}

} // verus!
