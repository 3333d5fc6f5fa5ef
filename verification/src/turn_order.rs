//! Turn order mathematics: what it means for a roster to be sorted by
//! initiative, which initiative values are tied, and why scanning adjacent
//! pairs of a sorted roster finds exactly the repeated values.

use vstd::prelude::*;
use vstd::seq_lib::lemma_multiset_commutative;
use crate::entry::{EntryView, InitiativeTrackerEntry};

verus! {

/// The ghost sequence of row models underneath a vector of rows.
pub open spec fn entry_views(s: Seq<InitiativeTrackerEntry>) -> Seq<EntryView> {
    s.map_values(|e: InitiativeTrackerEntry| e@)
}

/// Initiative scores are non-increasing from front to back: higher acts first.
pub open spec fn sorted_desc(s: Seq<EntryView>) -> bool {
    forall|x: int, y: int|
        #![trigger s[x], s[y]]
        0 <= x < y < s.len() ==> s[x].initiative >= s[y].initiative
}

/// The subsequence of rows whose initiative equals k, in their current order.
pub open spec fn entries_with_init(s: Seq<EntryView>, k: int) -> Seq<EntryView>
    decreases s.len(),
{
    if s.len() == 0 {
        Seq::empty()
    } else if s.first().initiative == k {
        seq![s.first()] + entries_with_init(s.drop_first(), k)
    } else {
        entries_with_init(s.drop_first(), k)
    }
}

/// How many rows hold initiative k.
pub open spec fn count_init(s: Seq<EntryView>, k: int) -> int {
    entries_with_init(s, k).len() as int
}

/// Some adjacent pair of rows shares the initiative v.
pub open spec fn has_adjacent_tie(s: Seq<EntryView>, v: int) -> bool {
    exists|x: int|
        0 <= x && x + 1 < s.len() && (#[trigger] s[x]).initiative == v && s[x + 1].initiative == v
}

/// A strictly decreasing sequence of integers; in particular, all distinct.
pub open spec fn strictly_decreasing(s: Seq<int>) -> bool {
    forall|x: int, y: int| #![trigger s[x], s[y]] 0 <= x < y < s.len() ==> s[x] > s[y]
}

/// Splitting a roster splits its per-initiative subsequences.
proof fn lemma_with_init_distributes(a: Seq<EntryView>, b: Seq<EntryView>, k: int)
    ensures
        entries_with_init(a + b, k) == entries_with_init(a, k) + entries_with_init(b, k),
    decreases a.len(),
{
    if a.len() == 0 {
        assert(a + b =~= b);
        assert(entries_with_init(a, k) + entries_with_init(b, k) =~= entries_with_init(b, k));
    } else {
        assert((a + b).len() > 0);
        assert((a + b).first() == a.first());
        assert((a + b).drop_first() =~= a.drop_first() + b);
        lemma_with_init_distributes(a.drop_first(), b, k);
        assert(entries_with_init(a + b, k) =~= entries_with_init(a, k) + entries_with_init(b, k));
    }
}

/// Every row of the per-initiative subsequence holds that initiative, the
/// subsequence is no longer than the roster, and it is non-empty exactly when
/// some row holds that initiative.
proof fn lemma_with_init_members(s: Seq<EntryView>, k: int)
    ensures
        forall|j: int|
            0 <= j < entries_with_init(s, k).len() ==> (#[trigger] entries_with_init(
                s,
                k,
            )[j]).initiative == k,
        count_init(s, k) <= s.len(),
        (exists|i: int| 0 <= i < s.len() && (#[trigger] s[i]).initiative == k) <==> count_init(
            s,
            k,
        ) >= 1,
    decreases s.len(),
{
    if s.len() == 0 {
    } else {
        lemma_with_init_members(s.drop_first(), k);
        assert(forall|i: int|
            0 <= i < s.drop_first().len() ==> #[trigger] s.drop_first()[i] == s[i + 1]);
        if s.first().initiative == k {
            assert(entries_with_init(s, k) == seq![s.first()] + entries_with_init(
                s.drop_first(),
                k,
            ));
            assert(entries_with_init(s, k)[0] == s.first());
            assert(s[0].initiative == k);
        } else {
            if count_init(s, k) >= 1 {
                let i = choose|i: int|
                    0 <= i < s.drop_first().len() && (#[trigger] s.drop_first()[i]).initiative
                        == k;
                assert(s[i + 1].initiative == k);
            }
            if exists|i: int| 0 <= i < s.len() && (#[trigger] s[i]).initiative == k {
                let i = choose|i: int| 0 <= i < s.len() && (#[trigger] s[i]).initiative == k;
                assert(i >= 1);
                assert(s.drop_first()[i - 1].initiative == k);
            }
        }
    }
}

/// A repeated initiative yields two distinct positions holding it.
proof fn lemma_count_two_exists(s: Seq<EntryView>, k: int)
    requires
        count_init(s, k) >= 2,
    ensures
        exists|a: int, b: int|
            0 <= a < b < s.len() && (#[trigger] s[a]).initiative == k && (#[trigger] s[b]).initiative
                == k,
    decreases s.len(),
{
    lemma_with_init_members(s, k);
    assert(s.len() >= 2);
    lemma_with_init_members(s.drop_first(), k);
    assert(forall|i: int|
        0 <= i < s.drop_first().len() ==> #[trigger] s.drop_first()[i] == s[i + 1]);
    if s.first().initiative == k {
        assert(count_init(s.drop_first(), k) >= 1);
        let i = choose|i: int|
            0 <= i < s.drop_first().len() && (#[trigger] s.drop_first()[i]).initiative == k;
        assert(s[0].initiative == k && s[i + 1].initiative == k && 0 < i + 1 < s.len());
    } else {
        lemma_count_two_exists(s.drop_first(), k);
        let (a, b) = choose|a: int, b: int|
            0 <= a < b < s.drop_first().len() && (#[trigger] s.drop_first()[a]).initiative == k && (
            #[trigger] s.drop_first()[b]).initiative == k;
        assert(s[a + 1].initiative == k && s[b + 1].initiative == k && 0 <= a + 1 < b + 1
            < s.len());
    }
}

/// Two distinct positions holding an initiative make it a repeated one.
proof fn lemma_exists_two_count(s: Seq<EntryView>, k: int, a: int, b: int)
    requires
        0 <= a < b < s.len(),
        s[a].initiative == k,
        s[b].initiative == k,
    ensures
        count_init(s, k) >= 2,
    decreases s.len(),
{
    assert(forall|i: int|
        0 <= i < s.drop_first().len() ==> #[trigger] s.drop_first()[i] == s[i + 1]);
    if a == 0 {
        lemma_with_init_members(s.drop_first(), k);
        assert(s.drop_first()[b - 1].initiative == k);
        assert(count_init(s.drop_first(), k) >= 1);
    } else {
        lemma_exists_two_count(s.drop_first(), k, a - 1, b - 1);
    }
}

/// Scanning adjacent pairs finds exactly the repeated initiative values, but
/// only on a roster that is already sorted: detection must run right after the
/// sort, never before it.
pub proof fn lemma_adjacent_tie_iff_repeated(s: Seq<EntryView>, v: int)
    requires
        sorted_desc(s),
    ensures
        has_adjacent_tie(s, v) <==> count_init(s, v) >= 2,
{
    if has_adjacent_tie(s, v) {
        let x = choose|x: int|
            0 <= x && x + 1 < s.len() && (#[trigger] s[x]).initiative == v && s[x + 1].initiative
                == v;
        lemma_exists_two_count(s, v, x, x + 1);
    }
    if count_init(s, v) >= 2 {
        lemma_count_two_exists(s, v);
        let (a, b) = choose|a: int, b: int|
            0 <= a < b < s.len() && (#[trigger] s[a]).initiative == v && (#[trigger] s[b]).initiative
                == v;
        assert(s[a].initiative >= s[a + 1].initiative);
        if a + 1 < b {
            assert(s[a + 1].initiative >= s[b].initiative);
        }
        assert(s[a].initiative == v && s[a + 1].initiative == v);
        assert(has_adjacent_tie(s, v));
    }
}

/// No row holds initiative k: the per-initiative subsequence is empty.
proof fn lemma_with_init_absent(s: Seq<EntryView>, k: int)
    requires
        forall|i: int| 0 <= i < s.len() ==> (#[trigger] s[i]).initiative != k,
    ensures
        entries_with_init(s, k) == Seq::<EntryView>::empty(),
    decreases s.len(),
{
    if s.len() == 0 {
    } else {
        assert(forall|i: int|
            0 <= i < s.drop_first().len() ==> #[trigger] s.drop_first()[i] == s[i + 1]);
        lemma_with_init_absent(s.drop_first(), k);
        assert(s.first() == s[0]);
    }
}

/// Initiative scores are non-increasing among the first n rows.
spec fn sorted_prefix(s: Seq<EntryView>, n: int) -> bool {
    forall|x: int, y: int|
        #![trigger s[x], s[y]]
        0 <= x < y < n && y < s.len() ==> s[x].initiative >= s[y].initiative
}

/// Taking views commutes with removing a row.
proof fn lemma_entry_views_remove(s: Seq<InitiativeTrackerEntry>, j: int)
    requires
        0 <= j < s.len(),
    ensures
        entry_views(s.remove(j)) == entry_views(s).remove(j),
{
    assert(entry_views(s.remove(j)) =~= entry_views(s).remove(j));
}

/// Taking views commutes with inserting a row.
proof fn lemma_entry_views_insert(s: Seq<InitiativeTrackerEntry>, i: int, e: InitiativeTrackerEntry)
    requires
        0 <= i <= s.len(),
    ensures
        entry_views(s.insert(i, e)) == entry_views(s).insert(i, e@),
{
    assert(entry_views(s.insert(i, e)) =~= entry_views(s).insert(i, e@));
}

/// Moving the row at j forward to position i, past rows of other initiative
/// values only, keeps every per-initiative subsequence intact.
proof fn lemma_stable_shift(vs: Seq<EntryView>, i: int, j: int)
    requires
        0 <= i < j < vs.len(),
        forall|x: int| i <= x < j ==> (#[trigger] vs[x]).initiative != vs[j].initiative,
    ensures
        forall|k: int| #[trigger] entries_with_init(vs.remove(j).insert(i, vs[j]), k)
            == entries_with_init(vs, k),
{
    let ev = vs[j];
    let nv = vs.remove(j).insert(i, ev);
    let a = vs.subrange(0, i);
    let b = vs.subrange(i, j);
    let c = vs.subrange(j + 1, vs.len() as int);
    assert(vs =~= a + b + seq![ev] + c);
    assert(nv =~= a + seq![ev] + b + c);
    assert forall|k: int| #[trigger] entries_with_init(nv, k) == entries_with_init(vs, k) by {
        lemma_with_init_distributes(a + b + seq![ev], c, k);
        lemma_with_init_distributes(a + b, seq![ev], k);
        lemma_with_init_distributes(a, b, k);
        lemma_with_init_distributes(a + seq![ev] + b, c, k);
        lemma_with_init_distributes(a + seq![ev], b, k);
        lemma_with_init_distributes(a, seq![ev], k);
        lemma_with_init_singleton(ev, k);
        let wa = entries_with_init(a, k);
        let wb = entries_with_init(b, k);
        let we = entries_with_init(seq![ev], k);
        let wc = entries_with_init(c, k);
        assert(entries_with_init(vs, k) == wa + wb + we + wc);
        assert(entries_with_init(nv, k) == wa + we + wb + wc);
        if k == ev.initiative {
            assert(forall|x: int| 0 <= x < b.len() ==> (#[trigger] b[x]).initiative != k);
            lemma_with_init_absent(b, k);
            assert(wa + wb + we + wc =~= wa + we + wb + wc);
        } else {
            assert(we =~= Seq::<EntryView>::empty());
            assert(wa + wb + we + wc =~= wa + we + wb + wc);
        }
    }
}

/// Stable insertion sort of the roster by descending initiative. The result
/// is a reordering of the input: for every initiative value, the rows holding
/// it are the same and keep their relative order.
#[verifier::loop_isolation(false)]
pub fn sort_entries_by_initiative(entries: &mut Vec<InitiativeTrackerEntry>)
    ensures
        final(entries)@.len() == old(entries)@.len(),
        sorted_desc(entry_views(final(entries)@)),
        forall|k: int| #[trigger] entries_with_init(entry_views(final(entries)@), k)
            == entries_with_init(entry_views(old(entries)@), k),
{
    let ghost orig: Seq<EntryView> = entry_views(old(entries)@);
    if entries.len() <= 1 {
        proof {
            assert(sorted_desc(entry_views(entries@)));
        }
        return ;
    }
    let mut j: usize = 1;
    while j < entries.len()
        invariant
            1 <= j <= entries@.len(),
            entries@.len() == orig.len(),
            sorted_prefix(entry_views(entries@), j as int),
            forall|k: int| #[trigger] entries_with_init(entry_views(entries@), k)
                == entries_with_init(orig, k),
        decreases entries@.len() - j,
    {
        let key_init = entries[j].initiative;
        let mut i: usize = 0;
        while i < j && entries[i].initiative >= key_init
            invariant
                0 <= i <= j,
                forall|x: int|
                    0 <= x < i ==> (#[trigger] entry_views(entries@)[x]).initiative >= key_init,
            decreases j - i,
        {
            i += 1;
        }
        if i < j {
            let ghost es = entries@;
            let ghost vs = entry_views(entries@);
            let ghost ev = vs[j as int];
            proof {
                assert(ev.initiative == key_init);
                assert(vs[i as int].initiative < key_init);
                assert(forall|x: int| i <= x < j ==> (#[trigger] vs[x]).initiative < key_init);
                assert(forall|x: int| 0 <= x < i ==> (#[trigger] vs[x]).initiative >= key_init);
            }
            let e = entries.remove(j);
            entries.insert(i, e);
            proof {
                lemma_entry_views_remove(es, j as int);
                lemma_entry_views_insert(es.remove(j as int), i as int, e);
                let nv = entry_views(entries@);
                assert(nv == vs.remove(j as int).insert(i as int, ev));
                lemma_stable_shift(vs, i as int, j as int);
                assert(forall|x: int| 0 <= x < i ==> nv[x] == vs[x]);
                assert(nv[i as int] == ev);
                assert(forall|x: int| i < x <= j ==> nv[x] == vs[x - 1]);
                assert(forall|x: int| 0 <= x < i ==> (#[trigger] nv[x]).initiative >= key_init);
                assert(forall|x: int| i < x <= j ==> (#[trigger] nv[x]).initiative < key_init);
                assert forall|x: int, y: int|
                    0 <= x < y < j + 1 && y < nv.len() implies (#[trigger] nv[x]).initiative >= (
                #[trigger] nv[y]).initiative by {
                    if y < i {
                        assert(nv[x] == vs[x] && nv[y] == vs[y]);
                    } else if y == i {
                        assert(nv[x] == vs[x]);
                        assert(vs[x].initiative >= key_init);
                    } else if x > i {
                        assert(nv[x] == vs[x - 1] && nv[y] == vs[y - 1]);
                    }
                }
                assert(sorted_prefix(nv, j as int + 1));
            }
            j += 1;
        } else {
            j += 1;
        }
    }
}

/// A row is counted in the roster exactly as often as in the per-initiative
/// subsequence for its own initiative.
proof fn lemma_with_init_count(s: Seq<EntryView>, x: EntryView)
    ensures
        s.to_multiset().count(x) == entries_with_init(s, x.initiative).to_multiset().count(x),
    decreases s.len(),
{
    broadcast use vstd::seq_lib::group_to_multiset_ensures;
    broadcast use vstd::multiset::group_multiset_axioms;

    let k = x.initiative;
    if s.len() == 0 {
        assert(!s.contains(x));
        assert(entries_with_init(s, k) == s);
    } else {
        let first = s.first();
        let rest = s.drop_first();
        lemma_with_init_count(rest, x);
        assert(s.remove(0) =~= rest);
        assert(rest.to_multiset() =~= s.to_multiset().remove(s[0]));
        assert(s.contains(s[0]));
        assert(s.to_multiset().count(s[0]) >= 1);
        assert(s.to_multiset().count(x) == rest.to_multiset().count(x) + (if first == x {
            1int
        } else {
            0int
        }));
        let wr = entries_with_init(rest, k);
        if first.initiative == k {
            assert(entries_with_init(s, k) == seq![first] + wr);
            lemma_multiset_commutative(seq![first], wr);
            assert(seq![first] =~= Seq::<EntryView>::empty().push(first));
            assert(seq![first].to_multiset() =~= Seq::<EntryView>::empty().to_multiset().insert(
                first,
            ));
            assert(!Seq::<EntryView>::empty().contains(x));
            assert(seq![first].to_multiset().count(x) == (if first == x {
                1int
            } else {
                0int
            }));
        } else {
            assert(entries_with_init(s, k) == wr);
            assert(first != x);
        }
    }
}

/// Two rosters whose per-initiative subsequences all agree hold the same rows
/// with the same multiplicities: one is a reordering of the other.
pub proof fn lemma_same_groups_is_permutation(s: Seq<EntryView>, t: Seq<EntryView>)
    requires
        forall|k: int| #[trigger] entries_with_init(s, k) == entries_with_init(t, k),
    ensures
        s.to_multiset() == t.to_multiset(),
{
    assert forall|x: EntryView| s.to_multiset().count(x) == t.to_multiset().count(x) by {
        lemma_with_init_count(s, x);
        lemma_with_init_count(t, x);
        assert(entries_with_init(s, x.initiative) == entries_with_init(t, x.initiative));
    }
    assert(s.to_multiset() =~= t.to_multiset());
}

/// The ghost sequence of integers underneath a vector of scores.
pub open spec fn int_views(s: Seq<i32>) -> Seq<int> {
    s.map_values(|x: i32| x as int)
}

/// Some adjacent pair among the first n pair positions shares the initiative v.
spec fn has_adjacent_tie_upto(s: Seq<EntryView>, v: int, n: int) -> bool {
    exists|x: int|
        0 <= x < n && x + 1 < s.len() && (#[trigger] s[x]).initiative == v && s[x + 1].initiative
            == v
}

/// Scans adjacent pairs of a sorted roster and records each tied initiative
/// value once, highest first: exactly the values held by two or more rows.
#[verifier::loop_isolation(false)]
pub fn detect_ties(entries: &Vec<InitiativeTrackerEntry>) -> (tied: Vec<i32>)
    requires
        sorted_desc(entry_views(entries@)),
    ensures
        forall|v: int| #[trigger] int_views(tied@).contains(v) <==> count_init(
            entry_views(entries@),
            v,
        ) >= 2,
        strictly_decreasing(int_views(tied@)),
{
    let ghost vs = entry_views(entries@);
    let mut tied: Vec<i32> = Vec::new();
    let n = entries.len();
    if n == 0 {
        proof {
            assert forall|v: int| !(count_init(vs, v) >= 2) by {
                lemma_with_init_members(vs, v);
            }
        }
        return tied;
    }
    let mut idx: usize = 0;
    while idx < n - 1
        invariant
            0 <= idx <= n - 1,
            strictly_decreasing(int_views(tied@)),
            forall|v: int| #[trigger] int_views(tied@).contains(v) <==> has_adjacent_tie_upto(
                vs,
                v,
                idx as int,
            ),
            tied@.len() > 0 ==> exists|x: int|
                0 <= x < idx && (#[trigger] vs[x]).initiative == int_views(tied@).last(),
        decreases n - 1 - idx,
    {
        let ghost tv = int_views(tied@);
        if entries[idx].initiative == entries[idx + 1].initiative {
            let v = entries[idx].initiative;
            proof {
                assert(vs[idx as int].initiative == v as int);
                assert(vs[idx as int + 1].initiative == v as int);
            }
            let push_it = tied.len() == 0 || tied[tied.len() - 1] != v;
            if push_it {
                proof {
                    if tied@.len() > 0 {
                        let w = tv.last();
                        assert(tv[tv.len() - 1] == w);
                        let x = choose|x: int|
                            0 <= x < idx && (#[trigger] vs[x]).initiative == w;
                        assert(vs[x].initiative >= vs[idx as int].initiative);
                        assert(w > v as int);
                        assert(forall|p: int| 0 <= p < tv.len() - 1 ==> #[trigger] tv[p] > w);
                    }
                }
                tied.push(v);
                proof {
                    let tv2 = int_views(tied@);
                    assert(tv2 =~= tv.push(v as int));
                    assert(forall|p: int| 0 <= p < tv.len() ==> #[trigger] tv2[p] == tv[p]);
                    assert(tv2[tv.len() as int] == v as int);
                    assert(strictly_decreasing(tv2));
                    assert(tv2.last() == v as int);
                    assert(vs[idx as int].initiative == v as int);
                    assert forall|u: int| #[trigger] tv2.contains(u) <==> has_adjacent_tie_upto(
                        vs,
                        u,
                        idx as int + 1,
                    ) by {
                        if tv2.contains(u) {
                            let p = choose|p: int| 0 <= p < tv2.len() && tv2[p] == u;
                            if p < tv.len() {
                                assert(tv.contains(u));
                                assert(has_adjacent_tie_upto(vs, u, idx as int));
                            } else {
                                assert(u == v as int);
                                assert(has_adjacent_tie_upto(vs, u, idx as int + 1));
                            }
                        }
                        if has_adjacent_tie_upto(vs, u, idx as int + 1) {
                            let x = choose|x: int|
                                0 <= x < idx as int + 1 && x + 1 < vs.len() && (
                                #[trigger] vs[x]).initiative == u && vs[x + 1].initiative == u;
                            if x < idx {
                                assert(has_adjacent_tie_upto(vs, u, idx as int));
                                assert(tv.contains(u));
                                let p = choose|p: int| 0 <= p < tv.len() && tv[p] == u;
                                assert(tv2[p] == u);
                            } else {
                                assert(u == v as int);
                                assert(tv2[tv.len() as int] == u);
                            }
                        }
                    }
                }
            } else {
                proof {
                    assert(tv.last() == v as int);
                    assert(tv[tv.len() - 1] == v as int);
                    assert(tv.contains(v as int));
                    assert forall|u: int| #[trigger] tv.contains(u) <==> has_adjacent_tie_upto(
                        vs,
                        u,
                        idx as int + 1,
                    ) by {
                        if has_adjacent_tie_upto(vs, u, idx as int + 1) {
                            let x = choose|x: int|
                                0 <= x < idx as int + 1 && x + 1 < vs.len() && (
                                #[trigger] vs[x]).initiative == u && vs[x + 1].initiative == u;
                            if x < idx {
                                assert(has_adjacent_tie_upto(vs, u, idx as int));
                            } else {
                                assert(u == v as int);
                            }
                        }
                        if tv.contains(u) {
                            assert(has_adjacent_tie_upto(vs, u, idx as int));
                        }
                    }
                    assert(vs[idx as int].initiative == tv.last());
                }
            }
        } else {
            proof {
                assert forall|u: int| has_adjacent_tie_upto(vs, u, idx as int + 1)
                    <==> has_adjacent_tie_upto(vs, u, idx as int) by {
                    if has_adjacent_tie_upto(vs, u, idx as int + 1) {
                        let x = choose|x: int|
                            0 <= x < idx as int + 1 && x + 1 < vs.len() && (
                            #[trigger] vs[x]).initiative == u && vs[x + 1].initiative == u;
                        assert(x < idx);
                    }
                }
            }
        }
        idx += 1;
    }
    proof {
        assert forall|v: int| #[trigger] int_views(tied@).contains(v) <==> count_init(vs, v)
            >= 2 by {
            lemma_adjacent_tie_iff_repeated(vs, v);
            assert(has_adjacent_tie_upto(vs, v, n - 1 as int) == has_adjacent_tie(vs, v));
        }
    }
    tied
}

/// The per-initiative subsequence of a single row.
proof fn lemma_with_init_singleton(e: EntryView, k: int)
    ensures
        entries_with_init(seq![e], k) == if e.initiative == k {
            seq![e]
        } else {
            Seq::<EntryView>::empty()
        },
{
    let s = seq![e];
    assert(s.first() == e);
    assert(s.drop_first() =~= Seq::<EntryView>::empty());
    assert(entries_with_init(Seq::<EntryView>::empty(), k) == Seq::<EntryView>::empty());
    if e.initiative == k {
        assert(entries_with_init(s, k) =~= seq![e]);
    } else {
        assert(entries_with_init(s, k) =~= Seq::<EntryView>::empty());
    }
}

} // verus!
