//! The initiative tracker: an ordered combatant roster, the active turn, a
//! round counter, and the pending tie-resolution state.

use vstd::prelude::*;
use crate::entry::{
    EntryView, InitiativeTrackerEntry, PcInfo, default_entry_view, pc_entry_view, clamped_hp,
};
use crate::turn_order::{
    entry_views, int_views, sorted_desc, strictly_decreasing, count_init, entries_with_init,
    sort_entries_by_initiative, detect_ties,
};

verus! {

/// Mathematical model of the whole tracker.
#[verifier::ext_equal]
pub struct TrackerView {
    pub entries: Seq<EntryView>,
    pub active_index: Option<int>,
    pub round_count: int,
    pub show_tie_breaker: bool,
    pub tied_init: Seq<int>,
}

impl TrackerView {
    /// The tracker's invariant: the active index, when present, names a row;
    /// rounds count from 1; the tie-resolution dialog shows exactly while tied
    /// values are pending; and the pending values are strictly decreasing, so
    /// each repeated initiative appears at most once.
    pub open spec fn wf(self) -> bool {
        &&& match self.active_index {
            Some(i) => 0 <= i < self.entries.len(),
            None => true,
        }
        &&& self.round_count >= 1
        &&& (self.show_tie_breaker <==> self.tied_init.len() > 0)
        &&& strictly_decreasing(self.tied_init)
    }
}

/// The models of the entries appended for a sequence of loaded records.
pub open spec fn pc_entry_views(ps: Seq<PcInfo>) -> Seq<EntryView> {
    ps.map_values(|p: PcInfo| pc_entry_view(p.name@, p.hp as int))
}

/// The combat tracker state.
pub struct InitiativeTracker {
    /// The combatant roster; once sorted, its order is the turn order.
    pub entries: Vec<InitiativeTrackerEntry>,
    /// Whose turn it is; None before combat starts.
    pub active_index: Option<usize>,
    /// The current round, starting at 1.
    pub round_count: u32,
    /// Whether the tie-resolution dialog is showing.
    pub show_tie_breaker: bool,
    /// The initiative values still tied and awaiting manual ordering.
    pub tied_init: Vec<i32>,
}

impl View for InitiativeTracker {
    type V = TrackerView;

    open spec fn view(&self) -> TrackerView {
        TrackerView {
            entries: entry_views(self.entries@),
            active_index: match self.active_index {
                Some(i) => Some(i as int),
                None => None,
            },
            round_count: self.round_count as int,
            show_tie_breaker: self.show_tie_breaker,
            tied_init: int_views(self.tied_init@),
        }
    }
}

impl Default for InitiativeTracker {
    /// A tracker with no combatants, no active turn, round 1, and no ties.
    fn default() -> (t: Self)
        ensures
            t@.entries.len() == 0,
            t@.active_index is None,
            t@.round_count == 1,
            !t@.show_tie_breaker,
            t@.tied_init.len() == 0,
            t@.wf(),
    {
        InitiativeTracker {
            entries: Vec::new(),
            active_index: None,
            round_count: 1,
            show_tie_breaker: false,
            tied_init: Vec::new(),
        }
    }
}

/// The active index after one "Next Turn" from position a among n rows.
pub open spec fn next_active(a: int, n: int) -> int {
    if a + 1 == n {
        0
    } else {
        a + 1
    }
}

/// One "Next Turn": nothing on an empty roster; otherwise activate the first
/// row if none is active, or advance cyclically, counting a new round on wrap.
pub open spec fn next_turn_spec(t: TrackerView) -> TrackerView {
    if t.entries.len() == 0 {
        t
    } else {
        match t.active_index {
            None => TrackerView { active_index: Some(0), ..t },
            Some(a) => {
                let nxt = next_active(a, t.entries.len() as int);
                TrackerView {
                    active_index: Some(nxt),
                    round_count: if nxt == 0 {
                        t.round_count + 1
                    } else {
                        t.round_count
                    },
                    ..t
                }
            },
        }
    }
}

impl InitiativeTracker {
    /// Appends a fresh template combatant to the roster.
    pub fn add_default_entry(&mut self)
        requires
            old(self)@.wf(),
        ensures
            final(self)@ == (TrackerView {
                entries: old(self)@.entries.push(default_entry_view()),
                ..old(self)@
            }),
            final(self)@.wf(),
    {
        self.entries.push(InitiativeTrackerEntry::default());
        proof {
            assert(entry_views(self.entries@) =~= entry_views(old(self).entries@).push(
                default_entry_view(),
            ));
            assert(self@ =~= (TrackerView {
                entries: old(self)@.entries.push(default_entry_view()),
                ..old(self)@
            }));
        }
    }

    /// Appends one combatant per loaded player-character record, in order:
    /// current and total hit points from the record, everything else default.
    pub fn add_loaded_pcs(&mut self, pcs: &Vec<PcInfo>)
        requires
            old(self)@.wf(),
        ensures
            final(self)@ == (TrackerView {
                entries: old(self)@.entries + pc_entry_views(pcs@),
                ..old(self)@
            }),
            final(self)@.wf(),
    {
        let mut i: usize = 0;
        while i < pcs.len()
            invariant
                0 <= i <= pcs@.len(),
                entry_views(self.entries@) == entry_views(old(self).entries@) + pc_entry_views(
                    pcs@,
                ).take(i as int),
                self.active_index == old(self).active_index,
                self.round_count == old(self).round_count,
                self.show_tie_breaker == old(self).show_tie_breaker,
                self.tied_init == old(self).tied_init,
            decreases pcs@.len() - i,
        {
            let e = InitiativeTrackerEntry::from_pc(&pcs[i]);
            let ghost pre = self.entries@;
            self.entries.push(e);
            proof {
                assert(self.entries@ == pre.push(e));
                assert(entry_views(self.entries@) =~= entry_views(pre).push(e@));
                assert(e@ == pc_entry_views(pcs@)[i as int]);
                assert(entry_views(self.entries@) =~= entry_views(old(self).entries@)
                    + pc_entry_views(pcs@).take(i as int + 1));
            }
            i += 1;
        }
        proof {
            assert(pc_entry_views(pcs@).take(pcs@.len() as int) =~= pc_entry_views(pcs@));
            assert(self@ =~= (TrackerView {
                entries: old(self)@.entries + pc_entry_views(pcs@),
                ..old(self)@
            }));
        }
    }

    /// Removes the row at position i. The active index keeps pointing at a
    /// valid row: it slides down past the removed row, wraps to the front if
    /// the last row was the active one, and clears when the roster empties.
    pub fn remove_entry(&mut self, i: usize)
        requires
            old(self)@.wf(),
            i < old(self)@.entries.len(),
        ensures
            final(self)@ == (TrackerView {
                entries: old(self)@.entries.remove(i as int),
                active_index: active_after_remove(
                    old(self)@.active_index,
                    i as int,
                    old(self)@.entries.len() as int,
                ),
                ..old(self)@
            }),
            final(self)@.wf(),
    {
        self.entries.remove(i);
        match self.active_index {
            Some(a) => {
                if self.entries.len() == 0 {
                    self.active_index = None;
                } else if a > i {
                    self.active_index = Some(a - 1);
                } else if a == i && a >= self.entries.len() {
                    self.active_index = Some(0);
                }
            },
            None => {},
        }
        proof {
            assert(entry_views(self.entries@) =~= entry_views(old(self).entries@).remove(i as int));
            assert(self@ =~= (TrackerView {
                entries: old(self)@.entries.remove(i as int),
                active_index: active_after_remove(
                    old(self)@.active_index,
                    i as int,
                    old(self)@.entries.len() as int,
                ),
                ..old(self)@
            }));
        }
    }

    /// "Update HP" on the row at position i: apply its pending signed delta
    /// and clamp into [0, total].
    pub fn update_hp(&mut self, i: usize)
        requires
            old(self)@.wf(),
            i < old(self)@.entries.len(),
            old(self)@.entries[i as int].hp_total >= 0,
        ensures
            final(self)@ == (TrackerView {
                entries: old(self)@.entries.update(i as int, (EntryView {
                    hp_current: clamped_hp(
                        old(self)@.entries[i as int].hp_current + old(self)@.entries[
                            i as int
                        ].hp_update * old(self)@.entries[i as int].update_sign,
                        old(self)@.entries[i as int].hp_total,
                    ),
                    ..old(self)@.entries[i as int]
                })),
                ..old(self)@
            }),
            0 <= final(self)@.entries[i as int].hp_current <= final(self)@.entries[
                i as int
            ].hp_total,
            final(self)@.wf(),
    {
        let e = &mut self.entries[i];
        e.apply_hp_update();
        proof {
            assert(entry_views(self.entries@) =~= entry_views(old(self).entries@).update(
                i as int,
                (EntryView {
                    hp_current: clamped_hp(
                        old(self)@.entries[i as int].hp_current + old(self)@.entries[
                            i as int
                        ].hp_update * old(self)@.entries[i as int].update_sign,
                        old(self)@.entries[i as int].hp_total,
                    ),
                    ..old(self)@.entries[i as int]
                }),
            ));
            assert(self@ =~= (TrackerView {
                entries: entry_views(self.entries@),
                ..old(self)@
            }));
        }
    }

    /// "Next Turn", exactly as `next_turn_spec` describes: a no-op on an empty
    /// roster, else first activation or cyclic advance with round counting.
    pub fn next_turn(&mut self)
        requires
            old(self)@.wf(),
            old(self)@.round_count < u32::MAX,
        ensures
            final(self)@ == next_turn_spec(old(self)@),
            final(self)@.wf(),
            old(self)@.entries.len() == 0 ==> final(self)@ == old(self)@,
    {
        if self.entries.len() == 0 {
            return ;
        }
        match self.active_index {
            None => {
                self.active_index = Some(0);
            },
            Some(a) => {
                let n = self.entries.len();
                let nxt = (a + 1) % n;
                proof {
                    if a + 1 == n {
                        vstd::arithmetic::div_mod::lemma_mod_self_0(n as int);
                    } else {
                        vstd::arithmetic::div_mod::lemma_small_mod((a + 1) as nat, n as nat);
                    }
                    assert(nxt as int == next_active(a as int, n as int));
                }
                self.active_index = Some(nxt);
                if nxt == 0 {
                    self.round_count = self.round_count + 1;
                }
            },
        }
        proof {
            assert(self@ =~= next_turn_spec(old(self)@));
        }
    }

    /// "Reset Combat": clears the roster, deactivates the turn, and resets
    /// the round counter to 1. Pending tie state is untouched.
    pub fn reset_combat(&mut self)
        requires
            old(self)@.wf(),
        ensures
            final(self)@ == (TrackerView {
                entries: Seq::empty(),
                active_index: None,
                round_count: 1,
                ..old(self)@
            }),
            final(self)@.wf(),
    {
        self.round_count = 1;
        self.active_index = None;
        self.entries.clear();
        proof {
            assert(entry_views(self.entries@) =~= Seq::<EntryView>::empty());
            assert(self@ =~= (TrackerView {
                entries: Seq::empty(),
                active_index: None,
                round_count: 1,
                ..old(self)@
            }));
        }
    }

    /// "Sort by Initiative": stable-sorts the roster by descending initiative,
    /// activates the first row (or none when empty), and recomputes the tied
    /// values; the tie dialog opens exactly when some initiative is repeated.
    pub fn sort_by_initiative(&mut self)
        requires
            old(self)@.wf(),
        ensures
            final(self)@.wf(),
            sorted_desc(final(self)@.entries),
            final(self)@.entries.len() == old(self)@.entries.len(),
            forall|k: int| #[trigger] entries_with_init(final(self)@.entries, k)
                == entries_with_init(old(self)@.entries, k),
            final(self)@.entries.to_multiset() == old(self)@.entries.to_multiset(),
            final(self)@.active_index == (if old(self)@.entries.len() == 0 {
                None
            } else {
                Some(0 as int)
            }),
            forall|v: int| #[trigger] final(self)@.tied_init.contains(v) <==> count_init(
                final(self)@.entries,
                v,
            ) >= 2,
            strictly_decreasing(final(self)@.tied_init),
            (final(self)@.show_tie_breaker <==> final(self)@.tied_init.len() > 0),
            final(self)@.round_count == old(self)@.round_count,
    {
        sort_entries_by_initiative(&mut self.entries);
        proof {
            crate::turn_order::lemma_same_groups_is_permutation(
                entry_views(self.entries@),
                old(self)@.entries,
            );
        }
        self.active_index = if self.entries.len() == 0 {
            None
        } else {
            Some(0)
        };
        let tied = detect_ties(&self.entries);
        self.tied_init = tied;
        self.show_tie_breaker = self.tied_init.len() > 0;
    }

    /// The roster positions of the rows tied on the first pending value, in
    /// roster order: every such row and nothing else.
    pub fn tied_group_indices(&self) -> (idxs: Vec<usize>)
        requires
            self@.wf(),
            self@.tied_init.len() > 0,
        ensures
            forall|p: int|
                0 <= p < idxs@.len() ==> (#[trigger] idxs@[p]) < self@.entries.len()
                    && self@.entries[idxs@[p] as int].initiative == self@.tied_init[0],
            forall|p: int, q: int|
                #![trigger idxs@[p], idxs@[q]]
                0 <= p < q < idxs@.len() ==> idxs@[p] < idxs@[q],
            forall|x: int|
                0 <= x < self@.entries.len() && (#[trigger] self@.entries[x]).initiative
                    == self@.tied_init[0] ==> exists|p: int|
                    0 <= p < idxs@.len() && (#[trigger] idxs@[p]) == x,
    {
        let mut idxs: Vec<usize> = Vec::new();
        let tied_initiative = self.tied_init[0];
        let mut i: usize = 0;
        while i < self.entries.len()
            invariant
                0 <= i <= self.entries@.len(),
                self@.tied_init[0] == tied_initiative as int,
                self@.wf(),
                forall|p: int|
                    0 <= p < idxs@.len() ==> (#[trigger] idxs@[p]) < i
                        && self@.entries[idxs@[p] as int].initiative == tied_initiative as int,
                forall|p: int, q: int|
                    #![trigger idxs@[p], idxs@[q]]
                    0 <= p < q < idxs@.len() ==> idxs@[p] < idxs@[q],
                forall|x: int|
                    0 <= x < i && (#[trigger] self@.entries[x]).initiative == tied_initiative as int
                        ==> exists|p: int| 0 <= p < idxs@.len() && (#[trigger] idxs@[p]) == x,
            decreases self.entries@.len() - i,
        {
            if self.entries[i].initiative == tied_initiative {
                let ghost pre_idxs = idxs@;
                idxs.push(i);
                proof {
                    assert(forall|p: int|
                        0 <= p < pre_idxs.len() ==> #[trigger] idxs@[p] == pre_idxs[p]);
                    assert(idxs@[pre_idxs.len() as int] == i);
                    assert forall|x: int|
                        0 <= x < i + 1 && (#[trigger] self@.entries[x]).initiative
                            == tied_initiative as int implies exists|p: int|
                        0 <= p < idxs@.len() && (#[trigger] idxs@[p]) == x by {
                        if x == i as int {
                            assert(idxs@[pre_idxs.len() as int] == x);
                        } else {
                            let p = choose|p: int|
                                0 <= p < pre_idxs.len() && (#[trigger] pre_idxs[p]) == x;
                            assert(idxs@[p] == x);
                        }
                    }
                }
            }
            i += 1;
        }
        idxs
    }

    /// Swaps two rows that share an initiative score, as the tie-resolution
    /// dialog's reordering arrows do; the turn order by initiative is
    /// undisturbed.
    pub fn swap_entries(&mut self, a: usize, b: usize)
        requires
            old(self)@.wf(),
            a < old(self)@.entries.len(),
            b < old(self)@.entries.len(),
            old(self)@.entries[a as int].initiative == old(self)@.entries[b as int].initiative,
        ensures
            final(self)@ == (TrackerView {
                entries: old(self)@.entries.update(a as int, old(self)@.entries[b as int]).update(
                    b as int,
                    old(self)@.entries[a as int],
                ),
                ..old(self)@
            }),
            final(self)@.wf(),
    {
        let ghost ov = old(self)@.entries;
        if a == b {
            proof {
                assert(ov.update(a as int, ov[b as int]).update(b as int, ov[a as int]) =~= ov);
                assert(self@ =~= (TrackerView {
                    entries: ov.update(a as int, ov[b as int]).update(b as int, ov[a as int]),
                    ..old(self)@
                }));
            }
            return ;
        }
        let lo = if a < b {
            a
        } else {
            b
        };
        let hi = if a < b {
            b
        } else {
            a
        };
        let eh = self.entries.remove(hi);
        let el = self.entries.remove(lo);
        self.entries.insert(lo, eh);
        self.entries.insert(hi, el);
        proof {
            assert(entry_views(self.entries@) =~= ov.update(a as int, ov[b as int]).update(
                b as int,
                ov[a as int],
            ));
            assert(self@ =~= (TrackerView {
                entries: ov.update(a as int, ov[b as int]).update(b as int, ov[a as int]),
                ..old(self)@
            }));
        }
    }

    /// Confirms the manual order of the first pending tied group: its value
    /// leaves the pending list, and the dialog stays open exactly while other
    /// tied values remain. The pending values are distinct, so removing every
    /// copy of the first value removes exactly the head.
    pub fn confirm_tie_group(&mut self)
        requires
            old(self)@.wf(),
            old(self)@.tied_init.len() > 0,
        ensures
            final(self)@ == (TrackerView {
                tied_init: old(self)@.tied_init.drop_first(),
                show_tie_breaker: old(self)@.tied_init.len() > 1,
                ..old(self)@
            }),
            final(self)@.wf(),
    {
        self.tied_init.remove(0);
        self.show_tie_breaker = self.tied_init.len() > 0;
        proof {
            assert(int_views(self.tied_init@) =~= old(self)@.tied_init.drop_first());
            assert(self@ =~= (TrackerView {
                tied_init: old(self)@.tied_init.drop_first(),
                show_tie_breaker: old(self)@.tied_init.len() > 1,
                ..old(self)@
            }));
        }
    }
}

/// Where the active index lands when the row at i leaves a roster of n rows.
pub open spec fn active_after_remove(a: Option<int>, i: int, n: int) -> Option<int> {
    match a {
        None => None,
        Some(x) => if n <= 1 {
            None
        } else if x > i {
            Some(x - 1)
        } else if x == i && x == n - 1 {
            Some(0)
        } else {
            Some(x)
        },
    }
}

/// n repeated "Next Turn" steps from a tracker state.
pub open spec fn iterate_next_turn(t: TrackerView, n: nat) -> TrackerView
    decreases n,
{
    if n == 0 {
        t
    } else {
        next_turn_spec(iterate_next_turn(t, (n - 1) as nat))
    }
}

/// After k <= n steps of "Next Turn" from active position a, the roster is
/// untouched, the active index has advanced k places cyclically, and the
/// round count has grown by one exactly when the advance wrapped.
pub proof fn lemma_iterate_next_turn(t: TrackerView, a: int, k: nat)
    requires
        t.wf(),
        t.active_index == Some(a),
        k <= t.entries.len(),
    ensures
        ({
            let u = iterate_next_turn(t, k);
            let n = t.entries.len() as int;
            &&& u.entries == t.entries
            &&& u.show_tie_breaker == t.show_tie_breaker
            &&& u.tied_init == t.tied_init
            &&& u.active_index == Some(
                if a + k < n {
                    a + k
                } else {
                    a + k - n
                },
            )
            &&& u.round_count == t.round_count + (if a + k >= n {
                1int
            } else {
                0int
            })
            &&& u.wf()
        }),
    decreases k,
{
    if k == 0 {
    } else {
        lemma_iterate_next_turn(t, a, (k - 1) as nat);
        let u1 = iterate_next_turn(t, (k - 1) as nat);
        assert(iterate_next_turn(t, k) == next_turn_spec(u1));
    }
}

/// One full pass of "Next Turn" around a non-empty roster — as many steps as
/// there are rows — returns the active index to where it started and advances
/// the round count by exactly one.
pub proof fn lemma_full_round(t: TrackerView, a: int)
    requires
        t.wf(),
        t.entries.len() > 0,
        t.active_index == Some(a),
    ensures
        ({
            let u = iterate_next_turn(t, t.entries.len() as nat);
            &&& u.active_index == t.active_index
            &&& u.round_count == t.round_count + 1
            &&& u.entries == t.entries
        }),
{
    lemma_iterate_next_turn(t, a, t.entries.len() as nat);
}

} // verus!
