//! A single combatant row: name, initiative score, hit points, the pending
//! hit-point change, and a free-text condition label.

use vstd::prelude::*;

verus! {

/// Mathematical model of one combatant row.
#[verifier::ext_equal]
pub struct EntryView {
    pub name: Seq<char>,
    pub initiative: int,
    pub hp_current: int,
    pub hp_total: int,
    pub hp_update: int,
    pub update_sign: int,
    pub conditions: Seq<char>,
}

/// One combatant row in the tracker.
#[derive(Clone)]
pub struct InitiativeTrackerEntry {
    pub name: String,
    /// Turn-order priority; higher acts first. Equal scores tie.
    pub initiative: i32,
    pub hp_current: i32,
    pub hp_total: i32,
    /// Magnitude of the pending hit-point change.
    pub hp_update: i32,
    /// Sign of the pending change: +1 heals, -1 damages.
    pub update_sign: i32,
    pub conditions: String,
}

impl View for InitiativeTrackerEntry {
    type V = EntryView;

    open spec fn view(&self) -> EntryView {
        EntryView {
            name: self.name@,
            initiative: self.initiative as int,
            hp_current: self.hp_current as int,
            hp_total: self.hp_total as int,
            hp_update: self.hp_update as int,
            update_sign: self.update_sign as int,
            conditions: self.conditions@,
        }
    }
}

/// The model of a freshly added template row.
pub open spec fn default_entry_view() -> EntryView {
    EntryView {
        name: "New Combatant"@,
        initiative: 0,
        hp_current: 10,
        hp_total: 10,
        hp_update: 0,
        update_sign: -1,
        conditions: Seq::empty(),
    }
}

impl Default for InitiativeTrackerEntry {
    /// A fresh template row: 10/10 hit points, initiative 0, damage pending.
    fn default() -> (e: Self)
        ensures
            e@ == default_entry_view(),
    {
        let e = InitiativeTrackerEntry {
            name: "New Combatant".to_owned(),
            initiative: 0,
            hp_current: 10,
            hp_total: 10,
            hp_update: 0,
            update_sign: -1,
            conditions: String::new(),
        };
        proof {
            assert(e@ =~= default_entry_view());
        }
        e
    }
}

/// A player-character record loaded from the roster file: just a name and a
/// hit-point maximum.
pub struct PcInfo {
    pub name: String,
    pub hp: i32,
}

/// The model of an entry built from a loaded player-character record: current
/// and total hit points both equal the record's value, everything else is the
/// template default.
pub open spec fn pc_entry_view(name: Seq<char>, hp: int) -> EntryView {
    EntryView {
        name: name,
        initiative: 0,
        hp_current: hp,
        hp_total: hp,
        hp_update: 0,
        update_sign: -1,
        conditions: Seq::empty(),
    }
}

/// Result of clamping a proposed hit-point value into [0, total].
pub open spec fn clamped_hp(v: int, total: int) -> int {
    if v < 0 {
        0
    } else if v > total {
        total
    } else {
        v
    }
}

impl InitiativeTrackerEntry {
    /// Builds a tracker row from a loaded player-character record.
    pub fn from_pc(pc: &PcInfo) -> (e: Self)
        ensures
            e@ == pc_entry_view(pc.name@, pc.hp as int),
    {
        let e = InitiativeTrackerEntry {
            name: pc.name.clone(),
            initiative: 0,
            hp_current: pc.hp,
            hp_total: pc.hp,
            hp_update: 0,
            update_sign: -1,
            conditions: String::new(),
        };
        proof {
            assert(e@ =~= pc_entry_view(pc.name@, pc.hp as int));
        }
        e
    }

    /// "Update HP": applies the pending delta times its sign to the current
    /// hit points, then clamps the result into [0, total]. The arithmetic is
    /// done in wide integers, so any magnitude of delta is accepted.
    pub fn apply_hp_update(&mut self)
        requires
            old(self)@.hp_total >= 0,
        ensures
            final(self)@ == (EntryView {
                hp_current: clamped_hp(
                    old(self)@.hp_current + old(self)@.hp_update * old(self)@.update_sign,
                    old(self)@.hp_total,
                ),
                ..old(self)@
            }),
            0 <= final(self)@.hp_current <= final(self)@.hp_total,
    {
        let u: i64 = self.hp_update as i64;
        let s: i64 = self.update_sign as i64;
        proof {
            assert(-0x4000_0000_0000_0000 <= u * s <= 0x4000_0000_0000_0000) by (nonlinear_arith)
                requires
                    -0x8000_0000 <= u <= 0x7fff_ffff,
                    -0x8000_0000 <= s <= 0x7fff_ffff;
        }
        let raw: i64 = self.hp_current as i64 + u * s;
        let total: i64 = self.hp_total as i64;
        let clamped: i64 = if raw < 0 {
            0
        } else if raw > total {
            total
        } else {
            raw
        };
        self.hp_current = clamped as i32;
        proof {
            assert(self@ =~= (EntryView {
                hp_current: clamped_hp(
                    old(self)@.hp_current + old(self)@.hp_update * old(self)@.update_sign,
                    old(self)@.hp_total,
                ),
                ..old(self)@
            }));
        }
    }
}

} // verus!
