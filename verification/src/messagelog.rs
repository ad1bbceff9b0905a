use vstd::prelude::*;

use crate::text::{decimal, push_decimal, push_str};
use crate::types::{Coord, LogEntry};

verus! {

/// The text of a combat line.
pub open spec fn combat_text(attacker: Seq<char>, defender: Seq<char>, damage: int, critical: bool) -> Seq<
    char,
> {
    if damage == 0 {
        attacker + " misses "@ + defender + "!"@
    } else if critical {
        attacker + " critically hits "@ + defender + " for "@ + decimal(damage) + " damage!"@
    } else {
        attacker + " hits "@ + defender + " for "@ + decimal(damage) + " damage."@
    }
}

/// The colour of a combat line.
pub open spec fn combat_color(damage: int, critical: bool) -> u32 {
    if damage == 0 {
        0x888888
    } else if critical {
        0xFF4444
    } else {
        0xFF8888
    }
}

/// The text of a movement line.
pub open spec fn movement_text(entity: Seq<char>, from: Coord, to: Coord) -> Seq<char> {
    entity + " moves from ("@ + decimal(from.x as int) + ","@ + decimal(from.y as int) + ") to ("@
        + decimal(to.x as int) + ","@ + decimal(to.y as int) + ")"@
}

/// The text of a death line.
pub open spec fn death_text(entity: Seq<char>) -> Seq<char> {
    entity + " has been slain!"@
}

/// The log after appending `e` to `entries` with room for `max` lines: the oldest line
/// goes when the log would exceed `max`.
pub open spec fn log_after_add(entries: Seq<LogEntry>, e: LogEntry, max: nat) -> Seq<LogEntry> {
    if entries.len() + 1 > max {
        entries.push(e).drop_first()
    } else {
        entries.push(e)
    }
}

/// The `count` newest entries of `entries`, newest first.
pub open spec fn newest_first(entries: Seq<LogEntry>, count: nat) -> Seq<LogEntry> {
    let n = if count < entries.len() {
        count as int
    } else {
        entries.len() as int
    };
    Seq::new(n as nat, |i: int| entries[entries.len() - 1 - i])
}

/// The game's message log: the newest lines, at most `max_entries` of them.
pub struct MessageLog {
    entries: Vec<LogEntry>,
    max_entries: usize,
}

impl MessageLog {
    /// The lines, oldest first.
    pub closed spec fn entries_view(&self) -> Seq<LogEntry> {
        self.entries@
    }

    /// How many lines the log keeps.
    pub closed spec fn capacity_view(&self) -> nat {
        self.max_entries as nat
    }

    pub fn new(max_entries: usize) -> (r: Self)
        ensures
            r.entries_view() == Seq::<LogEntry>::empty(),
            r.capacity_view() == max_entries,
    {
        MessageLog { entries: Vec::new(), max_entries }
    }

    /// Append a line; the oldest line goes when the log would exceed its capacity.
    pub fn add(&mut self, text: String, color: u32, turn: u64)
        ensures
            final(self).capacity_view() == old(self).capacity_view(),
            final(self).entries_view() == log_after_add(
                old(self).entries_view(),
                LogEntry { text, color, turn },
                old(self).capacity_view(),
            ),
    {
        self.entries.push(LogEntry { text, color, turn });
        if self.entries.len() > self.max_entries {
            self.entries.remove(0);
            assert(self.entries@ =~= old(self).entries@.push(LogEntry { text, color, turn }).drop_first());
        }
    }

    /// Log one swing: a miss, a critical hit or a hit.
    pub fn combat(&mut self, turn: u64, attacker: &str, defender: &str, damage: i32, critical: bool)
        ensures
            final(self).capacity_view() == old(self).capacity_view(),
            exists|t: String|
                t@ == combat_text(attacker@, defender@, damage as int, critical)
                    && final(self).entries_view() == log_after_add(
                    old(self).entries_view(),
                    LogEntry { text: t, color: combat_color(damage as int, critical), turn },
                    old(self).capacity_view(),
                ),
    {
        let mut t = String::new();
        push_str(&mut t, attacker);
        if damage == 0 {
            push_str(&mut t, " misses ");
            push_str(&mut t, defender);
            push_str(&mut t, "!");
            assert(t@ =~= combat_text(attacker@, defender@, damage as int, critical));
            self.add(t, 0x888888, turn);
        } else if critical {
            push_str(&mut t, " critically hits ");
            push_str(&mut t, defender);
            push_str(&mut t, " for ");
            push_decimal(&mut t, damage as i64);
            push_str(&mut t, " damage!");
            assert(t@ =~= combat_text(attacker@, defender@, damage as int, critical));
            self.add(t, 0xFF4444, turn);
        } else {
            push_str(&mut t, " hits ");
            push_str(&mut t, defender);
            push_str(&mut t, " for ");
            push_decimal(&mut t, damage as i64);
            push_str(&mut t, " damage.");
            assert(t@ =~= combat_text(attacker@, defender@, damage as int, critical));
            self.add(t, 0xFF8888, turn);
        }
    }

    /// Log a step from `from` to `to`.
    pub fn movement(&mut self, turn: u64, entity: &str, from: Coord, to: Coord)
        ensures
            final(self).capacity_view() == old(self).capacity_view(),
            exists|t: String|
                t@ == movement_text(entity@, from, to) && final(self).entries_view()
                    == log_after_add(
                    old(self).entries_view(),
                    LogEntry { text: t, color: 0x8888FF, turn },
                    old(self).capacity_view(),
                ),
    {
        let mut t = String::new();
        push_str(&mut t, entity);
        push_str(&mut t, " moves from (");
        push_decimal(&mut t, from.x as i64);
        push_str(&mut t, ",");
        push_decimal(&mut t, from.y as i64);
        push_str(&mut t, ") to (");
        push_decimal(&mut t, to.x as i64);
        push_str(&mut t, ",");
        push_decimal(&mut t, to.y as i64);
        push_str(&mut t, ")");
        assert(t@ =~= movement_text(entity@, from, to));
        self.add(t, 0x8888FF, turn);
    }

    /// Log a death.
    pub fn death(&mut self, turn: u64, entity: &str)
        ensures
            final(self).capacity_view() == old(self).capacity_view(),
            exists|t: String|
                t@ == death_text(entity@) && final(self).entries_view() == log_after_add(
                    old(self).entries_view(),
                    LogEntry { text: t, color: 0xFF0000, turn },
                    old(self).capacity_view(),
                ),
    {
        let mut t = String::new();
        push_str(&mut t, entity);
        push_str(&mut t, " has been slain!");
        assert(t@ =~= death_text(entity@));
        self.add(t, 0xFF0000, turn);
    }

    /// Log a plain white line.
    pub fn info(&mut self, turn: u64, text: String)
        ensures
            final(self).capacity_view() == old(self).capacity_view(),
            final(self).entries_view() == log_after_add(
                old(self).entries_view(),
                LogEntry { text, color: 0xFFFFFF, turn },
                old(self).capacity_view(),
            ),
    {
        self.add(text, 0xFFFFFF, turn);
    }

    /// Copies of the `count` newest lines, newest first.
    pub fn recent(&self, count: usize) -> (r: Vec<LogEntry>)
        ensures
            r@ == newest_first(self.entries_view(), count as nat),
    {
        let n = self.entries.len();
        let mut r: Vec<LogEntry> = Vec::new();
        let mut i: usize = 0;
        while i < n && i < count
            invariant
                n == self.entries@.len(),
                i <= n,
                i <= count,
                r@.len() == i,
                forall|j: int| 0 <= j < i ==> #[trigger] r@[j] == self.entries@[n - 1 - j],
            decreases n - i,
        {
            r.push(self.entries[n - 1 - i].clone());
            i = i + 1;
        }
        assert(i as int == (if (count as nat) < self.entries@.len() {
            count as int
        } else {
            n as int
        }));
        assert(r@ =~= newest_first(self.entries_view(), count as nat));
        r
    }

    /// All lines, oldest first.
    pub fn all(&self) -> (r: &[LogEntry])
        ensures
            r@ == self.entries_view(),
    {
        self.entries.as_slice()
    }
}

impl Default for MessageLog {
    fn default() -> (r: Self)
        ensures
            r.entries_view() == Seq::<LogEntry>::empty(),
            r.capacity_view() == 200,
    {
        Self::new(200)
    }
}

/// A log never holds more lines than its capacity allows (once it has any room at
/// all), and the line just added is always the newest one kept.
pub proof fn lemma_log_bounded(entries: Seq<LogEntry>, e: LogEntry, max: nat)
    requires
        entries.len() <= max,
        max >= 1,
    ensures
        log_after_add(entries, e, max).len() <= max,
        log_after_add(entries, e, max).last() == e,
{
}

} // verus!
