//! The length table.
//!
//! An immutable mapping from a 16-bit message identifier to its length rule.
//! Rows come from an external, human-edited schema source; converting one
//! row's signed length value into a rule (or skipping the row) is specified
//! here, while reading and splitting the source text is ordinary I/O left to
//! the caller. Once built, the table is only ever read.

use vstd::prelude::*;

verus! {

/// How a message type's total byte span is determined: `Fixed(n)` occupies
/// exactly `n` bytes including the identifier; `Variable` carries a signed
/// 16-bit length of its own right after the identifier.
#[derive(Clone, Copy, Debug, PartialEq, Eq, Structural)]
pub enum PacketLen {
    Fixed(i16),
    Variable,
}

/// One registered row: identifier, display name, length rule.
#[derive(Debug)]
struct TableEntry {
    id: u16,
    name: String,
    rule: PacketLen,
}

/// The rule a schema row's signed length value yields: a value of at least 2
/// is a fixed length, a negative value marks a self-declared length, and 0
/// or 1 is invalid (too short to hold the identifier), so the row is
/// skipped.
pub open spec fn spec_rule_of_len(len: i16) -> Option<PacketLen> {
    if len >= 2 {
        Some(PacketLen::Fixed(len))
    } else if len < 0 {
        Some(PacketLen::Variable)
    } else {
        None
    }
}

/// The mapping a run of entries denotes; a later entry overrides an earlier
/// one with the same identifier.
spec fn table_map(entries: Seq<TableEntry>) -> Map<u16, PacketLen>
    decreases entries.len(),
{
    if entries.len() == 0 {
        Map::empty()
    } else {
        table_map(entries.drop_last()).insert(entries.last().id, entries.last().rule)
    }
}

/// Every fixed rule in a table covers at least the 2-byte identifier.
pub open spec fn table_wf(t: Map<u16, PacketLen>) -> bool {
    forall|id: u16|
        t.contains_key(id) ==> ((#[trigger] t[id]) matches PacketLen::Fixed(n) ==> n >= 2)
}

/// The length table, and the frame extractor built on it.
#[derive(Debug)]
pub struct PacketParser {
    entries: Vec<TableEntry>,
}

impl View for PacketParser {
    type V = Map<u16, PacketLen>;

    closed spec fn view(&self) -> Map<u16, PacketLen> {
        table_map(self.entries@)
    }
}

impl PacketParser {
    /// An empty table; rows are registered one by one.
    pub fn new() -> (p: Self)
        ensures
            p@ == Map::<u16, PacketLen>::empty(),
            table_wf(p@),
    {
        PacketParser { entries: Vec::new() }
    }

    /// Registers one schema row. A length value of 0 or 1 is invalid and
    /// leaves the table unchanged; any other value maps the identifier to
    /// its rule, replacing an earlier rule for the same identifier.
    pub fn register(&mut self, id: u16, name: String, length: i16)
        ensures
            final(self)@ == match spec_rule_of_len(length) {
                Some(rule) => old(self)@.insert(id, rule),
                None => old(self)@,
            },
            table_wf(old(self)@) ==> table_wf(final(self)@),
    {
        let ghost before = self.entries@;
        if length >= 2 {
            self.entries.push(TableEntry { id, name, rule: PacketLen::Fixed(length) });
            proof {
                assert(self.entries@.drop_last() =~= before);
            }
        } else if length < 0 {
            self.entries.push(TableEntry { id, name, rule: PacketLen::Variable });
            proof {
                assert(self.entries@.drop_last() =~= before);
            }
        }
    }

    /// The table's one read operation: the length rule registered for an
    /// identifier, if any. No side effects.
    pub fn lookup(&self, id: u16) -> (r: Option<PacketLen>)
        ensures
            match r {
                Some(rule) => self@.contains_key(id) && rule == self@[id],
                None => !self@.contains_key(id),
            },
    {
        let ghost s = self.entries@;
        proof {
            assert(s.take(s.len() as int) =~= s);
        }
        let mut i: usize = self.entries.len();
        while i > 0
            invariant
                0 <= i <= s.len(),
                s == self.entries@,
                table_map(s).contains_key(id) == table_map(s.take(i as int)).contains_key(id),
                table_map(s).contains_key(id) ==> table_map(s)[id] == table_map(
                    s.take(i as int),
                )[id],
            decreases i,
        {
            proof {
                assert(s.take(i as int).drop_last() =~= s.take(i - 1));
                assert(s.take(i as int).last() == s[i - 1]);
            }
            let e = &self.entries[i - 1];
            if e.id == id {
                return Some(e.rule);
            }
            i = i - 1;
        }
        proof {
            assert(s.take(0) =~= Seq::<TableEntry>::empty());
        }
        None
    }
}

} // verus!
