//! Holding values of a target process.
//!
//! A frozen value is written again and again, by a loop of its own for each address. Each
//! round is a [`freeze_step`], which looks at the memory map afresh like any other write.

use crate::mem::access;
use crate::mem::access::MemoryAccess;
use crate::mem::write::{write_value, WriteError};
use crate::number::Double;
use crate::scan::candidate::ValueType;
use crate::text;
use crate::text::address_text;
use dashmap::DashMap;
use vstd::prelude::*;

verus! {

/// A value to hold.
#[derive(Clone, Copy, Debug, PartialEq, Eq, Structural)]
pub struct FreezeEntry {
    /// Target process.
    pub pid: u32,
    /// Where the value is.
    pub address: u64,
    /// The value.
    pub value: Double,
    /// Its type.
    pub dtype: ValueType,
    /// Milliseconds between two writes.
    pub interval_ms: u64,
}

/// A held value in a reply.
#[derive(Clone, Debug)]
pub struct FreezeEntryJson {
    /// Address in hexadecimal.
    pub address: String,
    /// The value.
    pub value: Double,
    /// Name of its type.
    pub dtype: String,
    /// Milliseconds between two writes.
    pub interval_ms: u64,
    /// The loop runs.
    pub active: bool,
}

impl FreezeEntryJson {
    /// This is how an entry is shown. One whose loop was told to stop, or has ended by itself, is
    /// no longer listed.
    pub open spec fn shows(self, e: FreezeEntry) -> bool {
        &&& self.address@ == text::address(e.address)
        &&& self.value == e.value
        &&& self.dtype@ == e.dtype.name()
        &&& self.interval_ms == e.interval_ms
        &&& self.active
    }
}

/// The held values in a map, by address.
pub uninterp spec fn freezes_in(map: DashMap<u64, FreezeEntry>) -> Map<u64, FreezeEntry>;

/// `DashMap::new` gives a map without entries.
#[verifier::external_body]
fn new_freezes() -> (r: DashMap<u64, FreezeEntry>)
    ensures
        freezes_in(r).dom() == Set::<u64>::empty(),
{
    DashMap::new()
}

/// `DashMap::insert` puts the value under the key and replaces one that was there.
#[verifier::external_body]
fn put_freeze(map: &mut DashMap<u64, FreezeEntry>, address: u64, entry: FreezeEntry)
    ensures
        freezes_in(*final(map)) == freezes_in(*old(map)).insert(address, entry),
{
    map.insert(address, entry);
}

/// `DashMap::remove` takes out the value under the key, where there is one.
#[verifier::external_body]
fn take_freeze(map: &mut DashMap<u64, FreezeEntry>, address: u64) -> (r: Option<FreezeEntry>)
    ensures
        freezes_in(*final(map)) == freezes_in(*old(map)).remove(address),
        match r {
            Some(e) => freezes_in(*old(map)).contains_key(address) && e == freezes_in(
                *old(map),
            )[address],
            None => !freezes_in(*old(map)).contains_key(address),
        },
{
    map.remove(&address).map(|entry| entry.1)
}

/// Each entry of the map stands in the list once.
pub open spec fn lists_freezes(
    list: Seq<(u64, FreezeEntry)>,
    freezes: Map<u64, FreezeEntry>,
) -> bool {
    &&& forall|i: int|
        0 <= i < list.len() ==> freezes.contains_key((#[trigger] list[i]).0)
            && freezes[list[i].0] == list[i].1
    &&& forall|i: int, j: int|
        0 <= i < j < list.len() ==> (#[trigger] list[i]).0 != (#[trigger] list[j]).0
    &&& forall|a: u64| #[trigger]
        freezes.contains_key(a) ==> exists|i: int|
            0 <= i < list.len() && (#[trigger] list[i]).0 == a
}

/// `DashMap::iter` visits every entry once; in which order is left open.
#[verifier::external_body]
fn freeze_entries(map: &DashMap<u64, FreezeEntry>) -> (r: Vec<(u64, FreezeEntry)>)
    ensures
        lists_freezes(r@, freezes_in(*map)),
{
    map.iter().map(|e| (*e.key(), *e.value())).collect()
}

/// The values that are held, by address.
pub struct FreezeManager {
    active: DashMap<u64, FreezeEntry>,
}

impl View for FreezeManager {
    type V = Map<u64, FreezeEntry>;

    closed spec fn view(&self) -> Map<u64, FreezeEntry> {
        freezes_in(self.active)
    }
}

/// What was held at an address.
pub open spec fn held(freezes: Map<u64, FreezeEntry>, address: u64) -> Option<FreezeEntry> {
    if freezes.contains_key(address) {
        Some(freezes[address])
    } else {
        None
    }
}

/// What is held after a round of the loop of an entry: where its write failed the loop ends and
/// the value is held no longer, unless another entry has taken its place meanwhile.
pub open spec fn held_on(
    freezes: Map<u64, FreezeEntry>,
    entry: FreezeEntry,
    written: bool,
) -> Map<u64, FreezeEntry> {
    if !written && held(freezes, entry.address) == Some(entry) {
        freezes.remove(entry.address)
    } else {
        freezes
    }
}

/// Each held value is shown once.
pub open spec fn shows_freezes(
    list: Seq<FreezeEntryJson>,
    freezes: Map<u64, FreezeEntry>,
) -> bool {
    exists|order: Seq<(u64, FreezeEntry)>| #[trigger]
        lists_freezes(order, freezes) && list.len() == order.len() && forall|i: int|
            0 <= i < list.len() ==> (#[trigger] list[i]).shows(order[i].1)
}

impl FreezeManager {
    /// No values are held.
    pub fn new() -> (r: FreezeManager)
        ensures
            r@ == Map::<u64, FreezeEntry>::empty(),
    {
        let r = FreezeManager { active: new_freezes() };
        assert(r@ =~= Map::<u64, FreezeEntry>::empty());
        r
    }

    /// Holds a value. Returns what was held at its address before; that loop is to stop.
    pub fn start(&mut self, entry: FreezeEntry) -> (r: Option<FreezeEntry>)
        ensures
            final(self)@ == old(self)@.insert(entry.address, entry),
            r == held(old(self)@, entry.address),
    {
        let before = self.stop(entry.address);
        put_freeze(&mut self.active, entry.address, entry);
        assert(self@ =~= old(self)@.insert(entry.address, entry));
        before
    }

    /// Holds the value at an address no longer. Returns what was held; its loop is to stop.
    pub fn stop(&mut self, address: u64) -> (r: Option<FreezeEntry>)
        ensures
            final(self)@ == old(self)@.remove(address),
            r == held(old(self)@, address),
    {
        take_freeze(&mut self.active, address)
    }

    /// Takes in what a round of the loop of an entry came to. Returns whether the loop goes on: it
    /// does after a success, and ends with the first write that fails.
    pub fn take_in(&mut self, entry: &FreezeEntry, round: &Result<(), WriteError>) -> (goes_on: bool)
        ensures
            goes_on == (round is Ok),
            final(self)@ == held_on(old(self)@, *entry, round is Ok),
    {
        match round {
            Ok(()) => true,
            Err(_) => {
                if let Some(current) = take_freeze(&mut self.active, entry.address) {
                    if current != *entry {
                        put_freeze(&mut self.active, entry.address, current);
                    }
                }
                assert(self@ =~= held_on(old(self)@, *entry, false));
                false
            },
        }
    }

    /// Every held value, as it is shown.
    pub fn list(&self) -> (r: Vec<FreezeEntryJson>)
        ensures
            shows_freezes(r@, self@),
    {
        let order = freeze_entries(&self.active);
        let mut r: Vec<FreezeEntryJson> = Vec::new();
        let mut i: usize = 0;
        while i < order.len()
            invariant
                i <= order@.len(),
                r@.len() == i,
                forall|k: int| 0 <= k < i ==> (#[trigger] r@[k]).shows(order@[k].1),
            decreases order@.len() - i,
        {
            let e = order[i].1;
            r.push(
                FreezeEntryJson {
                    address: address_text(e.address),
                    value: e.value,
                    dtype: e.dtype.to_text(),
                    interval_ms: e.interval_ms,
                    active: true,
                },
            );
            i += 1;
        }
        r
    }

    /// Holds nothing any longer. Returns the addresses whose loops are to stop.
    pub fn stop_all(&mut self) -> (r: Vec<u64>)
        ensures
            final(self)@ == Map::<u64, FreezeEntry>::empty(),
            forall|a: u64| #[trigger] old(self)@.contains_key(a) <==> r@.contains(a),
    {
        let order = freeze_entries(&self.active);
        let ghost all = self@;
        let mut r: Vec<u64> = Vec::new();
        let mut i: usize = 0;
        while i < order.len()
            invariant
                i <= order@.len(),
                all == old(self)@,
                lists_freezes(order@, all),
                r@.len() == i,
                forall|k: int| 0 <= k < i ==> #[trigger] r@[k] == order@[k].0,
                forall|a: u64| #[trigger]
                    self@.contains_key(a) <==> all.contains_key(a) && !r@.contains(a),
            decreases order@.len() - i,
        {
            let address: u64 = order[i].0;
            let ghost done = r@;
            self.stop(address);
            r.push(address);
            proof {
                assert forall|a: u64| #[trigger]
                    self@.contains_key(a) <==> all.contains_key(a) && !r@.contains(a) by {
                    if a == address {
                        assert(r@[i as int] == a);
                    } else {
                        if done.contains(a) {
                            let k = choose|k: int| 0 <= k < done.len() && done[k] == a;
                            assert(r@[k] == a);
                        }
                        if r@.contains(a) {
                            let k = choose|k: int| 0 <= k < r@.len() && r@[k] == a;
                            assert(done[k] == a);
                        }
                    }
                }
            }
            i += 1;
        }
        proof {
            assert forall|a: u64| #[trigger] all.contains_key(a) implies r@.contains(a) by {
                let k = choose|k: int| 0 <= k < order@.len() && (#[trigger] order@[k]).0 == a;
                assert(r@[k] == a);
            }
            assert forall|a: u64| r@.contains(a) implies #[trigger] all.contains_key(a) by {
                let k = choose|k: int| 0 <= k < r@.len() && r@[k] == a;
                assert(all.contains_key(order@[k].0));
            }
            assert(self@ =~= Map::<u64, FreezeEntry>::empty());
        }
        r
    }
}

/// Each entry is held under its own address.
pub open spec fn keyed(freezes: Map<u64, FreezeEntry>) -> bool {
    forall|a: u64| #[trigger] freezes.contains_key(a) ==> freezes[a].address == a
}

/// Entries are held under their own addresses, whatever is started, stopped or ends.
pub proof fn freezes_stay_keyed(
    freezes: Map<u64, FreezeEntry>,
    entry: FreezeEntry,
    address: u64,
    written: bool,
)
    requires
        keyed(freezes),
    ensures
        keyed(Map::empty()),
        keyed(freezes.insert(entry.address, entry)),
        keyed(freezes.remove(address)),
        keyed(held_on(freezes, entry, written)),
{
}

/// A freeze whose write failed is not listed any more.
pub proof fn failed_freezes_are_not_listed(
    freezes: Map<u64, FreezeEntry>,
    entry: FreezeEntry,
    list: Seq<FreezeEntryJson>,
)
    requires
        keyed(freezes),
        held(freezes, entry.address) == Some(entry),
        shows_freezes(list, held_on(freezes, entry, false)),
    ensures
        forall|i: int|
            0 <= i < list.len() ==> (#[trigger] list[i]).address@ != text::address(entry.address),
{
    let left = held_on(freezes, entry, false);
    let order = choose|order: Seq<(u64, FreezeEntry)>| #[trigger]
        lists_freezes(order, left) && list.len() == order.len() && forall|i: int|
            0 <= i < list.len() ==> (#[trigger] list[i]).shows(order[i].1);
    assert forall|i: int| 0 <= i < list.len() implies (#[trigger] list[i]).address@
        != text::address(entry.address) by {
        let a = order[i].0;
        assert(list[i].shows(order[i].1));
        assert(left.contains_key(a) && left[a] == order[i].1);
        assert(freezes.contains_key(a));
        assert(a != entry.address && order[i].1.address == a);
        text::addresses_are_told_apart(a, entry.address);
    }
}

/// One round of a freeze loop: the value is written once more. What it came to is handed to
/// [`FreezeManager::take_in`].
pub fn freeze_step<M: MemoryAccess>(mem: &mut M, entry: &FreezeEntry) -> (r: Result<(), WriteError>)
    ensures
        access::follows(*final(mem), *old(mem)),
        crate::mem::write::write_ran(
            access::since(final(mem).trace(), old(mem).trace()),
            entry.pid,
            entry.address,
            entry.value,
            entry.dtype,
            crate::mem::write::written_outcome(r),
        ),
{
    write_value(mem, entry.pid, entry.address, entry.value, entry.dtype)
}

/// A loop whose write failed gives up its own entry and no other; one whose write went well
/// goes on.
pub proof fn loops_give_up_their_own(
    freezes: Map<u64, FreezeEntry>,
    entry: FreezeEntry,
    a: u64,
)
    ensures
        held_on(freezes, entry, true) == freezes,
        held(freezes, entry.address) == Some(entry) ==> held(
            held_on(freezes, entry, false),
            entry.address,
        ) is None,
        held(freezes, entry.address) != Some(entry) ==> held_on(freezes, entry, false) == freezes,
        a != entry.address ==> held(held_on(freezes, entry, false), a) == held(freezes, a),
{
}

/// A held value is listed with where it is held, what it is, its type and its interval.
pub proof fn freezes_are_listed_with_their_settings(shown: FreezeEntryJson, e: FreezeEntry)
    requires
        shown.shows(e),
    ensures
        shown.address@ == "0x"@ + text::numeral(e.address as nat, 16),
        shown.value == e.value,
        crate::rpc::params::type_named(shown.dtype@) == Some(e.dtype),
        shown.interval_ms == e.interval_ms,
        shown.active,
{
    crate::rpc::params::type_names_are_read(e.dtype);
}

} // verus!
