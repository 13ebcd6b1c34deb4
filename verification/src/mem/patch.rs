//! Patching code of a target process.
//!
//! Code is overwritten past the protection of its pages. Before each patch the memory map is
//! looked at and the bytes that stand there are kept, so that they can be put back.

use crate::mem::access;
use crate::mem::access::{AccessError, MemEvent, MemoryAccess, MockMemoryAccess, SimView};
use crate::mem::disassemble;
use crate::mem::disassemble::{decode_at, DecodedView, DisasmError, DisasmErrorView};
use crate::mem::hex;
pub use crate::mem::hex::{hex_decode, hex_encode};
use crate::mem::write::find_holding;
use crate::process::maps;
use crate::process::maps::{Permissions, RegionSafety};
use crate::text;
use crate::text::{address_text, push_address, push_decimal};
use dashmap::DashMap;
use vstd::prelude::*;

verus! {

/// The instruction that does nothing.
pub const NOP: u8 = 0x90;

// ─── Records ────────────────────────────────────────────────────────────────

/// A patch that was applied.
#[derive(Clone, Debug)]
pub struct PatchRecord {
    /// Target process.
    pub pid: u32,
    /// Address of the patch.
    pub address: u64,
    /// What stood there before.
    pub original_bytes: Vec<u8>,
    /// What was written.
    pub patched_bytes: Vec<u8>,
    /// What the patch is.
    pub description: String,
}

/// A [`PatchRecord`] as a mathematical value.
pub struct PatchView {
    /// Target process.
    pub pid: u32,
    /// Address of the patch.
    pub address: u64,
    /// What stood there before.
    pub original: Seq<u8>,
    /// What was written.
    pub patched: Seq<u8>,
    /// What the patch is.
    pub description: Seq<char>,
}

impl View for PatchRecord {
    type V = PatchView;

    open spec fn view(&self) -> PatchView {
        PatchView {
            pid: self.pid,
            address: self.address,
            original: self.original_bytes@,
            patched: self.patched_bytes@,
            description: self.description@,
        }
    }
}

fn copy_bytes(b: &Vec<u8>) -> (r: Vec<u8>)
    ensures
        r@ == b@,
{
    let mut r: Vec<u8> = Vec::new();
    r.extend_from_slice(b.as_slice());
    assert(r@ =~= b@);
    r
}

impl PatchRecord {
    /// A copy of the record.
    pub fn copy(&self) -> (r: PatchRecord)
        ensures
            r@ == self@,
    {
        PatchRecord {
            pid: self.pid,
            address: self.address,
            original_bytes: copy_bytes(&self.original_bytes),
            patched_bytes: copy_bytes(&self.patched_bytes),
            description: self.description.clone(),
        }
    }
}

/// A patch in a reply.
#[derive(Clone, Debug)]
pub struct PatchRecordJson {
    /// Address in hexadecimal.
    pub address: String,
    /// What stood there before, in hexadecimal.
    pub original_bytes: String,
    /// What was written, in hexadecimal.
    pub patched_bytes: String,
    /// What the patch is.
    pub description: String,
}

impl PatchRecordJson {
    /// This is how a patch is shown.
    pub open spec fn shows(self, p: PatchView) -> bool {
        &&& self.address@ == text::address(p.address)
        &&& self.original_bytes@ == hex::hex_text(p.original)
        &&& self.patched_bytes@ == hex::hex_text(p.patched)
        &&& self.description@ == p.description
    }
}

// ─── Errors ─────────────────────────────────────────────────────────────────

/// Why code was not patched or not restored.
#[derive(Clone, Debug)]
pub enum PatchError {
    /// The instruction could not be decoded.
    Disassemble(DisasmError),
    /// No instruction stands at the address.
    NoInstruction(u64),
    /// Nothing was to be overwritten with no-ops.
    ZeroSize,
    /// Nothing was to be written.
    EmptyPatch,
    /// The memory map could not be read.
    Maps(AccessError),
    /// No region holds all the bytes at the address.
    NotMapped(u64),
    /// The region with this path must not be touched.
    NeverTouch(u64, String),
    /// The region with these permissions is neither executable nor writable.
    NotCode(u64, Permissions),
    /// The bytes that stand at the address could not be read.
    Read(AccessError),
    /// Only some of the bytes at the address could be read.
    ShortRead {
        /// Bytes read.
        read: usize,
        /// Bytes to read.
        wanted: usize,
        /// Address.
        address: u64,
    },
    /// The write failed.
    Write(AccessError),
    /// There is no patch at the address.
    NotFound(u64),
    /// The patch at the address belongs to another process.
    WrongPid {
        /// Address.
        address: u64,
        /// Process that was patched.
        owner: u32,
        /// Process that was asked for.
        pid: u32,
    },
}

/// A [`PatchError`] as a mathematical value.
pub enum PatchErrorView {
    /// The instruction could not be decoded.
    Disassemble(DisasmErrorView),
    /// No instruction stands at the address.
    NoInstruction(u64),
    /// Nothing was to be overwritten with no-ops.
    ZeroSize,
    /// Nothing was to be written.
    EmptyPatch,
    /// The memory map could not be read.
    Maps(Seq<char>),
    /// No region holds all the bytes at the address.
    NotMapped(u64),
    /// The region with this path must not be touched.
    NeverTouch(u64, Seq<char>),
    /// The region with these permissions is neither executable nor writable.
    NotCode(u64, Permissions),
    /// The bytes that stand at the address could not be read.
    Read(Seq<char>),
    /// Only some of the bytes at the address could be read: how many, of how many, where.
    ShortRead(nat, nat, u64),
    /// The write failed.
    Write(Seq<char>),
    /// There is no patch at the address.
    NotFound(u64),
    /// The patch at the address belongs to another process: the address, that process, and
    /// the one that was asked for.
    WrongPid(u64, u32, u32),
}

impl View for PatchError {
    type V = PatchErrorView;

    open spec fn view(&self) -> PatchErrorView {
        match self {
            PatchError::Disassemble(e) => PatchErrorView::Disassemble(e@),
            PatchError::NoInstruction(a) => PatchErrorView::NoInstruction(*a),
            PatchError::ZeroSize => PatchErrorView::ZeroSize,
            PatchError::EmptyPatch => PatchErrorView::EmptyPatch,
            PatchError::Maps(e) => PatchErrorView::Maps(e@),
            PatchError::NotMapped(a) => PatchErrorView::NotMapped(*a),
            PatchError::NeverTouch(a, p) => PatchErrorView::NeverTouch(*a, p@),
            PatchError::NotCode(a, p) => PatchErrorView::NotCode(*a, *p),
            PatchError::Read(e) => PatchErrorView::Read(e@),
            PatchError::ShortRead { read, wanted, address } => PatchErrorView::ShortRead(
                *read as nat,
                *wanted as nat,
                *address,
            ),
            PatchError::Write(e) => PatchErrorView::Write(e@),
            PatchError::NotFound(a) => PatchErrorView::NotFound(*a),
            PatchError::WrongPid { address, owner, pid } => PatchErrorView::WrongPid(
                *address,
                *owner,
                *pid,
            ),
        }
    }
}

/// What a patch error says.
pub open spec fn patch_message(e: PatchErrorView) -> Seq<char> {
    match e {
        PatchErrorView::Disassemble(d) => d.says(),
        PatchErrorView::NoInstruction(a) => "failed to disassemble instruction at "@
            + text::address(a),
        PatchErrorView::ZeroSize => "NOP size cannot be zero"@,
        PatchErrorView::EmptyPatch => "patch bytes cannot be empty"@,
        PatchErrorView::Maps(s) => s,
        PatchErrorView::NotMapped(a) => "address "@ + text::address(a)
            + " not in any mapped region"@,
        PatchErrorView::NeverTouch(a, p) => "ABORT: "@ + text::address(a)
            + " is in a NeverTouch region ("@ + p + ") -- cannot patch"@,
        PatchErrorView::NotCode(a, p) => "ABORT: "@ + text::address(a)
            + " is in a non-executable, non-writable region ("@ + p.letters()
            + "). Code patching targets executable code sections."@,
        PatchErrorView::Read(s) => s,
        PatchErrorView::ShortRead(read, wanted, a) => "could only read "@ + text::decimal(read)
            + "/"@ + text::decimal(wanted) + " bytes at "@ + text::address(a),
        PatchErrorView::Write(s) => s,
        PatchErrorView::NotFound(a) => "no patch found at "@ + text::address(a),
        PatchErrorView::WrongPid(a, owner, pid) => "patch at "@ + text::address(a)
            + " belongs to pid "@ + text::decimal(owner as nat)
            + " but restore requested for pid "@ + text::decimal(pid as nat),
    }
}

impl PatchError {
    /// What the error says.
    pub fn message(&self) -> (r: String)
        ensures
            r@ == patch_message(self@),
    {
        match self {
            PatchError::Disassemble(e) => e.message(),
            PatchError::NoInstruction(a) => {
                let mut r = "failed to disassemble instruction at ".to_string();
                push_address(&mut r, *a);
                r
            },
            PatchError::ZeroSize => "NOP size cannot be zero".to_string(),
            PatchError::EmptyPatch => "patch bytes cannot be empty".to_string(),
            PatchError::Maps(e) => e.message.clone(),
            PatchError::NotMapped(a) => {
                let mut r = "address ".to_string();
                push_address(&mut r, *a);
                r.append(" not in any mapped region");
                r
            },
            PatchError::NeverTouch(a, p) => {
                let mut r = "ABORT: ".to_string();
                push_address(&mut r, *a);
                r.append(" is in a NeverTouch region (");
                r.append(p.as_str());
                r.append(") -- cannot patch");
                r
            },
            PatchError::NotCode(a, p) => {
                let mut r = "ABORT: ".to_string();
                push_address(&mut r, *a);
                r.append(" is in a non-executable, non-writable region (");
                r.append(p.as_str().as_str());
                r.append("). Code patching targets executable code sections.");
                r
            },
            PatchError::Read(e) => e.message.clone(),
            PatchError::ShortRead { read, wanted, address } => {
                let mut r = "could only read ".to_string();
                push_decimal(&mut r, *read as u64);
                r.append("/");
                push_decimal(&mut r, *wanted as u64);
                r.append(" bytes at ");
                push_address(&mut r, *address);
                r
            },
            PatchError::Write(e) => e.message.clone(),
            PatchError::NotFound(a) => {
                let mut r = "no patch found at ".to_string();
                push_address(&mut r, *a);
                r
            },
            PatchError::WrongPid { address, owner, pid } => {
                let mut r = "patch at ".to_string();
                push_address(&mut r, *address);
                r.append(" belongs to pid ");
                push_decimal(&mut r, *owner as u64);
                r.append(" but restore requested for pid ");
                push_decimal(&mut r, *pid as u64);
                r
            },
        }
    }
}

// ─── Checks ─────────────────────────────────────────────────────────────────

/// What a look at the memory map says about patching `size` bytes at the address: the first
/// region that holds them all must not be off limits, and must be executable or writable.
pub open spec fn code_check(e: MemEvent, pid: u32, address: u64, size: nat) -> Result<
    (),
    PatchErrorView,
> {
    match e->Maps_outcome {
        Err(s) => Err(PatchErrorView::Maps(s)),
        Ok(regions) => {
            let k = crate::mem::write::holding(regions, address, size, 0);
            if k == regions.len() {
                Err(PatchErrorView::NotMapped(address))
            } else if regions[k].safety == RegionSafety::NeverTouch {
                Err(PatchErrorView::NeverTouch(address, regions[k].pathname))
            } else if !regions[k].permissions.execute && !regions[k].permissions.write {
                Err(PatchErrorView::NotCode(address, regions[k].permissions))
            } else {
                Ok(())
            }
        },
    }
}

/// An outcome without a value.
pub open spec fn unit_outcome(r: Result<(), PatchError>) -> Result<(), PatchErrorView> {
    match r {
        Ok(()) => Ok(()),
        Err(e) => Err(e@),
    }
}

/// Looks at the memory map to see whether code may be patched.
pub fn validate_code_address<M: MemoryAccess>(
    mem: &mut M,
    pid: u32,
    address: u64,
    size: usize,
) -> (r: Result<(), PatchError>)
    ensures
        access::follows(*final(mem), *old(mem)),
        final(mem).trace().len() == old(mem).trace().len() + 1,
        final(mem).trace().drop_last() == old(mem).trace(),
        final(mem).trace().last() is Maps,
        final(mem).trace().last()->Maps_pid == pid,
        unit_outcome(r) == code_check(final(mem).trace().last(), pid, address, size as nat),
{
    let ghost start = mem.trace();
    let result = mem.read_maps(pid);
    assert(mem.trace().drop_last() =~= start);
    assert(mem.trace().subrange(0, start.len() as int) =~= start);
    let regions = match result {
        Ok(regions) => regions,
        Err(e) => {
            return Err(PatchError::Maps(e));
        },
    };
    let k: usize = find_holding(&regions, address, size);
    if k == regions.len() {
        return Err(PatchError::NotMapped(address));
    }
    assert(maps::region_views(regions@)[k as int] == regions@[k as int]@);
    if regions[k].safety == RegionSafety::NeverTouch {
        return Err(PatchError::NeverTouch(address, regions[k].pathname.clone()));
    }
    if !regions[k].permissions.execute && !regions[k].permissions.write {
        return Err(PatchError::NotCode(address, regions[k].permissions));
    }
    Ok(())
}

// ─── Applying a patch ───────────────────────────────────────────────────────

/// What applying a patch did and came to; a success gives what stood there before. The memory
/// map is looked at, the bytes are read, and only where that went well and gave them all are
/// they overwritten.
pub open spec fn apply_ran(
    events: Seq<MemEvent>,
    pid: u32,
    address: u64,
    bytes: Seq<u8>,
    result: Result<Seq<u8>, PatchErrorView>,
) -> bool {
    &&& events.len() > 0
    &&& events[0] is Maps
    &&& events[0]->Maps_pid == pid
    &&& match code_check(events[0], pid, address, bytes.len()) {
        Err(e) => events.len() == 1 && result == Err::<Seq<u8>, _>(e),
        Ok(()) => {
            &&& events.len() > 1
            &&& events[1] is Read
            &&& events[1]->Read_pid == pid
            &&& events[1]->Read_address == address
            &&& events[1]->wanted == bytes.len()
            &&& access::fills(events[1])
            &&& match events[1]->Read_outcome {
                Err(s) => events.len() == 2 && result == Err::<Seq<u8>, _>(
                    PatchErrorView::Read(s),
                ),
                Ok((n, buffer)) => if n < bytes.len() {
                    events.len() == 2 && result == Err::<Seq<u8>, _>(
                        PatchErrorView::ShortRead(n, bytes.len(), address),
                    )
                } else {
                    &&& events.len() == 3
                    &&& events[2] is Code
                    &&& events[2]->Code_pid == pid
                    &&& events[2]->Code_address == address
                    &&& events[2]->Code_data == bytes
                    &&& result == match events[2]->Code_outcome {
                        Err(s) => Err(PatchErrorView::Write(s)),
                        Ok(_) => Ok(buffer),
                    }
                },
            }
        },
    }
}

/// What applying a patch came to.
pub open spec fn bytes_outcome(r: Result<Vec<u8>, PatchError>) -> Result<Seq<u8>, PatchErrorView> {
    match r {
        Ok(v) => Ok(v@),
        Err(e) => Err(e@),
    }
}

/// A patch changes a target only where the memory map, looked at right before, allows it and
/// what stood there was read in full; and then it writes the patch and nothing else.
pub proof fn patches_are_guarded(
    events: Seq<MemEvent>,
    pid: u32,
    address: u64,
    bytes: Seq<u8>,
    result: Result<Seq<u8>, PatchErrorView>,
)
    requires
        apply_ran(events, pid, address, bytes, result),
    ensures
        forall|i: int|
            0 <= i < events.len() && (#[trigger] events[i]).mutates() ==> {
                &&& i == 2
                &&& events[2] is Code
                &&& events[2]->Code_address == address
                &&& events[2]->Code_data == bytes
                &&& code_check(events[0], pid, address, bytes.len()) is Ok
                &&& events[1]->Read_outcome is Ok
                &&& events[1]->Read_outcome->Ok_0.0 >= bytes.len()
            },
{
}

fn apply<M: MemoryAccess>(mem: &mut M, pid: u32, address: u64, bytes: &[u8]) -> (r: Result<
    Vec<u8>,
    PatchError,
>)
    ensures
        access::follows(*final(mem), *old(mem)),
        apply_ran(
            access::since(final(mem).trace(), old(mem).trace()),
            pid,
            address,
            bytes@,
            bytes_outcome(r),
        ),
{
    let ghost start = mem.trace();
    let checked = validate_code_address(mem, pid, address, bytes.len());
    let ghost looked = mem.trace().last();
    assert(mem.trace() =~= start + seq![looked]);
    proof {
        access::trace_grows(start, seq![looked]);
    }
    match checked {
        Ok(()) => {},
        Err(e) => {
            return Err(e);
        },
    }
    let mut original: Vec<u8> = vec![0u8; bytes.len()];
    let result = mem.read(pid, address, original.as_mut_slice());
    let ghost read = mem.trace().last();
    assert(mem.trace() =~= start + seq![looked, read]);
    proof {
        access::trace_grows(start, seq![looked, read]);
    }
    match result {
        Err(e) => {
            return Err(PatchError::Read(e));
        },
        Ok(n) => {
            if n < bytes.len() {
                return Err(PatchError::ShortRead { read: n, wanted: bytes.len(), address });
            }
        },
    }
    let result = mem.write_code(pid, address, bytes);
    let ghost wrote = mem.trace().last();
    assert(mem.trace() =~= start + seq![looked, read, wrote]);
    proof {
        access::trace_grows(start, seq![looked, read, wrote]);
    }
    match result {
        Err(e) => Err(PatchError::Write(e)),
        Ok(_) => Ok(original),
    }
}

/// As many no-ops.
pub open spec fn nops(n: nat) -> Seq<u8> {
    Seq::new(n, |i: int| NOP)
}

/// What a patch of no-ops is called.
pub open spec fn nop_description(n: nat) -> Seq<char> {
    "nop "@ + text::decimal(n) + " bytes"@
}

/// The patches by address: at each address those of the processes that are patched there, the
/// latest last.
pub type PatchTable = Map<u64, Seq<PatchView>>;

/// The patches at an address.
pub open spec fn patches_at(patches: PatchTable, address: u64) -> Seq<PatchView> {
    if patches.contains_key(address) {
        patches[address]
    } else {
        Seq::empty()
    }
}

/// The patch of a process among those at one address, where there is one.
pub open spec fn patch_of(records: Seq<PatchView>, pid: u32) -> Option<PatchView>
    decreases records.len(),
{
    if records.len() == 0 {
        None
    } else if records.last().pid == pid {
        Some(records.last())
    } else {
        patch_of(records.drop_last(), pid)
    }
}

/// The patches of every other process among those at one address.
pub open spec fn others(records: Seq<PatchView>, pid: u32) -> Seq<PatchView>
    decreases records.len(),
{
    if records.len() == 0 {
        Seq::empty()
    } else if records.last().pid == pid {
        others(records.drop_last(), pid)
    } else {
        others(records.drop_last(), pid).push(records.last())
    }
}

/// The patch of a process at an address, where there is one.
pub open spec fn patch_there(patches: PatchTable, pid: u32, address: u64) -> Option<PatchView> {
    patch_of(patches_at(patches, address), pid)
}

/// What stood at an address before it was patched at all: where it is patched already, what
/// that patch replaced counts for as many bytes as it replaced.
pub open spec fn unpatched(earlier: Option<PatchView>, read: Seq<u8>) -> Seq<u8> {
    match earlier {
        None => read,
        Some(p) => if p.original.len() >= read.len() {
            p.original
        } else {
            p.original + read.skip(p.original.len() as int)
        },
    }
}

/// What was read at an address before it was written over.
pub open spec fn read_before(events: Seq<MemEvent>) -> Seq<u8> {
    events[1]->Read_outcome->Ok_0.1
}

/// Overwriting `n` bytes with no-ops did this and came to this.
pub open spec fn nop_bytes_ran(
    events: Seq<MemEvent>,
    pid: u32,
    address: u64,
    n: nat,
    patches: PatchTable,
    result: Result<PatchView, PatchErrorView>,
) -> bool {
    if n == 0 {
        events.len() == 0 && result == Err::<PatchView, _>(PatchErrorView::ZeroSize)
    } else {
        patch_ran(events, pid, address, nops(n), nop_description(n), patches, result)
    }
}

/// Applying a patch, where there were these patches already, did this and came to this record
/// or error.
pub open spec fn patch_ran(
    events: Seq<MemEvent>,
    pid: u32,
    address: u64,
    bytes: Seq<u8>,
    description: Seq<char>,
    patches: PatchTable,
    result: Result<PatchView, PatchErrorView>,
) -> bool {
    match result {
        Ok(p) => {
            &&& apply_ran(events, pid, address, bytes, Ok(read_before(events)))
            &&& p.pid == pid
            &&& p.address == address
            &&& p.original == unpatched(patch_there(patches, pid, address), read_before(events))
            &&& p.patched == bytes
            &&& p.description == description
        },
        Err(e) => apply_ran(events, pid, address, bytes, Err(e)),
    }
}

/// Overwriting with no-ops did this and came to this. Without a size the instruction at the
/// address is decoded, and as many bytes are overwritten as it has.
pub open spec fn nop_ran(
    events: Seq<MemEvent>,
    pid: u32,
    address: u64,
    size: Option<usize>,
    patches: PatchTable,
    result: Result<PatchView, PatchErrorView>,
) -> bool {
    match size {
        Some(n) => nop_bytes_ran(events, pid, address, n as nat, patches, result),
        None => events.len() > 0 && exists|d: Result<Seq<DecodedView>, DisasmErrorView>| #[trigger]
            disassemble::decode_ran(events.take(1), pid, address, 1, d) && nop_decoded(
                events.skip(1),
                pid,
                address,
                d,
                patches,
                result,
            ),
    }
}

/// Overwriting the first of the decoded instructions did this and came to this.
pub open spec fn nop_decoded(
    events: Seq<MemEvent>,
    pid: u32,
    address: u64,
    decoded: Result<Seq<DecodedView>, DisasmErrorView>,
    patches: PatchTable,
    result: Result<PatchView, PatchErrorView>,
) -> bool {
    match decoded {
        Err(e) => events.len() == 0 && result == Err::<PatchView, _>(
            PatchErrorView::Disassemble(e),
        ),
        Ok(d) => if d.len() == 0 {
            events.len() == 0 && result == Err::<PatchView, _>(
                PatchErrorView::NoInstruction(address),
            )
        } else {
            nop_bytes_ran(events, pid, address, d[0].bytes.len(), patches, result)
        },
    }
}

// ─── The manager ────────────────────────────────────────────────────────────

/// The patches that a map holds, by address.
pub uninterp spec fn patches_in(map: DashMap<u64, Vec<PatchRecord>>) -> Map<u64, Seq<PatchView>>;

/// Records as mathematical values.
pub open spec fn record_views(records: Seq<PatchRecord>) -> Seq<PatchView> {
    Seq::new(records.len(), |i: int| records[i]@)
}

/// `DashMap::new` gives a map without entries.
#[verifier::external_body]
fn new_patches() -> (r: DashMap<u64, Vec<PatchRecord>>)
    ensures
        patches_in(r).dom() == Set::<u64>::empty(),
{
    DashMap::new()
}

/// `DashMap::insert` puts the value under the key and replaces one that was there.
#[verifier::external_body]
fn put_patches(map: &mut DashMap<u64, Vec<PatchRecord>>, address: u64, records: Vec<PatchRecord>)
    ensures
        patches_in(*final(map)) == patches_in(*old(map)).insert(address, record_views(records@)),
{
    map.insert(address, records);
}

/// `DashMap::remove` takes out the value under the key, where there is one.
#[verifier::external_body]
fn take_patches(map: &mut DashMap<u64, Vec<PatchRecord>>, address: u64) -> (r: Option<
    Vec<PatchRecord>,
>)
    ensures
        patches_in(*final(map)) == patches_in(*old(map)).remove(address),
        match r {
            Some(v) => patches_in(*old(map)).contains_key(address) && record_views(v@)
                == patches_in(*old(map))[address],
            None => !patches_in(*old(map)).contains_key(address),
        },
{
    map.remove(&address).map(|entry| entry.1)
}

/// Each patched address stands in the list once.
pub open spec fn lists_addresses(list: Seq<u64>, patches: PatchTable) -> bool {
    &&& forall|i: int| 0 <= i < list.len() ==> patches.contains_key(#[trigger] list[i])
    &&& forall|i: int, j: int|
        0 <= i < j < list.len() ==> #[trigger] list[i] != #[trigger] list[j]
    &&& forall|a: u64| #[trigger] patches.contains_key(a) ==> list.contains(a)
}

/// `DashMap::iter` visits every entry once; in which order is left open.
#[verifier::external_body]
fn patch_addresses(map: &DashMap<u64, Vec<PatchRecord>>) -> (r: Vec<u64>)
    ensures
        lists_addresses(r@, patches_in(*map)),
{
    map.iter().map(|e| *e.key()).collect()
}

/// `DashMap::get` looks up the value under the key, which is copied.
#[verifier::external_body]
fn copy_patches(map: &DashMap<u64, Vec<PatchRecord>>, address: u64) -> (r: Option<
    Vec<PatchRecord>,
>)
    ensures
        match r {
            Some(v) => patches_in(*map).contains_key(address) && record_views(v@) == patches_in(
                *map,
            )[address],
            None => !patches_in(*map).contains_key(address),
        },
{
    map.get(&address).map(|v| v.clone())
}

/// The patches that were applied, by address.
pub struct PatchManager {
    patches: DashMap<u64, Vec<PatchRecord>>,
}

impl View for PatchManager {
    type V = PatchTable;

    closed spec fn view(&self) -> PatchTable {
        patches_in(self.patches)
    }
}

/// What a patch came to.
pub open spec fn record_outcome(r: Result<PatchRecord, PatchError>) -> Result<
    PatchView,
    PatchErrorView,
> {
    match r {
        Ok(p) => Ok(p@),
        Err(e) => Err(e@),
    }
}

/// The patches after one more was tried: a success is kept under its address, in place of an
/// earlier patch of the same process there.
pub open spec fn patches_after(
    patches: PatchTable,
    pid: u32,
    address: u64,
    result: Result<PatchView, PatchErrorView>,
) -> PatchTable {
    match result {
        Ok(p) => patches.insert(address, others(patches_at(patches, address), pid).push(p)),
        Err(_) => patches,
    }
}

/// What restoring did and came to: the original bytes are written to the process that was
/// patched. Where that process has no patch at the address nothing is written, and the process
/// that was patched there last is named.
pub open spec fn restore_ran(
    events: Seq<MemEvent>,
    pid: u32,
    address: u64,
    patches: PatchTable,
    result: Result<(), PatchErrorView>,
) -> bool {
    let there = patches_at(patches, address);
    match patch_of(there, pid) {
        Some(p) => {
            &&& events.len() == 1
            &&& events[0] is Code
            &&& events[0]->Code_pid == pid
            &&& events[0]->Code_address == address
            &&& events[0]->Code_data == p.original
            &&& result == match events[0]->Code_outcome {
                Err(s) => Err(PatchErrorView::Write(s)),
                Ok(_) => Ok(()),
            }
        },
        None => {
            &&& events.len() == 0
            &&& result == Err::<(), _>(
                if there.len() == 0 {
                    PatchErrorView::NotFound(address)
                } else {
                    PatchErrorView::WrongPid(address, there.last().pid, pid)
                },
            )
        },
    }
}

/// The patches after one was to be restored: it is forgotten only where it was restored, and
/// the address with it where no other process is patched there.
pub open spec fn patches_restored(
    patches: PatchTable,
    pid: u32,
    address: u64,
    result: Result<(), PatchErrorView>,
) -> PatchTable {
    let left = others(patches_at(patches, address), pid);
    match result {
        Ok(()) => if left.len() == 0 {
            patches.remove(address)
        } else {
            patches.insert(address, left)
        },
        Err(_) => patches,
    }
}

/// The patches at each of the addresses in turn.
pub open spec fn in_order(order: Seq<u64>, patches: PatchTable) -> Seq<PatchView>
    decreases order.len(),
{
    if order.len() == 0 {
        Seq::empty()
    } else {
        in_order(order.drop_last(), patches) + patches[order.last()]
    }
}

/// The original bytes of each of the patches were written back, to its process and address.
pub open spec fn written_back(events: Seq<MemEvent>, records: Seq<PatchView>) -> bool {
    &&& events.len() == records.len()
    &&& forall|i: int|
        0 <= i < events.len() ==> {
            &&& #[trigger] events[i] is Code
            &&& events[i]->Code_pid == records[i].pid
            &&& events[i]->Code_address == records[i].address
            &&& events[i]->Code_data == records[i].original
        }
}

/// Each of the patches is shown.
pub open spec fn shows_each(list: Seq<PatchRecordJson>, records: Seq<PatchView>) -> bool {
    &&& list.len() == records.len()
    &&& forall|i: int| 0 <= i < list.len() ==> (#[trigger] list[i]).shows(records[i])
}

/// Every patch is shown once.
pub open spec fn shows_patches(list: Seq<PatchRecordJson>, patches: PatchTable) -> bool {
    exists|order: Seq<u64>| #[trigger]
        lists_addresses(order, patches) && shows_each(list, in_order(order, patches))
}

/// Which of the records at one address is that of the process.
fn find_patch(records: &Vec<PatchRecord>, pid: u32) -> (r: Option<usize>)
    ensures
        match r {
            Some(i) => i < records@.len() && patch_of(record_views(records@), pid) == Some(
                records@[i as int]@,
            ),
            None => patch_of(record_views(records@), pid) is None,
        },
{
    let ghost all = record_views(records@);
    let mut n: usize = records.len();
    assert(all.take(n as int) =~= all);
    while n > 0
        invariant
            n <= records@.len(),
            all == record_views(records@),
            patch_of(all, pid) == patch_of(all.take(n as int), pid),
        decreases n,
    {
        assert(all.take(n as int).drop_last() =~= all.take(n - 1));
        if records[n - 1].pid == pid {
            return Some(n - 1);
        }
        n -= 1;
    }
    None
}

/// The records of every other process among those at one address.
fn leave_out(records: &Vec<PatchRecord>, pid: u32) -> (r: Vec<PatchRecord>)
    ensures
        record_views(r@) == others(record_views(records@), pid),
{
    let ghost all = record_views(records@);
    let mut r: Vec<PatchRecord> = Vec::new();
    let mut i: usize = 0;
    assert(record_views(r@) =~= others(all.take(0), pid));
    while i < records.len()
        invariant
            i <= records@.len(),
            all == record_views(records@),
            record_views(r@) == others(all.take(i as int), pid),
        decreases records@.len() - i,
    {
        assert(all.take(i + 1).drop_last() =~= all.take(i as int));
        if records[i].pid != pid {
            let ghost before = r@;
            r.push(records[i].copy());
            assert(record_views(r@) =~= record_views(before).push(all[i as int]));
        }
        i += 1;
    }
    assert(all.take(i as int) =~= all);
    r
}

impl PatchManager {
    /// No patches.
    pub fn new() -> (r: PatchManager)
        ensures
            r@ == Map::<u64, Seq<PatchView>>::empty(),
    {
        let r = PatchManager { patches: new_patches() };
        assert(r@ =~= Map::<u64, Seq<PatchView>>::empty());
        r
    }

    /// The records at an address.
    fn records_at(&self, address: u64) -> (r: Vec<PatchRecord>)
        ensures
            record_views(r@) == patches_at(self@, address),
    {
        match copy_patches(&self.patches, address) {
            Some(v) => v,
            None => {
                let none: Vec<PatchRecord> = Vec::new();
                assert(record_views(none@) =~= Seq::empty());
                none
            },
        }
    }

    /// Keeps a patch that was applied. Where the place was patched before, what stood there at
    /// first is still what is kept.
    fn keep(&mut self, pid: u32, address: u64, read: Vec<u8>, bytes: &[u8], description: String)
        -> (r: PatchRecord)
        ensures
            r@ == (PatchView {
                pid,
                address,
                original: unpatched(patch_there(old(self)@, pid, address), read@),
                patched: bytes@,
                description: description@,
            }),
            final(self)@ == patches_after(old(self)@, pid, address, Ok(r@)),
    {
        let records = self.records_at(address);
        let original = match find_patch(&records, pid) {
            None => read,
            Some(i) => {
                let mut original = records[i].copy().original_bytes;
                let n: usize = original.len();
                if n < read.len() {
                    let rest = vstd::slice::slice_subrange(read.as_slice(), n, read.len());
                    let ghost first = original@;
                    original.extend_from_slice(rest);
                    assert(original@ =~= first + read@.skip(n as int));
                }
                original
            },
        };
        let mut patched: Vec<u8> = Vec::new();
        patched.extend_from_slice(bytes);
        assert(patched@ =~= bytes@);
        let record = PatchRecord {
            pid,
            address,
            original_bytes: original,
            patched_bytes: patched,
            description,
        };
        let mut left = leave_out(&records, pid);
        let ghost before = left@;
        left.push(record.copy());
        assert(record_views(left@) =~= record_views(before).push(record@));
        put_patches(&mut self.patches, address, left);
        record
    }

    fn nop_bytes<M: MemoryAccess>(&mut self, mem: &mut M, pid: u32, address: u64, size: usize) -> (r:
        Result<PatchRecord, PatchError>)
        ensures
            access::follows(*final(mem), *old(mem)),
            nop_bytes_ran(
                access::since(final(mem).trace(), old(mem).trace()),
                pid,
                address,
                size as nat,
                old(self)@,
                record_outcome(r),
            ),
            final(self)@ == patches_after(old(self)@, pid, address, record_outcome(r)),
    {
        if size == 0 {
            assert(access::since(mem.trace(), old(mem).trace()) =~= Seq::empty());
            return Err(PatchError::ZeroSize);
        }
        let sled: Vec<u8> = vec![NOP; size];
        assert(sled@ =~= nops(size as nat));
        match apply(mem, pid, address, sled.as_slice()) {
            Err(e) => Err(e),
            Ok(original) => {
                let mut description = "nop ".to_string();
                push_decimal(&mut description, size as u64);
                description.append(" bytes");
                Ok(self.keep(pid, address, original, sled.as_slice(), description))
            },
        }
    }

    /// Overwrites code with no-ops: `size` bytes, or the instruction at the address where no
    /// size is given. What stood there is kept.
    pub fn nop_at<M: MemoryAccess>(
        &mut self,
        mem: &mut M,
        pid: u32,
        address: u64,
        size: Option<usize>,
    ) -> (r: Result<PatchRecord, PatchError>)
        ensures
            access::follows(*final(mem), *old(mem)),
            nop_ran(
                access::since(final(mem).trace(), old(mem).trace()),
                pid,
                address,
                size,
                old(self)@,
                record_outcome(r),
            ),
            final(self)@ == patches_after(old(self)@, pid, address, record_outcome(r)),
    {
        let ghost start = mem.trace();
        match size {
            Some(n) => self.nop_bytes(mem, pid, address, n),
            None => {
                let decoded = decode_at(mem, pid, address, 1);
                let ghost d = disassemble::decoded_outcome(decoded);
                let ghost middle = mem.trace();
                let ghost first = access::since(middle, start);
                proof {
                    access::trace_splits(middle, start);
                    assert(first.take(1) =~= first);
                    assert(first.skip(1) =~= Seq::empty());
                }
                match decoded {
                    Err(e) => Err(PatchError::Disassemble(e)),
                    Ok(v) => {
                        if v.len() == 0 {
                            return Err(PatchError::NoInstruction(address));
                        }
                        let n: usize = v[0].bytes.len();
                        assert(disassemble::decoded_views(v@)[0] == v@[0]@);
                        let r = self.nop_bytes(mem, pid, address, n);
                        proof {
                            let rest = access::since(mem.trace(), middle);
                            access::trace_splits(mem.trace(), middle);
                            assert(mem.trace() =~= start + (first + rest));
                            access::trace_grows(start, first + rest);
                            assert((first + rest).take(1) =~= first);
                            assert((first + rest).skip(1) =~= rest);
                            assert(nop_decoded(rest, pid, address, d, old(self)@, record_outcome(r)));
                        }
                        r
                    },
                }
            },
        }
    }

    /// Writes bytes over code. What stood there is kept.
    pub fn patch_at<M: MemoryAccess>(&mut self, mem: &mut M, pid: u32, address: u64, bytes: &[u8])
        -> (r: Result<PatchRecord, PatchError>)
        ensures
            access::follows(*final(mem), *old(mem)),
            if bytes@.len() == 0 {
                &&& final(mem).trace() == old(mem).trace()
                &&& record_outcome(r) == Err::<PatchView, _>(PatchErrorView::EmptyPatch)
            } else {
                patch_ran(
                    access::since(final(mem).trace(), old(mem).trace()),
                    pid,
                    address,
                    bytes@,
                    "custom patch"@,
                    old(self)@,
                    record_outcome(r),
                )
            },
            final(self)@ == patches_after(old(self)@, pid, address, record_outcome(r)),
    {
        if bytes.len() == 0 {
            return Err(PatchError::EmptyPatch);
        }
        match apply(mem, pid, address, bytes) {
            Err(e) => Err(e),
            Ok(original) => Ok(
                self.keep(pid, address, original, bytes, "custom patch".to_string()),
            ),
        }
    }

    /// Writes back what stood at an address before it was patched. The patch is forgotten only
    /// where that went well.
    pub fn restore_at<M: MemoryAccess>(&mut self, mem: &mut M, pid: u32, address: u64) -> (r: Result<
        (),
        PatchError,
    >)
        ensures
            access::follows(*final(mem), *old(mem)),
            restore_ran(
                access::since(final(mem).trace(), old(mem).trace()),
                pid,
                address,
                old(self)@,
                unit_outcome(r),
            ),
            final(self)@ == patches_restored(old(self)@, pid, address, unit_outcome(r)),
    {
        let ghost start = mem.trace();
        let records = self.records_at(address);
        match find_patch(&records, pid) {
            None => {
                assert(access::since(mem.trace(), start) =~= Seq::empty());
                let n: usize = records.len();
                assert(record_views(records@).len() == n);
                if n == 0 {
                    Err(PatchError::NotFound(address))
                } else {
                    Err(PatchError::WrongPid { address, owner: records[n - 1].pid, pid })
                }
            },
            Some(i) => {
                let result = mem.write_code(pid, address, records[i].original_bytes.as_slice());
                let ghost wrote = mem.trace().last();
                assert(access::since(mem.trace(), start) =~= seq![wrote]);
                match result {
                    Err(e) => Err(PatchError::Write(e)),
                    Ok(_) => {
                        let left = leave_out(&records, pid);
                        assert(record_views(left@).len() == left@.len());
                        if left.len() == 0 {
                            let _ = take_patches(&mut self.patches, address);
                        } else {
                            put_patches(&mut self.patches, address, left);
                        }
                        Ok(())
                    },
                }
            },
        }
    }

    /// Every patch, as it is shown.
    pub fn list(&self) -> (r: Vec<PatchRecordJson>)
        ensures
            shows_patches(r@, self@),
    {
        let order = patch_addresses(&self.patches);
        let mut r: Vec<PatchRecordJson> = Vec::new();
        let mut i: usize = 0;
        while i < order.len()
            invariant
                i <= order@.len(),
                lists_addresses(order@, self@),
                shows_each(r@, in_order(order@.take(i as int), self@)),
            decreases order@.len() - i,
        {
            let ghost before = in_order(order@.take(i as int), self@);
            let records = self.records_at(order[i]);
            assert(self@.contains_key(order@[i as int]));
            let ghost there = record_views(records@);
            assert(there.len() == records@.len());
            assert(before + there.take(0) =~= before);
            let mut j: usize = 0;
            while j < records.len()
                invariant
                    j <= records@.len(),
                    there == record_views(records@),
                    shows_each(r@, before + there.take(j as int)),
                decreases records@.len() - j,
            {
                let p = records[j].copy();
                let ghost shown = r@;
                r.push(
                    PatchRecordJson {
                        address: address_text(p.address),
                        original_bytes: hex_encode(p.original_bytes.as_slice()),
                        patched_bytes: hex_encode(p.patched_bytes.as_slice()),
                        description: p.description,
                    },
                );
                proof {
                    let now = before + there.take(j + 1);
                    assert(now =~= (before + there.take(j as int)).push(there[j as int]));
                    assert forall|k: int| 0 <= k < r@.len() implies (#[trigger] r@[k]).shows(
                        now[k],
                    ) by {
                        if k < shown.len() {
                            assert(r@[k] == shown[k]);
                        }
                    }
                }
                j += 1;
            }
            proof {
                assert(there.take(j as int) =~= there);
                assert(order@.take(i + 1).drop_last() =~= order@.take(i as int));
            }
            i += 1;
        }
        assert(order@.take(i as int) =~= order@);
        r
    }

    /// Writes back what stood at every patched address; a write that fails is passed over.
    pub fn restore_all<M: MemoryAccess>(&mut self, mem: &mut M)
        ensures
            access::follows(*final(mem), *old(mem)),
            final(self)@ == Map::<u64, Seq<PatchView>>::empty(),
            exists|order: Seq<u64>| #[trigger]
                lists_addresses(order, old(self)@) && written_back(
                    access::since(final(mem).trace(), old(mem).trace()),
                    in_order(order, old(self)@),
                ),
    {
        let ghost start = mem.trace();
        let ghost all = self@;
        let ghost mut events: Seq<MemEvent> = Seq::empty();
        let order = patch_addresses(&self.patches);
        let mut i: usize = 0;
        assert(start + events =~= start);
        while i < order.len()
            invariant
                i <= order@.len(),
                all == old(self)@,
                lists_addresses(order@, all),
                mem.trace() == start + events,
                mem.answers() == old(mem).answers(),
                old(mem).sound() ==> mem.sound(),
                written_back(events, in_order(order@.take(i as int), all)),
                forall|a: u64| #[trigger]
                    self@.contains_key(a) <==> all.contains_key(a) && !order@.take(
                        i as int,
                    ).contains(a),
                forall|a: u64| #[trigger] self@.contains_key(a) ==> self@[a] == all[a],
            decreases order@.len() - i,
        {
            let address: u64 = order[i];
            let ghost before = self@;
            let ghost earlier = in_order(order@.take(i as int), all);
            proof {
                assert(all.contains_key(order@[i as int]));
                assert(!order@.take(i as int).contains(address)) by {
                    if order@.take(i as int).contains(address) {
                        let k = choose|k: int|
                            0 <= k < i && order@.take(i as int)[k] == address;
                        assert(order@[k] == address);
                    }
                }
                assert(self@.contains_key(address));
            }
            if let Some(records) = take_patches(&mut self.patches, address) {
                let ghost there = record_views(records@);
                assert(there.len() == records@.len());
                assert(earlier + there.take(0) =~= earlier);
                let mut j: usize = 0;
                while j < records.len()
                    invariant
                        j <= records@.len(),
                        there == record_views(records@),
                        mem.trace() == start + events,
                        mem.answers() == old(mem).answers(),
                        old(mem).sound() ==> mem.sound(),
                        written_back(events, earlier + there.take(j as int)),
                    decreases records@.len() - j,
                {
                    let ghost done = events;
                    let _ = mem.write_code(
                        records[j].pid,
                        records[j].address,
                        records[j].original_bytes.as_slice(),
                    );
                    proof {
                        let wrote = mem.trace().last();
                        events = events.push(wrote);
                        assert(mem.trace() =~= start + events);
                        let now = earlier + there.take(j + 1);
                        assert(now =~= (earlier + there.take(j as int)).push(there[j as int]));
                        assert forall|k: int| 0 <= k < events.len() implies {
                            &&& #[trigger] events[k] is Code
                            &&& events[k]->Code_pid == now[k].pid
                            &&& events[k]->Code_address == now[k].address
                            &&& events[k]->Code_data == now[k].original
                        } by {
                            if k < done.len() {
                                assert(events[k] == done[k]);
                            }
                        }
                    }
                    j += 1;
                }
                proof {
                    assert(there.take(j as int) =~= there);
                    let done = order@.take(i + 1);
                    assert(done =~= order@.take(i as int).push(address));
                    assert(done.drop_last() =~= order@.take(i as int));
                    assert forall|a: u64| #[trigger]
                        self@.contains_key(a) <==> all.contains_key(a) && !done.contains(a) by {
                        assert(self@ == before.remove(address));
                        assert(before.contains_key(a) <==> all.contains_key(a) && !order@.take(
                            i as int,
                        ).contains(a));
                        if done.contains(a) {
                            let k = choose|k: int| 0 <= k < done.len() && done[k] == a;
                            if k < i {
                                assert(order@.take(i as int)[k] == a);
                            }
                        } else {
                            assert(a != address) by {
                                assert(done[i as int] == address);
                            }
                            assert(!order@.take(i as int).contains(a)) by {
                                if order@.take(i as int).contains(a) {
                                    let k = choose|k: int|
                                        0 <= k < i && order@.take(i as int)[k] == a;
                                    assert(done[k] == a);
                                }
                            }
                        }
                    }
                }
            }
            i += 1;
        }
        proof {
            access::trace_grows(start, events);
            assert(order@.take(order@.len() as int) =~= order@);
            assert forall|a: u64| !#[trigger] self@.contains_key(a) by {
                if all.contains_key(a) {
                    assert(order@.contains(a));
                }
            }
            assert(self@ =~= Map::<u64, Seq<PatchView>>::empty());
            assert(written_back(events, in_order(order@, all)));
        }
    }
}

// ─── Laws ───────────────────────────────────────────────────────────────────

/// Leaving one process out keeps the patches of every other, and no patch of that process.
proof fn lemma_others(records: Seq<PatchView>, pid: u32, q: u32)
    ensures
        patch_of(others(records, pid), q) == if q == pid {
            None::<PatchView>
        } else {
            patch_of(records, q)
        },
        others(records, pid).len() <= records.len(),
        forall|i: int|
            0 <= i < others(records, pid).len() ==> records.contains(
                #[trigger] others(records, pid)[i],
            ),
        forall|i: int|
            0 <= i < others(records, pid).len() ==> (#[trigger] others(records, pid)[i]).pid
                != pid,
    decreases records.len(),
{
    if records.len() > 0 {
        let fewer = records.drop_last();
        lemma_others(fewer, pid, q);
        let left = others(fewer, pid);
        assert(left.push(records.last()).drop_last() =~= left);
        assert forall|i: int| 0 <= i < others(records, pid).len() implies records.contains(
            #[trigger] others(records, pid)[i],
        ) by {
            if i < left.len() {
                assert(others(records, pid)[i] == left[i]);
                assert(fewer.contains(left[i]));
                let k = choose|k: int| 0 <= k < fewer.len() && fewer[k] == left[i];
                assert(records[k] == left[i]);
            } else {
                assert(records[records.len() - 1] == others(records, pid)[i]);
            }
        }
    }
}

/// Leaving one process out keeps every process at most once.
proof fn lemma_others_distinct(records: Seq<PatchView>, pid: u32)
    requires
        one_each(records),
    ensures
        one_each(others(records, pid)),
    decreases records.len(),
{
    if records.len() > 0 {
        let fewer = records.drop_last();
        assert forall|i: int, j: int| 0 <= i < j < fewer.len() implies #[trigger] fewer[i].pid
            != #[trigger] fewer[j].pid by {
            assert(records[i].pid != records[j].pid);
        }
        lemma_others_distinct(fewer, pid);
        lemma_others(fewer, pid, pid);
        let left = others(fewer, pid);
        if records.last().pid != pid {
            assert forall|i: int| 0 <= i < left.len() implies (#[trigger] left[i]).pid
                != records.last().pid by {
                assert(fewer.contains(left[i]));
                let k = choose|k: int| 0 <= k < fewer.len() && fewer[k] == left[i];
                assert(records[k].pid != records[records.len() - 1].pid);
            }
        }
    }
}

/// Each process stands in the list at most once.
pub open spec fn one_each(records: Seq<PatchView>) -> bool {
    forall|i: int, j: int|
        0 <= i < j < records.len() ==> #[trigger] records[i].pid != #[trigger] records[j].pid
}

/// The patches are in order: each stands under its own address, at each address every process
/// has at most one, and no address stands without a patch.
pub open spec fn filed(patches: PatchTable) -> bool {
    forall|a: u64| #[trigger]
        patches.contains_key(a) ==> {
            &&& patches[a].len() > 0
            &&& one_each(patches[a])
            &&& forall|i: int| 0 <= i < patches[a].len() ==> (#[trigger] patches[a][i]).address
                == a
        }
}

/// Patches are in order from the start and stay so, whatever is patched or restored.
pub proof fn patches_stay_filed(
    events: Seq<MemEvent>,
    pid: u32,
    address: u64,
    bytes: Seq<u8>,
    description: Seq<char>,
    patches: PatchTable,
    patched: Result<PatchView, PatchErrorView>,
    restored: Result<(), PatchErrorView>,
)
    requires
        filed(patches),
        patch_ran(events, pid, address, bytes, description, patches, patched),
    ensures
        filed(Map::<u64, Seq<PatchView>>::empty()),
        filed(patches_after(patches, pid, address, patched)),
        filed(patches_restored(patches, pid, address, restored)),
{
    let there = patches_at(patches, address);
    let left = others(there, pid);
    lemma_others(there, pid, pid);
    lemma_others_distinct(there, pid);
    assert forall|i: int| 0 <= i < left.len() implies (#[trigger] left[i]).address == address by {
        assert(there.contains(left[i]));
    }
    assert(forall|i: int|
        0 <= i < left.len() ==> (#[trigger] left[i]).pid != pid);
}

/// Restoring undoes a patch: it writes back, to the same process and address, what stood there
/// before the place was patched at all. That is what was read before the patch was written or,
/// where the place was patched already, what that earlier patch replaced. The patch is
/// forgotten, and no other, once its bytes are back; until then it stays.
pub proof fn restoring_undoes_a_patch(
    patching: Seq<MemEvent>,
    restoring: Seq<MemEvent>,
    pid: u32,
    address: u64,
    bytes: Seq<u8>,
    description: Seq<char>,
    patches: PatchTable,
    p: PatchView,
    result: Result<(), PatchErrorView>,
)
    requires
        patch_ran(patching, pid, address, bytes, description, patches, Ok(p)),
        restore_ran(restoring, pid, address, patches_after(patches, pid, address, Ok(p)), result),
    ensures
        restoring.len() == 1,
        restoring[0] is Code,
        restoring[0]->Code_pid == pid,
        restoring[0]->Code_address == address,
        patching[1]->Read_address == address,
        match patch_there(patches, pid, address) {
            None => restoring[0]->Code_data == read_before(patching),
            Some(earlier) => earlier.original.is_prefix_of(restoring[0]->Code_data),
        },
        result is Ok <==> restoring[0]->Code_outcome is Ok,
        result is Err ==> patches_restored(
            patches_after(patches, pid, address, Ok(p)),
            pid,
            address,
            result,
        ) == patches_after(patches, pid, address, Ok(p)),
        result is Ok ==> patch_there(
            patches_restored(patches_after(patches, pid, address, Ok(p)), pid, address, result),
            pid,
            address,
        ) is None,
        forall|q: u32, a: u64|
            (q, a) != (pid, address) ==> #[trigger] patch_there(
                patches_restored(patches_after(patches, pid, address, Ok(p)), pid, address, result),
                q,
                a,
            ) == patch_there(patches, q, a),
{
    let after = patches_after(patches, pid, address, Ok(p));
    assert(patches_at(after, address).last() == p);
    if let Some(earlier) = patch_there(patches, pid, address) {
        let first = earlier.original;
        assert(restoring[0]->Code_data.take(first.len() as int) =~= first);
    }
    patches_of_others_stay(patches, pid, address, Ok(p), result);
    patches_of_others_stay(after, pid, address, Ok(p), result);
    lemma_others(patches_at(after, address), pid, pid);
}

/// Patching a simulated process leaves the patch in its memory, and restoring it leaves the
/// memory as it was before.
pub proof fn restored_memory_is_as_before(
    before: MockMemoryAccess,
    patched: MockMemoryAccess,
    restored: MockMemoryAccess,
    address: u64,
    bytes: Seq<u8>,
    description: Seq<char>,
    patches: PatchTable,
    p: PatchView,
    result: Result<(), PatchErrorView>,
)
    requires
        before.sound(),
        access::apart(before.memory()),
        bytes.len() > 0,
        patch_there(patches, before.process(), address) is None,
        access::follows(patched, before),
        patch_ran(
            access::since(patched.trace(), before.trace()),
            before.process(),
            address,
            bytes,
            description,
            patches,
            Ok(p),
        ),
        access::follows(restored, patched),
        restore_ran(
            access::since(restored.trace(), patched.trace()),
            before.process(),
            address,
            patches_after(patches, before.process(), address, Ok(p)),
            result,
        ),
    ensures
        patched.memory() == access::written(before.memory(), address, bytes),
        access::readable(patched.memory(), address, bytes.len()) == bytes,
        result is Ok,
        restored.memory() == before.memory(),
        restored.map() == before.map(),
{
    let pid = before.process();
    let memory = before.memory();
    let patching = access::since(patched.trace(), before.trace());
    let restoring = access::since(restored.trace(), patched.trace());
    restoring_undoes_a_patch(
        patching,
        restoring,
        pid,
        address,
        bytes,
        description,
        patches,
        p,
        result,
    );
    access::simulation_follows_its_trace(before, patched);
    access::simulation_follows_its_trace(patched, restored);
    lemma_patched(before.state(), pid, patching, address, bytes, read_before(patching));
    access::read_gives_back_write(memory, address, bytes);
    access::writing_back_undoes(memory, address, bytes);
    lemma_one_event(patched.state(), pid, restoring);
    assert(access::true_answer(
        access::after_events(patched.state(), pid, restoring.take(0)),
        pid,
        restoring[0],
    ));
}

/// What applying a patch makes of a simulated process.
proof fn lemma_patched(
    s: SimView,
    pid: u32,
    events: Seq<MemEvent>,
    address: u64,
    bytes: Seq<u8>,
    original: Seq<u8>,
)
    requires
        apply_ran(events, pid, address, bytes, Ok(original)),
        bytes.len() > 0,
        forall|i: int|
            0 <= i < events.len() ==> access::true_answer(
                access::after_events(s, pid, events.take(i)),
                pid,
                #[trigger] events[i],
            ),
    ensures
        access::has_room(s.memory, address, bytes.len()),
        access::after_events(s, pid, events) == (SimView {
            memory: access::written(s.memory, address, bytes),
            map: s.map,
        }),
        original == access::readable(s.memory, address, bytes.len()),
{
    lemma_one_event(s, pid, events.take(1));
    assert(events.take(1)[0] == events[0]);
    assert(events.take(2).drop_last() =~= events.take(1));
    assert(events.take(2).last() == events[1]);
    assert(access::after_events(s, pid, events.take(2)) == s);
    assert(events.drop_last() =~= events.take(2));
    assert(access::true_answer(s, pid, events[1]));
    assert(access::true_answer(s, pid, events[2]));
    assert(original.take(bytes.len() as int) =~= original);
}

proof fn lemma_one_event(s: SimView, pid: u32, events: Seq<MemEvent>)
    requires
        events.len() == 1,
    ensures
        access::after_events(s, pid, events.take(0)) == s,
        access::after_events(s, pid, events) == access::after_event(s, pid, events[0]),
{
    assert(access::after_events(s, pid, events.take(0)) == s);
    assert(events.drop_last() =~= events.take(0));
    assert(access::after_events(s, pid, events.drop_last()) == s);
}

/// What is kept of a patch covers all that the patch replaced: as many bytes as were written or,
/// where the place was patched already, at least as many as either patch wrote.
pub proof fn originals_cover_the_patch(
    events: Seq<MemEvent>,
    pid: u32,
    address: u64,
    bytes: Seq<u8>,
    description: Seq<char>,
    patches: PatchTable,
    p: PatchView,
)
    requires
        patch_ran(events, pid, address, bytes, description, patches, Ok(p)),
    ensures
        read_before(events).len() == bytes.len(),
        p.original.len() >= p.patched.len(),
        patch_there(patches, pid, address) is None ==> p.original.len() == p.patched.len(),
        patch_there(patches, pid, address) matches Some(earlier) ==> p.original.len()
            >= earlier.original.len(),
{
}

/// Patching or restoring one process leaves the patches of every other in place, at the same
/// address too.
pub proof fn patches_of_others_stay(
    patches: PatchTable,
    pid: u32,
    address: u64,
    patched: Result<PatchView, PatchErrorView>,
    restored: Result<(), PatchErrorView>,
)
    requires
        patched matches Ok(p) ==> p.pid == pid,
    ensures
        forall|q: u32, a: u64|
            (q, a) != (pid, address) ==> #[trigger] patch_there(
                patches_after(patches, pid, address, patched),
                q,
                a,
            ) == patch_there(patches, q, a),
        forall|q: u32, a: u64|
            (q, a) != (pid, address) ==> #[trigger] patch_there(
                patches_restored(patches, pid, address, restored),
                q,
                a,
            ) == patch_there(patches, q, a),
{
    let there = patches_at(patches, address);
    let left = others(there, pid);
    assert forall|q: u32, a: u64| (q, a) != (pid, address) implies #[trigger] patch_there(
        patches_after(patches, pid, address, patched),
        q,
        a,
    ) == patch_there(patches, q, a) by {
        if a == address {
            lemma_others(there, pid, q);
            if let Ok(p) = patched {
                assert(left.push(p).drop_last() =~= left);
            }
        }
    }
    assert forall|q: u32, a: u64| (q, a) != (pid, address) implies #[trigger] patch_there(
        patches_restored(patches, pid, address, restored),
        q,
        a,
    ) == patch_there(patches, q, a) by {
        if a == address {
            lemma_others(there, pid, q);
        }
    }
}

/// Code is patched where, and only where, the first region of the map that holds all the bytes
/// may be touched and is executable or writable, and all that stands there could be read. Then
/// the patch, and nothing else, is written at the address, and what is returned is what was
/// read. Where the map forbids it, the error says so.
pub proof fn patches_go_where_the_map_allows(
    events: Seq<MemEvent>,
    pid: u32,
    address: u64,
    bytes: Seq<u8>,
    result: Result<Seq<u8>, PatchErrorView>,
    regions: Seq<crate::process::maps::RegionView>,
    k: int,
)
    requires
        apply_ran(events, pid, address, bytes, result),
        events[0]->Maps_outcome == Ok::<_, Seq<char>>(regions),
        0 <= k <= regions.len(),
        forall|j: int|
            0 <= j < k ==> !((#[trigger] regions[j]).start <= address && address + bytes.len()
                <= regions[j].end),
        k < regions.len() ==> regions[k].start <= address && address + bytes.len()
            <= regions[k].end,
    ensures
        k == regions.len() ==> events.len() == 1 && result == Err::<Seq<u8>, _>(
            PatchErrorView::NotMapped(address),
        ),
        k < regions.len() && regions[k].safety == RegionSafety::NeverTouch ==> events.len() == 1
            && result == Err::<Seq<u8>, _>(
            PatchErrorView::NeverTouch(address, regions[k].pathname),
        ),
        k < regions.len() && regions[k].safety != RegionSafety::NeverTouch
            && !regions[k].permissions.execute && !regions[k].permissions.write ==> events.len()
            == 1 && result == Err::<Seq<u8>, _>(
            PatchErrorView::NotCode(address, regions[k].permissions),
        ),
        k < regions.len() && regions[k].safety != RegionSafety::NeverTouch && (
        regions[k].permissions.execute || regions[k].permissions.write) ==> {
            &&& events.len() >= 2
            &&& events[1] is Read
            &&& events[1]->Read_pid == pid
            &&& events[1]->Read_address == address
            &&& events[1]->wanted == bytes.len()
            &&& result matches Ok(original) ==> {
                &&& events.len() == 3
                &&& events[2] is Code
                &&& events[2]->Code_pid == pid
                &&& events[2]->Code_address == address
                &&& events[2]->Code_data == bytes
                &&& events[1]->Read_outcome matches Ok((n, buffer)) && n == bytes.len()
                    && original == buffer && buffer.len() == bytes.len()
            }
            &&& events.len() == 3 && events[2]->Code_outcome is Ok ==> result is Ok
        },
{
    crate::mem::write::first_holding(regions, address, bytes.len(), k);
}

/// Overwriting with no-ops writes as many bytes 0x90 as there are to overwrite; nothing at all
/// is refused.
pub proof fn nops_fill_the_place(
    events: Seq<MemEvent>,
    pid: u32,
    address: u64,
    n: nat,
    patches: PatchTable,
    result: Result<PatchView, PatchErrorView>,
)
    requires
        nop_bytes_ran(events, pid, address, n, patches, result),
    ensures
        n == 0 ==> result == Err::<PatchView, _>(PatchErrorView::ZeroSize) && events.len() == 0,
        result matches Ok(p) ==> {
            &&& p.pid == pid
            &&& p.address == address
            &&& p.patched.len() == n
            &&& forall|i: int| 0 <= i < n ==> #[trigger] p.patched[i] == 0x90
            &&& p.description == "nop "@ + text::numeral(n, 10) + " bytes"@
            &&& events[2]->Code_data == p.patched
        },
{
}

/// Without a size, as many bytes are overwritten as the instruction at the address has.
pub proof fn nops_fill_the_instruction(
    events: Seq<MemEvent>,
    pid: u32,
    address: u64,
    decoded: Seq<DecodedView>,
    patches: PatchTable,
    p: PatchView,
)
    requires
        nop_decoded(events, pid, address, Ok(decoded), patches, Ok(p)),
    ensures
        decoded.len() > 0,
        p.patched.len() == decoded[0].bytes.len(),
        forall|i: int| 0 <= i < p.patched.len() ==> #[trigger] p.patched[i] == 0x90,
{
}

/// A patch is listed with its address and with bytes that can be read back.
pub proof fn patches_are_listed_with_their_bytes(shown: PatchRecordJson, p: PatchView)
    requires
        shown.shows(p),
    ensures
        shown.address@ == "0x"@ + text::numeral(p.address as nat, 16),
        hex::text_bytes(shown.original_bytes@) == Ok::<_, (Seq<char>, text::IntError)>(p.original),
        hex::text_bytes(shown.patched_bytes@) == Ok::<_, (Seq<char>, text::IntError)>(p.patched),
        shown.description@ == p.description,
{
    hex::hex_round_trip(p.original);
    hex::hex_round_trip(p.patched);
}

/// Where a patch is longer than the one that it replaces, it remembers the first bytes as they
/// were before the earlier patch, and the others as they were read now; where there was none,
/// all of them as they were read.
pub proof fn patches_remember_what_stood_there(
    events: Seq<MemEvent>,
    pid: u32,
    address: u64,
    bytes: Seq<u8>,
    description: Seq<char>,
    patches: PatchTable,
    p: PatchView,
    i: int,
)
    requires
        patch_ran(events, pid, address, bytes, description, patches, Ok(p)),
        0 <= i < bytes.len(),
    ensures
        p.pid == pid,
        p.address == address,
        p.patched == bytes,
        i < p.original.len(),
        patch_there(patches, pid, address) is None ==> p.original[i] == read_before(events)[i],
        patch_there(patches, pid, address) matches Some(earlier) ==> p.original[i] == if i
            < earlier.original.len() {
            earlier.original[i]
        } else {
            read_before(events)[i]
        },
{
}

/// Restoring all patches writes to each process and address what stood there before.
pub proof fn restoring_all_writes_back_each(
    events: Seq<MemEvent>,
    records: Seq<PatchView>,
    i: int,
)
    requires
        written_back(events, records),
        0 <= i < records.len(),
    ensures
        events.len() == records.len(),
        events[i] is Code,
        events[i]->Code_pid == records[i].pid,
        events[i]->Code_address == records[i].address,
        events[i]->Code_data == records[i].original,
{
}

} // verus!
