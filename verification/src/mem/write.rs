//! Writing values to a target process.
//!
//! [`write_value`] is the only way in which values are written. Right before each write the
//! memory map is read afresh and the target address is looked up in it; nothing is written
//! unless the region is safe at that moment.

use crate::bytes;
use crate::bytes::to_bytes;
use crate::mem::access;
use crate::mem::access::{AccessError, MemEvent, MemoryAccess, MockMemoryAccess};
use crate::number::Double;
use crate::process::maps;
use crate::process::maps::{MapRegion, RegionSafety, RegionView};
use crate::scan::candidate::ValueType;
use crate::text;
use crate::text::{push_address, push_decimal};
use vstd::prelude::*;

verus! {

// ─── Encoding ───────────────────────────────────────────────────────────────

/// The bytes that a value has in a type. Integers are cut and held within the type's range;
/// `Auto` names no type.
pub open spec fn encoded(value: Double, dtype: ValueType) -> Option<Seq<u8>> {
    match dtype {
        ValueType::I32 => Some(
            bytes::le_bytes(
                bytes::wrapped(value.saturated(i32::MIN as int, i32::MAX as int), 0x1_0000_0000),
                4,
            ),
        ),
        ValueType::U32 => Some(
            bytes::le_bytes(value.saturated(0, u32::MAX as int) as nat, 4),
        ),
        ValueType::F32 => Some(bytes::le_bytes(value.single(), 4)),
        ValueType::I64 => Some(
            bytes::le_bytes(
                bytes::wrapped(
                    value.saturated(i64::MIN as int, i64::MAX as int),
                    0x1_0000_0000_0000_0000,
                ),
                8,
            ),
        ),
        ValueType::U64 => Some(
            bytes::le_bytes(value.saturated(0, u64::MAX as int) as nat, 8),
        ),
        ValueType::F64 => Some(bytes::le_bytes(value.bits as nat, 8)),
        ValueType::Auto => None,
    }
}

/// The bytes of a value are as many as its type is wide.
pub proof fn encoded_width(value: Double, dtype: ValueType)
    ensures
        encoded(value, dtype) is None <==> dtype == ValueType::Auto,
        encoded(value, dtype) matches Some(data) ==> data.len() == dtype.width(),
{
    assert forall|n: nat, w: nat| #[trigger] bytes::le_bytes(n, w).len() == w by {
        bytes::le_bytes_len(n, w);
    }
}

/// What is written is read back: the bytes of an integer stand for the value that was held
/// within the range of the type, and those of a floating-point number for its bits.
pub proof fn encoded_reads_back(value: Double)
    ensures
        bytes::signed(
            bytes::le_value(encoded(value, ValueType::I32)->0),
            0x1_0000_0000,
        ) == value.saturated(i32::MIN as int, i32::MAX as int),
        bytes::le_value(encoded(value, ValueType::U32)->0) == value.saturated(0, u32::MAX as int),
        bytes::le_value(encoded(value, ValueType::F32)->0) == value.single(),
        bytes::signed(
            bytes::le_value(encoded(value, ValueType::I64)->0),
            0x1_0000_0000_0000_0000,
        ) == value.saturated(i64::MIN as int, i64::MAX as int),
        bytes::le_value(encoded(value, ValueType::U64)->0) == value.saturated(0, u64::MAX as int),
        bytes::le_value(encoded(value, ValueType::F64)->0) == value.bits,
{
    vstd::arithmetic::power2::lemma2_to64();
    vstd::arithmetic::power2::lemma2_to64_rest();
    assert forall|n: nat| n < 0x1_0000_0000 implies bytes::le_value(
        #[trigger] bytes::le_bytes(n, 4),
    ) == n by {
        bytes::le_round_trip(n, 4);
    }
    assert forall|n: nat| n < 0x1_0000_0000_0000_0000 implies bytes::le_value(
        #[trigger] bytes::le_bytes(n, 8),
    ) == n by {
        bytes::le_round_trip(n, 8);
    }
    crate::number::single_fits(value);
}

/// The bytes of a value in a type; `None` for `Auto`.
pub fn encode_value(value: Double, dtype: ValueType) -> (r: Result<Vec<u8>, WriteError>)
    ensures
        match r {
            Ok(data) => encoded(value, dtype) == Some(data@) && data@.len() == dtype.width(),
            Err(e) => dtype == ValueType::Auto && e@ == WriteErrorView::AutoType,
        },
{
    let data = match dtype {
        ValueType::I32 => {
            let i: i128 = value.to_int(-0x8000_0000, 0x7fff_ffff);
            to_bytes(if i < 0 { (i + 0x1_0000_0000) as u64 } else { i as u64 }, 4)
        },
        ValueType::U32 => to_bytes(value.to_int(0, 0xffff_ffff) as u64, 4),
        ValueType::F32 => to_bytes(value.to_single() as u64, 4),
        ValueType::I64 => {
            let i: i128 = value.to_int(-0x8000_0000_0000_0000, 0x7fff_ffff_ffff_ffff);
            to_bytes(if i < 0 { (i + 0x1_0000_0000_0000_0000) as u64 } else { i as u64 }, 8)
        },
        ValueType::U64 => to_bytes(value.to_int(0, 0xffff_ffff_ffff_ffff) as u64, 8),
        ValueType::F64 => to_bytes(value.bits, 8),
        ValueType::Auto => {
            return Err(WriteError::AutoType);
        },
    };
    Ok(data)
}

// ─── Errors ─────────────────────────────────────────────────────────────────

/// Why a value was not written.
#[derive(Clone, Debug)]
pub enum WriteError {
    /// `Auto` names no type to write.
    AutoType,
    /// The memory map could not be read.
    Maps(AccessError),
    /// No region holds all the bytes at the address.
    Unmapped(u64),
    /// The region at the address is not safe.
    NotSafe(u64, MapRegion),
    /// The write failed.
    Write(AccessError),
    /// Only some of the bytes were written.
    Partial {
        /// Bytes written.
        written: usize,
        /// Bytes to write.
        wanted: usize,
        /// Address.
        address: u64,
    },
}

/// A [`WriteError`] as a mathematical value.
pub enum WriteErrorView {
    /// `Auto` names no type to write.
    AutoType,
    /// The memory map could not be read.
    Maps(Seq<char>),
    /// No region holds all the bytes at the address.
    Unmapped(u64),
    /// The region at the address is not safe.
    NotSafe(u64, RegionView),
    /// The write failed.
    Write(Seq<char>),
    /// Only some of the bytes were written: how many, of how many, where.
    Partial(nat, nat, u64),
}

impl View for WriteError {
    type V = WriteErrorView;

    open spec fn view(&self) -> WriteErrorView {
        match self {
            WriteError::AutoType => WriteErrorView::AutoType,
            WriteError::Maps(e) => WriteErrorView::Maps(e@),
            WriteError::Unmapped(a) => WriteErrorView::Unmapped(*a),
            WriteError::NotSafe(a, r) => WriteErrorView::NotSafe(*a, r@),
            WriteError::Write(e) => WriteErrorView::Write(e@),
            WriteError::Partial { written, wanted, address } => WriteErrorView::Partial(
                *written as nat,
                *wanted as nat,
                *address,
            ),
        }
    }
}

/// What a write error says.
pub open spec fn write_message(e: WriteErrorView) -> Seq<char> {
    match e {
        WriteErrorView::AutoType => "cannot write with Auto type -- specify a concrete type"@,
        WriteErrorView::Maps(_) => "failed to read maps for pre-flight check"@,
        WriteErrorView::Unmapped(a) => "ABORT: address "@ + text::address(a)
            + " is not within any mapped region (may have been unmapped)"@,
        WriteErrorView::NotSafe(a, r) => "ABORT: address "@ + text::address(a) + " is in a "@
            + r.safety.says() + " region ("@ + r.permissions.letters()
            + "). Only Safe regions can be written to. Region: "@ + text::address(r.start) + "-"@
            + text::address(r.end) + " "@ + r.pathname,
        WriteErrorView::Write(_) => "process_vm_writev failed"@,
        WriteErrorView::Partial(written, wanted, a) => "partial write: wrote "@ + text::decimal(
            written,
        ) + "/"@ + text::decimal(wanted) + " bytes at "@ + text::address(a),
    }
}

impl WriteError {
    /// What the error says.
    pub fn message(&self) -> (r: String)
        ensures
            r@ == write_message(self@),
    {
        match self {
            WriteError::AutoType => "cannot write with Auto type -- specify a concrete type".to_string(),
            WriteError::Maps(_) => "failed to read maps for pre-flight check".to_string(),
            WriteError::Unmapped(a) => {
                let mut r = "ABORT: address ".to_string();
                push_address(&mut r, *a);
                r.append(" is not within any mapped region (may have been unmapped)");
                r
            },
            WriteError::NotSafe(a, region) => {
                let mut r = "ABORT: address ".to_string();
                push_address(&mut r, *a);
                r.append(" is in a ");
                r.append(region.safety.name().as_str());
                r.append(" region (");
                r.append(region.permissions.as_str().as_str());
                r.append("). Only Safe regions can be written to. Region: ");
                push_address(&mut r, region.start);
                r.append("-");
                push_address(&mut r, region.end);
                r.append(" ");
                r.append(region.pathname.as_str());
                r
            },
            WriteError::Write(_) => "process_vm_writev failed".to_string(),
            WriteError::Partial { written, wanted, address } => {
                let mut r = "partial write: wrote ".to_string();
                push_decimal(&mut r, *written as u64);
                r.append("/");
                push_decimal(&mut r, *wanted as u64);
                r.append(" bytes at ");
                push_address(&mut r, *address);
                r
            },
        }
    }
}

// ─── Writing ────────────────────────────────────────────────────────────────

/// All of `len` bytes at the address lie in the region.
pub open spec fn holds_all(r: RegionView, address: u64, len: nat) -> bool {
    r.start <= address && address + len <= r.end
}

/// Index of the first region from `i` on that holds all the bytes; the number of regions
/// where there is none.
pub open spec fn holding(regions: Seq<RegionView>, address: u64, len: nat, i: int) -> int
    decreases regions.len() - i,
{
    if i < 0 || i >= regions.len() {
        regions.len() as int
    } else if holds_all(regions[i], address, len) {
        i
    } else {
        holding(regions, address, len, i + 1)
    }
}

proof fn lemma_holding(regions: Seq<RegionView>, address: u64, len: nat, i: int, k: int)
    requires
        0 <= i <= k <= regions.len(),
        forall|j: int| i <= j < k ==> !holds_all(#[trigger] regions[j], address, len),
        k < regions.len() ==> holds_all(regions[k], address, len),
    ensures
        holding(regions, address, len, i) == k,
    decreases k - i,
{
    if i < k {
        lemma_holding(regions, address, len, i + 1, k);
    }
}

/// The region that counts is the first one that holds all the bytes.
pub proof fn first_holding(regions: Seq<RegionView>, address: u64, len: nat, k: int)
    requires
        0 <= k <= regions.len(),
        forall|j: int|
            0 <= j < k ==> !((#[trigger] regions[j]).start <= address && address + len
                <= regions[j].end),
        k < regions.len() ==> regions[k].start <= address && address + len <= regions[k].end,
    ensures
        holding(regions, address, len, 0) == k,
{
    lemma_holding(regions, address, len, 0, k);
}

/// Index of the first region that holds all the bytes.
pub fn find_holding(regions: &Vec<MapRegion>, address: u64, len: usize) -> (r: usize)
    ensures
        r == holding(maps::region_views(regions@), address, len as nat, 0),
        r <= regions@.len(),
        r < regions@.len() ==> holds_all(regions@[r as int]@, address, len as nat),
{
    let ghost views = maps::region_views(regions@);
    let mut i: usize = 0;
    while i < regions.len()
        invariant
            i <= regions@.len(),
            views == maps::region_views(regions@),
            forall|j: int| 0 <= j < i ==> !holds_all(#[trigger] views[j], address, len as nat),
        decreases regions@.len() - i,
    {
        assert(views[i as int] == regions@[i as int]@);
        if address >= regions[i].start && address <= regions[i].end && len as u64
            <= regions[i].end - address {
            proof {
                lemma_holding(views, address, len as nat, 0, i as int);
            }
            return i;
        }
        i += 1;
    }
    proof {
        lemma_holding(views, address, len as nat, 0, i as int);
    }
    i
}

/// What writing a value does and comes to. Without a type nothing is done. Otherwise the
/// memory map is read; only where the first region that holds all the bytes is safe does a
/// write follow.
pub open spec fn write_ran(
    events: Seq<MemEvent>,
    pid: u32,
    address: u64,
    value: Double,
    dtype: ValueType,
    result: Result<(), WriteErrorView>,
) -> bool {
    match encoded(value, dtype) {
        None => events.len() == 0 && result == Err::<(), _>(WriteErrorView::AutoType),
        Some(data) => {
            &&& events.len() > 0
            &&& events[0] is Maps
            &&& events[0]->Maps_pid == pid
            &&& match events[0]->Maps_outcome {
                Err(e) => events.len() == 1 && result == Err::<(), _>(WriteErrorView::Maps(e)),
                Ok(regions) => {
                    let k = holding(regions, address, data.len(), 0);
                    if k == regions.len() {
                        events.len() == 1 && result == Err::<(), _>(
                            WriteErrorView::Unmapped(address),
                        )
                    } else if regions[k].safety != RegionSafety::Safe {
                        events.len() == 1 && result == Err::<(), _>(
                            WriteErrorView::NotSafe(address, regions[k]),
                        )
                    } else {
                        &&& events.len() == 2
                        &&& events[1] is Write
                        &&& events[1]->Write_pid == pid
                        &&& events[1]->Write_address == address
                        &&& events[1]->Write_data == data
                        &&& result == match events[1]->Write_outcome {
                            Err(e) => Err(WriteErrorView::Write(e)),
                            Ok(n) => if n == data.len() {
                                Ok(())
                            } else {
                                Err(WriteErrorView::Partial(n, data.len(), address))
                            },
                        }
                    }
                },
            }
        },
    }
}

/// What writing a value came to.
pub open spec fn written_outcome(r: Result<(), WriteError>) -> Result<(), WriteErrorView> {
    match r {
        Ok(()) => Ok(()),
        Err(e) => Err(e@),
    }
}

/// A change to a target that a fresh look at its memory map allowed: the event before it read
/// the map of the same process, and the first region that holds all its bytes is safe there.
pub open spec fn guarded(events: Seq<MemEvent>, i: int) -> bool {
    &&& 0 < i < events.len()
    &&& events[i] is Write
    &&& events[i - 1] is Maps
    &&& events[i - 1]->Maps_pid == events[i]->Write_pid
    &&& events[i - 1]->Maps_outcome matches Ok(regions)
    &&& {
        let k = holding(regions, events[i]->Write_address, events[i]->Write_data.len(), 0);
        k < regions.len() && regions[k].safety == RegionSafety::Safe
    }
}

/// Writing a value never changes a target unless the memory map, read right before, shows the
/// bytes in a safe region.
pub proof fn writes_are_guarded(
    events: Seq<MemEvent>,
    pid: u32,
    address: u64,
    value: Double,
    dtype: ValueType,
    result: Result<(), WriteErrorView>,
)
    requires
        write_ran(events, pid, address, value, dtype, result),
    ensures
        forall|i: int|
            0 <= i < events.len() && (#[trigger] events[i]).mutates() ==> guarded(events, i),
{
    if encoded(value, dtype) is Some && events[0]->Maps_outcome is Ok {
        let data = encoded(value, dtype)->0;
        lemma_holding_bound(events[0]->Maps_outcome->Ok_0, address, data.len(), 0);
    }
}

/// A value that was written to a simulated process stands in its memory and is what is read
/// there; where the writing was refused the process is as it was.
pub proof fn written_values_stand(
    before: MockMemoryAccess,
    now: MockMemoryAccess,
    address: u64,
    value: Double,
    dtype: ValueType,
    result: Result<(), WriteErrorView>,
)
    requires
        before.sound(),
        access::follows(now, before),
        write_ran(
            access::since(now.trace(), before.trace()),
            before.process(),
            address,
            value,
            dtype,
            result,
        ),
    ensures
        now.map() == before.map(),
        result is Err ==> now.memory() == before.memory(),
        result is Ok ==> now.memory() == access::written(
            before.memory(),
            address,
            encoded(value, dtype)->0,
        ),
        result is Ok && access::apart(before.memory()) ==> access::readable(
            now.memory(),
            address,
            encoded(value, dtype)->0.len(),
        ) == encoded(value, dtype)->0,
{
    let (s, pid) = (before.state(), before.process());
    let events = access::since(now.trace(), before.trace());
    access::simulation_follows_its_trace(before, now);
    if events.len() > 0 {
        assert(access::after_events(s, pid, events.take(0)) == s);
        assert(events.take(1).drop_last() =~= events.take(0));
        assert(access::after_events(s, pid, events.take(1)) == s);
        if events.len() == 1 {
            assert(events.take(1) =~= events);
        } else {
            let data = encoded(value, dtype)->0;
            assert(events.drop_last() =~= events.take(1));
            assert(access::true_answer(s, pid, events[1]));
            if !access::has_room(before.memory(), address, data.len()) {
                access::no_room_no_change(before.memory(), address, data);
            }
            if result is Ok && access::apart(before.memory()) {
                access::read_gives_back_write(before.memory(), address, data);
            }
        }
    }
}

proof fn lemma_holding_bound(regions: Seq<RegionView>, address: u64, len: nat, i: int)
    ensures
        holding(regions, address, len, i) <= regions.len(),
    decreases regions.len() - i,
{
    if 0 <= i < regions.len() && !holds_all(regions[i], address, len) {
        lemma_holding_bound(regions, address, len, i + 1);
    }
}

/// A write that succeeded wrote every byte of the value, to the address asked for.
pub proof fn success_means_written(
    events: Seq<MemEvent>,
    pid: u32,
    address: u64,
    value: Double,
    dtype: ValueType,
)
    requires
        write_ran(events, pid, address, value, dtype, Ok(())),
    ensures
        encoded(value, dtype) is Some,
        events.last() == (MemEvent::Write {
            pid,
            address,
            data: encoded(value, dtype)->0,
            outcome: Ok(encoded(value, dtype)->0.len()),
        }),
{
}

/// Writes a value of a type to an address, where its region is safe at that moment.
pub fn write_value<M: MemoryAccess>(
    mem: &mut M,
    pid: u32,
    address: u64,
    value: Double,
    dtype: ValueType,
) -> (r: Result<(), WriteError>)
    ensures
        access::follows(*final(mem), *old(mem)),
        write_ran(
            access::since(final(mem).trace(), old(mem).trace()),
            pid,
            address,
            value,
            dtype,
            written_outcome(r),
        ),
{
    let ghost start = mem.trace();
    let data = match encode_value(value, dtype) {
        Ok(data) => data,
        Err(e) => {
            assert(access::since(mem.trace(), start) =~= Seq::empty());
            return Err(e);
        },
    };
    let result = mem.read_maps(pid);
    let ghost looked = mem.trace().last();
    assert(access::since(mem.trace(), start) =~= seq![looked]);
    let mut regions = match result {
        Ok(regions) => regions,
        Err(e) => {
            return Err(WriteError::Maps(e));
        },
    };
    let k: usize = find_holding(&regions, address, data.len());
    if k == regions.len() {
        return Err(WriteError::Unmapped(address));
    }
    assert(maps::region_views(regions@)[k as int] == regions@[k as int]@);
    if regions[k].safety != RegionSafety::Safe {
        let region = regions.swap_remove(k);
        return Err(WriteError::NotSafe(address, region));
    }
    let result = mem.write(pid, address, data.as_slice());
    let ghost wrote = mem.trace().last();
    assert(access::since(mem.trace(), start) =~= seq![looked, wrote]);
    match result {
        Err(e) => Err(WriteError::Write(e)),
        Ok(n) => {
            if n != data.len() {
                Err(WriteError::Partial { written: n, wanted: data.len(), address })
            } else {
                Ok(())
            }
        },
    }
}

/// The bytes that are written for a value, read as a number in the type, are the value with its
/// fractional part cut off, held within the range of the type; a floating-point type gets the
/// number itself, in its precision.
pub proof fn values_are_written_as_their_type(value: Double)
    requires
        !value.nan(),
    ensures
        ({
            let v = value.truncated();
            let four = bytes::le_value(encoded(value, ValueType::I32)->0);
            let eight = bytes::le_value(encoded(value, ValueType::I64)->0);
            &&& (if four < 0x8000_0000 { four as int } else { four - 0x1_0000_0000 }) == if v
                < -0x8000_0000 {
                -0x8000_0000
            } else if v > 0x7fff_ffff {
                0x7fff_ffff
            } else {
                v
            }
            &&& bytes::le_value(encoded(value, ValueType::U32)->0) == if v < 0 {
                0
            } else if v > 0xffff_ffff {
                0xffff_ffff
            } else {
                v
            }
            &&& (if eight < 0x8000_0000_0000_0000 {
                eight as int
            } else {
                eight - 0x1_0000_0000_0000_0000
            }) == if v < -0x8000_0000_0000_0000 {
                -0x8000_0000_0000_0000
            } else if v > 0x7fff_ffff_ffff_ffff {
                0x7fff_ffff_ffff_ffff
            } else {
                v
            }
            &&& bytes::le_value(encoded(value, ValueType::U64)->0) == if v < 0 {
                0
            } else if v > 0xffff_ffff_ffff_ffff {
                0xffff_ffff_ffff_ffff
            } else {
                v
            }
            &&& bytes::le_value(encoded(value, ValueType::F32)->0) == value.single()
            &&& bytes::le_value(encoded(value, ValueType::F64)->0) == value.bits
            &&& encoded(value, ValueType::I32)->0.len() == 4
            &&& encoded(value, ValueType::U32)->0.len() == 4
            &&& encoded(value, ValueType::F32)->0.len() == 4
            &&& encoded(value, ValueType::I64)->0.len() == 8
            &&& encoded(value, ValueType::U64)->0.len() == 8
            &&& encoded(value, ValueType::F64)->0.len() == 8
        }),
{
    encoded_reads_back(value);
    encoded_width(value, ValueType::I32);
    encoded_width(value, ValueType::U32);
    encoded_width(value, ValueType::F32);
    encoded_width(value, ValueType::I64);
    encoded_width(value, ValueType::U64);
    encoded_width(value, ValueType::F64);
    vstd::arithmetic::power2::lemma2_to64();
    vstd::arithmetic::power2::lemma2_to64_rest();
    bytes::le_value_bound(encoded(value, ValueType::I32)->0);
    bytes::le_value_bound(encoded(value, ValueType::I64)->0);
}

/// A value is written where, and only where, the first region of the map that holds all its
/// bytes is safe: no byte of it lies outside that region. Then the write is for the address and
/// the bytes of the value, and nothing else is written; where no region holds them, or the first
/// that does is not safe, the error says so.
pub proof fn writes_go_where_the_map_allows(
    events: Seq<MemEvent>,
    pid: u32,
    address: u64,
    value: Double,
    dtype: ValueType,
    result: Result<(), WriteErrorView>,
    regions: Seq<RegionView>,
    k: int,
)
    requires
        write_ran(events, pid, address, value, dtype, result),
        dtype != ValueType::Auto,
        events[0]->Maps_outcome == Ok::<_, Seq<char>>(regions),
        0 <= k <= regions.len(),
        forall|j: int|
            0 <= j < k ==> !((#[trigger] regions[j]).start <= address && address + encoded(
                value,
                dtype,
            )->0.len() <= regions[j].end),
        k < regions.len() ==> regions[k].start <= address && address + encoded(
            value,
            dtype,
        )->0.len() <= regions[k].end,
    ensures
        k == regions.len() ==> events.len() == 1 && result == Err::<(), _>(
            WriteErrorView::Unmapped(address),
        ),
        k < regions.len() && regions[k].safety != RegionSafety::Safe ==> events.len() == 1
            && result == Err::<(), _>(WriteErrorView::NotSafe(address, regions[k])),
        k < regions.len() && regions[k].safety == RegionSafety::Safe ==> {
            &&& events.len() == 2
            &&& events[1] is Write
            &&& events[1]->Write_pid == pid
            &&& events[1]->Write_address == address
            &&& events[1]->Write_data == encoded(value, dtype)->0
            &&& result is Ok <==> events[1]->Write_outcome == Ok::<nat, Seq<char>>(
                encoded(value, dtype)->0.len(),
            )
        },
{
    encoded_width(value, dtype);
    lemma_holding(regions, address, encoded(value, dtype)->0.len(), 0, k);
}

} // verus!
