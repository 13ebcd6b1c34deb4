//! Access to the memory of other processes.
//!
//! Everything that reads or writes a target goes through [`MemoryAccess`]. The trait keeps a
//! ghost trace of what was asked and what came back, and the contracts of the code above it
//! are stated over that trace. [`MockMemoryAccess`] is a simulated process.

use crate::process::maps;
use crate::process::maps::{MapRegion, RegionView};
use crate::text;
use crate::text::{push_address, push_decimal};
use vstd::prelude::*;

verus! {

/// Why memory could not be accessed.
#[derive(Clone, Debug)]
pub struct AccessError {
    /// What the operating system says.
    pub message: String,
}

impl View for AccessError {
    type V = Seq<char>;

    open spec fn view(&self) -> Seq<char> {
        self.message@
    }
}

impl AccessError {
    /// A copy of the error.
    pub fn copy(&self) -> (r: AccessError)
        ensures
            r@ == self@,
    {
        AccessError { message: self.message.clone() }
    }
}

/// One access to a target process, with its outcome.
#[allow(inconsistent_fields)]
pub enum MemEvent {
    /// Memory was read into a buffer of `wanted` bytes. A success tells how many bytes came
    /// and what the whole buffer holds afterwards.
    Read { pid: u32, address: u64, wanted: nat, outcome: Result<(nat, Seq<u8>), Seq<char>> },
    /// Data was written. A success tells how many bytes went.
    Write { pid: u32, address: u64, data: Seq<u8>, outcome: Result<nat, Seq<char>> },
    /// The memory map was read.
    Maps { pid: u32, outcome: Result<Seq<RegionView>, Seq<char>> },
    /// Code was overwritten, past the protection of its pages.
    Code { pid: u32, address: u64, data: Seq<u8>, outcome: Result<nat, Seq<char>> },
    /// A simulated process was set up anew.
    Arranged { memory: Seq<BlockView>, map: Seq<RegionView> },
}

impl MemEvent {
    /// The event changes the target.
    pub open spec fn mutates(self) -> bool {
        self is Write || self is Code || self is Arranged
    }
}

/// What a read came to.
pub open spec fn read_outcome(r: Result<usize, AccessError>, buffer: Seq<u8>) -> Result<
    (nat, Seq<u8>),
    Seq<char>,
> {
    match r {
        Ok(n) => Ok((n as nat, buffer)),
        Err(e) => Err(e@),
    }
}

/// A read that gave bytes gave no more than were wanted, in a buffer of the size that was wanted.
pub open spec fn fills(e: MemEvent) -> bool {
    e->Read_outcome matches Ok((n, buffer)) ==> n <= buffer.len() && buffer.len() == e->wanted
}

/// What a write came to.
pub open spec fn write_outcome(r: Result<usize, AccessError>) -> Result<nat, Seq<char>> {
    match r {
        Ok(n) => Ok(n as nat),
        Err(e) => Err(e@),
    }
}

/// What reading a memory map came to.
pub open spec fn maps_outcome(r: Result<Vec<MapRegion>, AccessError>) -> Result<
    Seq<RegionView>,
    Seq<char>,
> {
    match r {
        Ok(v) => Ok(maps::region_views(v@)),
        Err(e) => Err(e@),
    }
}

/// What happened after `before`, in a trace that continues it.
pub open spec fn since(now: Seq<MemEvent>, before: Seq<MemEvent>) -> Seq<MemEvent> {
    now.skip(before.len() as int)
}

/// The trace continues the earlier one.
pub open spec fn continues(now: Seq<MemEvent>, before: Seq<MemEvent>) -> bool {
    before.is_prefix_of(now)
}

/// A trace that continues another is that one and what happened since.
pub proof fn trace_splits(now: Seq<MemEvent>, before: Seq<MemEvent>)
    requires
        continues(now, before),
    ensures
        now == before + since(now, before),
{
    assert(now =~= before + since(now, before)) by {
        assert forall|i: int| 0 <= i < before.len() implies before[i] == now[i] by {
            assert(before[i] == now.subrange(0, before.len() as int)[i]);
        }
    }
}

/// A trace with something added continues it.
pub proof fn trace_grows(before: Seq<MemEvent>, new: Seq<MemEvent>)
    ensures
        continues(before + new, before),
        since(before + new, before) == new,
{
    assert((before + new).subrange(0, before.len() as int) =~= before);
    assert(since(before + new, before) =~= new);
}

/// What was asked of a memory, and what came back.
pub type Trace = Seq<MemEvent>;

/// A set of processes.
pub type Processes = Set<u32>;

/// `now` is what became of `before` by requests alone: the trace goes on, the same processes
/// are answered for, and if the trace told the truth it still does.
pub open spec fn follows<M: MemoryAccess>(now: M, before: M) -> bool {
    &&& continues(now.trace(), before.trace())
    &&& now.answers() == before.answers()
    &&& before.sound() ==> now.sound()
}

/// Access to the memory of processes.
pub trait MemoryAccess {
    /// What was asked so far, and what came back. Only contracts speak of it; nothing calls it.
    spec fn trace(&self) -> Trace;

    /// The processes that are answered for. Only contracts speak of it; nothing calls it.
    spec fn answers(&self) -> Processes;

    /// What came back is what such a memory answers, as far as it is known how it does. Only
    /// contracts speak of it; nothing calls it.
    spec fn sound(&self) -> bool;

    /// Reads from `address` of process `pid` into the buffer. Returns how many bytes came,
    /// which may be fewer than the buffer holds.
    fn read(&mut self, pid: u32, address: u64, buffer: &mut [u8]) -> (r: Result<
        usize,
        AccessError,
    >)
        ensures
            final(self).answers() == old(self).answers(),
            old(self).sound() ==> final(self).sound(),
            final(buffer)@.len() == old(buffer)@.len(),
            r matches Ok(n) ==> n <= old(buffer)@.len(),
            final(self).trace() == old(self).trace().push(
                (MemEvent::Read {
                    pid,
                    address,
                    wanted: old(buffer)@.len(),
                    outcome: read_outcome(r, final(buffer)@),
                }),
            ),
    ;

    /// Writes the data to `address` of process `pid`. Returns how many bytes went.
    fn write(&mut self, pid: u32, address: u64, data: &[u8]) -> (r: Result<usize, AccessError>)
        ensures
            final(self).answers() == old(self).answers(),
            old(self).sound() ==> final(self).sound(),
            final(self).trace() == old(self).trace().push(
                (MemEvent::Write { pid, address, data: data@, outcome: write_outcome(r) }),
            ),
    ;

    /// Reads the memory map of process `pid`.
    fn read_maps(&mut self, pid: u32) -> (r: Result<Vec<MapRegion>, AccessError>)
        ensures
            final(self).answers() == old(self).answers(),
            old(self).sound() ==> final(self).sound(),
            final(self).trace() == old(self).trace().push(
                (MemEvent::Maps { pid, outcome: maps_outcome(r) }),
            ),
    ;

    /// Overwrites code at `address` of process `pid`, past the protection of its pages.
    /// Returns how many bytes went.
    fn write_code(&mut self, pid: u32, address: u64, data: &[u8]) -> (r: Result<
        usize,
        AccessError,
    >)
        ensures
            final(self).answers() == old(self).answers(),
            old(self).sound() ==> final(self).sound(),
            final(self).trace() == old(self).trace().push(
                (MemEvent::Code { pid, address, data: data@, outcome: write_outcome(r) }),
            ),
    ;
}

// ─── Simulated process ──────────────────────────────────────────────────────

/// A block of simulated memory.
struct Block {
    base: u64,
    data: Vec<u8>,
}

/// A block of simulated memory as a mathematical value.
pub struct BlockView {
    /// First address.
    pub base: u64,
    /// Contents.
    pub data: Seq<u8>,
}

impl BlockView {
    /// First address after the block.
    pub open spec fn end(self) -> int {
        self.base + self.data.len()
    }

    /// The address lies in the block.
    pub open spec fn holds(self, address: u64) -> bool {
        self.base <= address < self.end()
    }

    /// `len` bytes from the address lie in the block.
    pub open spec fn fits(self, address: u64, len: nat) -> bool {
        self.base <= address && address + len <= self.end()
    }

    /// The block with `data` written at the address.
    pub open spec fn updated(self, address: u64, data: Seq<u8>) -> BlockView {
        let at = address - self.base;
        BlockView {
            base: self.base,
            data: self.data.take(at) + data + self.data.skip(at + data.len()),
        }
    }
}

/// Index of the first block from `i` on that `good` accepts; the number of blocks where there
/// is none.
pub open spec fn first_block(
    blocks: Seq<BlockView>,
    good: spec_fn(BlockView) -> bool,
    i: int,
) -> int
    decreases blocks.len() - i,
{
    if i < 0 || i >= blocks.len() {
        blocks.len() as int
    } else if good(blocks[i]) {
        i
    } else {
        first_block(blocks, good, i + 1)
    }
}

proof fn lemma_first_block(
    blocks: Seq<BlockView>,
    good: spec_fn(BlockView) -> bool,
    i: int,
    k: int,
)
    requires
        0 <= i <= k <= blocks.len(),
        forall|j: int| i <= j < k ==> !good(#[trigger] blocks[j]),
        k < blocks.len() ==> good(blocks[k]),
    ensures
        first_block(blocks, good, i) == k,
    decreases k - i,
{
    if i < k {
        lemma_first_block(blocks, good, i + 1, k);
    }
}

/// A simulated process: blocks of memory at increasing addresses, and a memory map.
pub struct MockMemoryAccess {
    /// The only process that it answers for.
    pub pid: u32,
    blocks: Vec<Block>,
    maps: Vec<MapRegion>,
    log: Ghost<Seq<MemEvent>>,
}

impl MockMemoryAccess {
    /// The only process that it answers for.
    pub closed spec fn process(&self) -> u32 {
        self.pid
    }

    /// The blocks of memory, at increasing addresses.
    pub closed spec fn memory(&self) -> Seq<BlockView> {
        Seq::new(
            self.blocks@.len(),
            |i: int| BlockView { base: self.blocks@[i].base, data: self.blocks@[i].data@ },
        )
    }

    /// The memory map.
    pub closed spec fn map(&self) -> Seq<RegionView> {
        maps::region_views(self.maps@)
    }

    /// A process without memory.
    #[must_use]
    pub fn new(pid: u32) -> (r: MockMemoryAccess)
        ensures
            r.process() == pid,
            r.memory() == Seq::<BlockView>::empty(),
            r.map() == Seq::<RegionView>::empty(),
            r.trace() == Seq::<MemEvent>::empty(),
            r.sound(),
    {
        let r = MockMemoryAccess {
            pid,
            blocks: Vec::new(),
            maps: Vec::new(),
            log: Ghost(Seq::empty()),
        };
        assert(r.memory() =~= Seq::empty());
        assert(r.map() =~= Seq::empty());
        r
    }

    /// Adds a block of memory. A block that starts at the same address is replaced.
    pub fn add_region(&mut self, base: u64, data: Vec<u8>)
        ensures
            final(self).process() == old(self).process(),
            final(self).memory() == with_block(
                old(self).memory(),
                (BlockView { base, data: data@ }),
            ),
            final(self).map() == old(self).map(),
            final(self).trace() == old(self).trace().push(
                (MemEvent::Arranged { memory: final(self).memory(), map: final(self).map() }),
            ),
            old(self).sound() ==> final(self).sound(),
    {
        let mut k: usize = 0;
        while k < self.blocks.len() && self.blocks[k].base < base
            invariant
                k <= self.blocks@.len(),
                self.blocks == old(self).blocks,
                forall|j: int| 0 <= j < k ==> self.memory()[j].base < base,
                self.pid == old(self).pid,
                self.maps == old(self).maps,
                self.log == old(self).log,
            decreases self.blocks@.len() - k,
        {
            k += 1;
        }
        let ghost block = BlockView { base, data: data@ };
        proof {
            let m = self.memory();
            assert(forall|j: int| 0 <= j < k ==> !((|b: BlockView| b.base >= base)(#[trigger] m[j])));
            lemma_first_block(m, |b: BlockView| b.base >= base, 0, k as int);
        }
        if k < self.blocks.len() && self.blocks[k].base == base {
            self.blocks.set(k, Block { base, data });
        } else {
            self.blocks.insert(k, Block { base, data });
        }
        assert(self.memory() =~= with_block(old(self).memory(), block));
        self.note();
    }

    /// Sets the memory map.
    pub fn set_maps(&mut self, regions: Vec<MapRegion>)
        ensures
            final(self).process() == old(self).process(),
            final(self).memory() == old(self).memory(),
            final(self).map() == maps::region_views(regions@),
            final(self).trace() == old(self).trace().push(
                (MemEvent::Arranged { memory: final(self).memory(), map: final(self).map() }),
            ),
            old(self).sound() ==> final(self).sound(),
    {
        self.maps = regions;
        assert(self.memory() =~= old(self).memory());
        self.note();
    }

    /// Index of the first block that holds the address.
    fn find_block(&self, address: u64) -> (r: usize)
        ensures
            r == first_block(self.memory(), |b: BlockView| b.holds(address), 0),
            r <= self.blocks@.len(),
            r < self.blocks@.len() ==> self.memory()[r as int].holds(address),
    {
        let mut k: usize = 0;
        let ghost good = |b: BlockView| b.holds(address);
        while k < self.blocks.len()
            invariant
                k <= self.blocks@.len(),
                good == (|b: BlockView| b.holds(address)),
                forall|j: int| 0 <= j < k ==> !good(#[trigger] self.memory()[j]),
            decreases self.blocks@.len() - k,
        {
            let b = &self.blocks[k];
            assert(self.memory()[k as int].base == b.base);
            if address >= b.base && address - b.base < b.data.len() as u64 {
                proof {
                    lemma_first_block(self.memory(), good, 0, k as int);
                }
                return k;
            }
            k += 1;
        }
        proof {
            lemma_first_block(self.memory(), good, 0, k as int);
        }
        k
    }

    /// Index of the first block that has room for `len` bytes at the address.
    fn find_room(&self, address: u64, len: usize) -> (r: usize)
        ensures
            r == first_block(self.memory(), |b: BlockView| b.fits(address, len as nat), 0),
            r <= self.blocks@.len(),
            r < self.blocks@.len() ==> self.memory()[r as int].fits(address, len as nat),
    {
        let mut k: usize = 0;
        let ghost good = |b: BlockView| b.fits(address, len as nat);
        while k < self.blocks.len()
            invariant
                k <= self.blocks@.len(),
                good == (|b: BlockView| b.fits(address, len as nat)),
                forall|j: int| 0 <= j < k ==> !good(#[trigger] self.memory()[j]),
            decreases self.blocks@.len() - k,
        {
            let b = &self.blocks[k];
            assert(self.memory()[k as int].base == b.base);
            if address >= b.base && address - b.base <= b.data.len() as u64 && len as u64
                <= b.data.len() as u64 - (address - b.base) {
                proof {
                    lemma_first_block(self.memory(), good, 0, k as int);
                }
                return k;
            }
            k += 1;
        }
        proof {
            lemma_first_block(self.memory(), good, 0, k as int);
        }
        k
    }

    /// Copies the data into the block with index `k`.
    fn store(&mut self, k: usize, address: u64, data: &[u8])
        requires
            k < old(self).memory().len(),
            old(self).memory()[k as int].fits(address, data@.len()),
        ensures
            final(self).process() == old(self).process(),
            final(self).memory() == old(self).memory().update(
                k as int,
                old(self).memory()[k as int].updated(address, data@),
            ),
            final(self).map() == old(self).map(),
            final(self).trace() == old(self).trace(),
    {
        let ghost block = self.memory()[k as int];
        let base: u64 = self.blocks[k].base;
        let at: usize = (address - base) as usize;
        let mut fresh: Vec<u8> = Vec::new();
        let n: usize = self.blocks[k].data.len();
        let mut i: usize = 0;
        while i < n
            invariant
                i <= n,
                k < self.blocks@.len(),
                self == old(self),
                n == self.blocks@[k as int].data@.len(),
                block.data == self.blocks@[k as int].data@,
                block.base == base,
                at == address - base,
                at + data@.len() <= n,
                fresh@ == block.updated(address, data@).data.take(i as int),
            decreases n - i,
        {
            let b: u8 = if i >= at && i - at < data.len() {
                data[i - at]
            } else {
                self.blocks[k].data[i]
            };
            fresh.push(b);
            assert(fresh@ =~= block.updated(address, data@).data.take(i + 1));
            i += 1;
        }
        assert(fresh@ =~= block.updated(address, data@).data);
        self.blocks.set(k, Block { base, data: fresh });
        assert(self.memory() =~= old(self).memory().update(
            k as int,
            old(self).memory()[k as int].updated(address, data@),
        ));
    }

    /// Sets up the bytes at an address.
    pub fn write_value(&mut self, address: u64, value: &[u8])
        requires
            exists|i: int|
                0 <= i < old(self).memory().len() && (#[trigger] old(self).memory()[i]).fits(
                    address,
                    value@.len(),
                ),
        ensures
            final(self).process() == old(self).process(),
            final(self).memory() == written(old(self).memory(), address, value@),
            final(self).map() == old(self).map(),
            final(self).trace() == old(self).trace().push(
                (MemEvent::Arranged { memory: final(self).memory(), map: final(self).map() }),
            ),
            old(self).sound() ==> final(self).sound(),
    {
        let k = self.find_room(address, value.len());
        proof {
            if k == self.blocks@.len() {
                let good = |b: BlockView| b.fits(address, value@.len());
                let i = choose|i: int|
                    0 <= i < self.memory().len() && (#[trigger] self.memory()[i]).fits(
                        address,
                        value@.len(),
                    );
                lemma_first_is_first(self.memory(), good, 0, i);
            }
        }
        self.store(k, address, value);
        self.note();
    }

    /// Notes in the trace that the process was set up anew.
    fn note(&mut self)
        ensures
            final(self).process() == old(self).process(),
            final(self).memory() == old(self).memory(),
            final(self).map() == old(self).map(),
            final(self).trace() == old(self).trace().push(
                (MemEvent::Arranged { memory: old(self).memory(), map: old(self).map() }),
            ),
            answered(old(self).trace(), old(self).process()) ==> final(self).sound(),
    {
        let ghost e = MemEvent::Arranged { memory: self.memory(), map: self.map() };
        proof {
            self.log@ = self.log@.push(e);
            assert(self.memory() =~= old(self).memory());
            lemma_answered_push(old(self).trace(), e, self.pid);
        }
    }

    /// The memory and the memory map.
    pub open spec fn state(&self) -> SimView {
        SimView { memory: self.memory(), map: self.map() }
    }

    /// The bytes at an address.
    pub fn read_value(&self, address: u64, size: usize) -> (r: Vec<u8>)
        requires
            exists|i: int|
                0 <= i < self.memory().len() && (#[trigger] self.memory()[i]).holds(address),
            size > 0,
        ensures
            r@.len() == size,
            ({
                let bytes = readable(self.memory(), address, size as nat);
                &&& r@.take(bytes.len() as int) == bytes
                &&& forall|i: int| bytes.len() <= i < size ==> r@[i] == 0
            }),
    {
        let k = self.find_block(address);
        proof {
            if k == self.blocks@.len() {
                let good = |b: BlockView| b.holds(address);
                let i = choose|i: int|
                    0 <= i < self.memory().len() && (#[trigger] self.memory()[i]).holds(address);
                lemma_first_is_first(self.memory(), good, 0, i);
            }
        }
        let ghost bytes = readable(self.memory(), address, size as nat);
        let mut r: Vec<u8> = vec![0u8; size];
        let n = self.fetch(k, address, r.as_mut_slice());
        assert(r@.take(n as int) =~= bytes);
        r
    }

    /// Copies what the block with index `k` holds from the address on into the buffer.
    fn fetch(&self, k: usize, address: u64, buffer: &mut [u8]) -> (n: usize)
        requires
            k < self.memory().len(),
            self.memory()[k as int].holds(address),
            k == first_block(self.memory(), |b: BlockView| b.holds(address), 0),
        ensures
            final(buffer)@.len() == old(buffer)@.len(),
            n == readable(self.memory(), address, old(buffer)@.len()).len(),
            n <= old(buffer)@.len(),
            final(buffer)@ == readable(self.memory(), address, old(buffer)@.len()) + old(
                buffer,
            )@.skip(n as int),
    {
        let at: usize = (address - self.blocks[k].base) as usize;
        let available: usize = self.blocks[k].data.len() - at;
        let n: usize = if available < buffer.len() { available } else { buffer.len() };
        let ghost bytes = readable(self.memory(), address, buffer@.len());
        let ghost before = buffer@;
        assert(self.memory()[k as int].data == self.blocks@[k as int].data@);
        assert(bytes.len() == n);
        let mut i: usize = 0;
        while i < n
            invariant
                i <= n <= buffer@.len(),
                buffer@.len() == before.len(),
                k < self.blocks@.len(),
                at + n <= self.blocks@[k as int].data.len(),
                bytes == self.blocks@[k as int].data@.subrange(at as int, at + n),
                buffer@ == bytes.take(i as int) + before.skip(i as int),
            decreases n - i,
        {
            buffer[i] = self.blocks[k].data[at + i];
            assert(buffer@ =~= bytes.take(i + 1) + before.skip(i + 1));
            i += 1;
        }
        assert(bytes.take(n as int) =~= bytes);
        n
    }
}

/// The memory of a simulated process, and its memory map.
pub struct SimView {
    /// The blocks of memory, at increasing addresses.
    pub memory: Seq<BlockView>,
    /// The memory map.
    pub map: Seq<RegionView>,
}

/// What becomes of a simulated process by an event.
pub open spec fn after_event(s: SimView, pid: u32, e: MemEvent) -> SimView {
    match e {
        MemEvent::Write { pid: p, address, data, .. } => if p == pid {
            SimView { memory: written(s.memory, address, data), map: s.map }
        } else {
            s
        },
        MemEvent::Code { pid: p, address, data, .. } => if p == pid {
            SimView { memory: written(s.memory, address, data), map: s.map }
        } else {
            s
        },
        MemEvent::Arranged { memory, map } => SimView { memory, map },
        _ => s,
    }
}

/// What becomes of a simulated process by a list of events.
pub open spec fn after_events(s: SimView, pid: u32, events: Seq<MemEvent>) -> SimView
    decreases events.len(),
{
    if events.len() == 0 {
        s
    } else {
        after_event(after_events(s, pid, events.drop_last()), pid, events.last())
    }
}

/// What a write to a simulated process comes to.
pub open spec fn write_answer(
    s: SimView,
    pid: u32,
    p: u32,
    address: u64,
    data: Seq<u8>,
) -> Result<nat, Seq<char>> {
    if p != pid {
        Err(no_process(p))
    } else if has_room(s.memory, address, data.len()) {
        Ok(data.len())
    } else {
        Err(not_mapped(address))
    }
}

/// What came back is what a simulated process in this state answers.
pub open spec fn true_answer(s: SimView, pid: u32, e: MemEvent) -> bool {
    match e {
        MemEvent::Read { pid: p, address, wanted, outcome } => {
            let bytes = readable(s.memory, address, wanted);
            if p != pid {
                outcome == Err::<(nat, Seq<u8>), _>(
                    no_process(p) + " (expected "@ + text::decimal(pid as nat) + ")"@,
                )
            } else if bytes.len() == 0 {
                outcome == Err::<(nat, Seq<u8>), _>(not_mapped(address))
            } else {
                &&& outcome matches Ok((n, buffer))
                &&& n == bytes.len()
                &&& buffer.len() == wanted
                &&& n <= wanted
                &&& buffer.take(n as int) == bytes
            }
        },
        MemEvent::Write { pid: p, address, data, outcome } => outcome == write_answer(
            s,
            pid,
            p,
            address,
            data,
        ),
        MemEvent::Code { pid: p, address, data, outcome } => outcome == write_answer(
            s,
            pid,
            p,
            address,
            data,
        ),
        MemEvent::Maps { pid: p, outcome } => outcome == if p == pid {
            Ok(s.map)
        } else {
            Err(no_process(p))
        },
        MemEvent::Arranged { .. } => true,
    }
}

/// A process without memory.
pub open spec fn bare() -> SimView {
    SimView { memory: Seq::empty(), map: Seq::empty() }
}

/// Whatever came back is what the simulated process answers in the state that it was in.
pub open spec fn answered(trace: Seq<MemEvent>, pid: u32) -> bool {
    forall|i: int|
        0 <= i < trace.len() ==> true_answer(
            after_events(bare(), pid, trace.take(i)),
            pid,
            #[trigger] trace[i],
        )
}

proof fn lemma_answered_push(trace: Seq<MemEvent>, e: MemEvent, pid: u32)
    ensures
        answered(trace, pid) && true_answer(after_events(bare(), pid, trace), pid, e) ==> answered(
            trace.push(e),
            pid,
        ),
        after_events(bare(), pid, trace.push(e)) == after_event(
            after_events(bare(), pid, trace),
            pid,
            e,
        ),
{
    let more = trace.push(e);
    assert(more.drop_last() =~= trace);
    if answered(trace, pid) && true_answer(after_events(bare(), pid, trace), pid, e) {
        assert forall|i: int| 0 <= i < more.len() implies true_answer(
            after_events(bare(), pid, more.take(i)),
            pid,
            #[trigger] more[i],
        ) by {
            if i < trace.len() {
                assert(more.take(i) =~= trace.take(i));
                assert(true_answer(after_events(bare(), pid, trace.take(i)), pid, trace[i]));
            } else {
                assert(more.take(i) =~= trace);
            }
        }
    }
}

proof fn lemma_after_both(s: SimView, pid: u32, a: Seq<MemEvent>, b: Seq<MemEvent>)
    ensures
        after_events(s, pid, a + b) == after_events(after_events(s, pid, a), pid, b),
    decreases b.len(),
{
    if b.len() == 0 {
        assert(a + b =~= a);
    } else {
        lemma_after_both(s, pid, a, b.drop_last());
        assert((a + b).drop_last() =~= a + b.drop_last());
    }
}

/// What a simulated process holds, and what it answers, follows from what was asked of it: a
/// function that is given one leaves in it what the events that it added make of it, and each of
/// them was answered from the state that the ones before it had left.
pub proof fn simulation_follows_its_trace(before: MockMemoryAccess, now: MockMemoryAccess)
    requires
        before.sound(),
        follows(now, before),
    ensures
        now.sound(),
        now.process() == before.process(),
        now.state() == after_events(
            before.state(),
            before.process(),
            since(now.trace(), before.trace()),
        ),
        forall|i: int|
            0 <= i < since(now.trace(), before.trace()).len() ==> true_answer(
                after_events(
                    before.state(),
                    before.process(),
                    since(now.trace(), before.trace()).take(i),
                ),
                before.process(),
                #[trigger] since(now.trace(), before.trace())[i],
            ),
{
    let pid = before.process();
    let (trace, events) = (before.trace(), since(now.trace(), before.trace()));
    assert(before.answers().contains(pid));
    assert(now.answers().contains(now.process()));
    trace_splits(now.trace(), trace);
    lemma_after_both(bare(), pid, trace, events);
    assert forall|i: int| 0 <= i < events.len() implies true_answer(
        after_events(before.state(), pid, events.take(i)),
        pid,
        #[trigger] events[i],
    ) by {
        let k = trace.len() + i;
        assert(now.trace()[k] == events[i]);
        assert(now.trace().take(k) =~= trace + events.take(i));
        lemma_after_both(bare(), pid, trace, events.take(i));
    }
}

/// A simulated process that was only looked at is as it was.
pub proof fn looking_changes_nothing(before: MockMemoryAccess, now: MockMemoryAccess)
    requires
        before.sound(),
        follows(now, before),
        forall|i: int|
            0 <= i < since(now.trace(), before.trace()).len() ==> !(#[trigger] since(
                now.trace(),
                before.trace(),
            )[i]).mutates(),
    ensures
        now.memory() == before.memory(),
        now.map() == before.map(),
{
    simulation_follows_its_trace(before, now);
    lemma_harmless_events(before.state(), before.process(), since(now.trace(), before.trace()));
}

proof fn lemma_harmless_events(s: SimView, pid: u32, events: Seq<MemEvent>)
    requires
        forall|i: int| 0 <= i < events.len() ==> !(#[trigger] events[i]).mutates(),
    ensures
        after_events(s, pid, events) == s,
    decreases events.len(),
{
    if events.len() > 0 {
        let rest = events.drop_last();
        assert forall|i: int| 0 <= i < rest.len() implies !(#[trigger] rest[i]).mutates() by {
            assert(!events[i].mutates());
        }
        lemma_harmless_events(s, pid, rest);
        assert(!events[events.len() - 1].mutates());
    }
}

/// What can be read of `wanted` bytes at the address: as much as the first block that holds
/// it has from there on.
pub open spec fn readable(memory: Seq<BlockView>, address: u64, wanted: nat) -> Seq<u8> {
    let k = first_block(memory, |b: BlockView| b.holds(address), 0);
    if k == memory.len() {
        Seq::empty()
    } else {
        let at = address - memory[k].base;
        let available = memory[k].data.len() - at;
        memory[k].data.subrange(at, at + if available < wanted { available } else { wanted as int })
    }
}

/// The memory with `data` written at the address, in the first block that has room for it.
pub open spec fn written(memory: Seq<BlockView>, address: u64, data: Seq<u8>) -> Seq<BlockView> {
    let k = first_block(memory, |b: BlockView| b.fits(address, data.len()), 0);
    if k == memory.len() {
        memory
    } else {
        memory.update(k, memory[k].updated(address, data))
    }
}

/// Some block has room for `len` bytes at the address.
pub open spec fn has_room(memory: Seq<BlockView>, address: u64, len: nat) -> bool {
    first_block(memory, |b: BlockView| b.fits(address, len), 0) < memory.len()
}

/// The blocks with one more, in order of their addresses; it replaces one that starts at the
/// same address.
pub open spec fn with_block(blocks: Seq<BlockView>, block: BlockView) -> Seq<BlockView> {
    let k = first_block(blocks, |b: BlockView| b.base >= block.base, 0);
    if k < blocks.len() && blocks[k].base == block.base {
        blocks.update(k, block)
    } else {
        blocks.insert(k, block)
    }
}

proof fn lemma_first_is_first(
    blocks: Seq<BlockView>,
    good: spec_fn(BlockView) -> bool,
    from: int,
    i: int,
)
    requires
        0 <= from <= i < blocks.len(),
        good(blocks[i]),
    ensures
        from <= first_block(blocks, good, from) <= i,
        good(blocks[first_block(blocks, good, from)]),
    decreases i - from,
{
    if !good(blocks[from]) {
        lemma_first_is_first(blocks, good, from + 1, i);
    }
}

/// Each block ends where the next one starts, or before.
pub open spec fn apart(memory: Seq<BlockView>) -> bool {
    forall|i: int, j: int|
        0 <= i < j < memory.len() ==> (#[trigger] memory[i]).end() <= (#[trigger] memory[j]).base
}

proof fn lemma_same_block(memory: Seq<BlockView>, address: u64, len: nat)
    requires
        apart(memory),
        has_room(memory, address, len),
        len > 0,
    ensures
        ({
            let k = first_block(memory, |b: BlockView| b.fits(address, len), 0);
            &&& 0 <= k < memory.len()
            &&& memory[k].fits(address, len)
            &&& first_block(memory, |b: BlockView| b.holds(address), 0) == k
        }),
{
    let fits = |b: BlockView| b.fits(address, len);
    let holds = |b: BlockView| b.holds(address);
    let k = first_block(memory, fits, 0);
    lemma_first_is_good(memory, fits, 0);
    assert forall|j: int| 0 <= j < k implies !holds(#[trigger] memory[j]) by {
        assert(memory[j].end() <= memory[k].base);
    }
    lemma_first_block(memory, holds, 0, k);
}

proof fn lemma_first_is_good(blocks: Seq<BlockView>, good: spec_fn(BlockView) -> bool, i: int)
    requires
        0 <= i,
        first_block(blocks, good, i) < blocks.len(),
    ensures
        i <= first_block(blocks, good, i),
        good(blocks[first_block(blocks, good, i)]),
    decreases blocks.len() - i,
{
    if i < blocks.len() && !good(blocks[i]) {
        lemma_first_is_good(blocks, good, i + 1);
    }
}

/// A write that no block has room for changes nothing.
pub proof fn no_room_no_change(memory: Seq<BlockView>, address: u64, data: Seq<u8>)
    requires
        !has_room(memory, address, data.len()),
    ensures
        written(memory, address, data) == memory,
{
    lemma_first_bound(memory, |b: BlockView| b.fits(address, data.len()), 0);
}

proof fn lemma_first_bound(blocks: Seq<BlockView>, good: spec_fn(BlockView) -> bool, i: int)
    ensures
        first_block(blocks, good, i) <= blocks.len(),
    decreases blocks.len() - i,
{
    if 0 <= i < blocks.len() && !good(blocks[i]) {
        lemma_first_bound(blocks, good, i + 1);
    }
}

/// What was written is what is read there afterwards.
pub proof fn read_gives_back_write(memory: Seq<BlockView>, address: u64, data: Seq<u8>)
    requires
        apart(memory),
        has_room(memory, address, data.len()),
        data.len() > 0,
    ensures
        readable(written(memory, address, data), address, data.len()) == data,
{
    let k = first_block(memory, |b: BlockView| b.fits(address, data.len()), 0);
    lemma_same_block(memory, address, data.len());
    let after = written(memory, address, data);
    let holds = |b: BlockView| b.holds(address);
    assert(after[k].data.len() == memory[k].data.len());
    assert forall|j: int| 0 <= j < k implies !holds(#[trigger] after[j]) by {
        assert(after[j] == memory[j]);
        assert(memory[j].end() <= memory[k].base);
    }
    lemma_first_block(after, holds, 0, k);
    let at = address - memory[k].base;
    assert(after[k].data.subrange(at, at + data.len()) =~= data);
}

/// Writing back what was read before a write undoes the write.
pub proof fn writing_back_undoes(memory: Seq<BlockView>, address: u64, data: Seq<u8>)
    requires
        apart(memory),
        has_room(memory, address, data.len()),
        data.len() > 0,
    ensures
        readable(memory, address, data.len()).len() == data.len(),
        has_room(written(memory, address, data), address, data.len()),
        written(
            written(memory, address, data),
            address,
            readable(memory, address, data.len()),
        ) == memory,
{
    let k = first_block(memory, |b: BlockView| b.fits(address, data.len()), 0);
    lemma_same_block(memory, address, data.len());
    let before = readable(memory, address, data.len());
    let after = written(memory, address, data);
    let fits = |b: BlockView| b.fits(address, before.len());
    assert(after[k].data.len() == memory[k].data.len());
    assert forall|j: int| 0 <= j < k implies !fits(#[trigger] after[j]) by {
        assert(after[j] == memory[j]);
        assert(memory[j].end() <= memory[k].base);
    }
    lemma_first_block(after, fits, 0, k);
    let back = written(after, address, before);
    assert(back[k].data =~= memory[k].data);
    assert(back =~= memory);
}

/// The error for a process that is not simulated.
pub open spec fn no_process(pid: u32) -> Seq<char> {
    "ESRCH: mock process "@ + text::decimal(pid as nat) + " not found"@
}

/// The error for an address that no block holds.
pub open spec fn not_mapped(address: u64) -> Seq<char> {
    "EFAULT: address "@ + text::address(address) + " not mapped in mock process"@
}

fn no_process_error(pid: u32) -> (r: String)
    ensures
        r@ == no_process(pid),
{
    let mut r = "ESRCH: mock process ".to_string();
    push_decimal(&mut r, pid as u64);
    r.append(" not found");
    r
}

fn not_mapped_error(address: u64) -> (r: AccessError)
    ensures
        r@ == not_mapped(address),
{
    let mut message = "EFAULT: address ".to_string();
    push_address(&mut message, address);
    message.append(" not mapped in mock process");
    AccessError { message }
}

impl MemoryAccess for MockMemoryAccess {
    closed spec fn trace(&self) -> Seq<MemEvent> {
        self.log@
    }

    open spec fn answers(&self) -> Processes {
        Set::empty().insert(self.process())
    }

    open spec fn sound(&self) -> bool {
        &&& self.state() == after_events(bare(), self.process(), self.trace())
        &&& answered(self.trace(), self.process())
    }

    fn read(&mut self, pid: u32, address: u64, buffer: &mut [u8]) -> (r: Result<
        usize,
        AccessError,
    >)
        ensures
            final(self).process() == old(self).process(),
            final(self).memory() == old(self).memory(),
            final(self).map() == old(self).map(),
            pid != old(self).process() ==> (r matches Err(e) && e@ == no_process(pid) + " (expected "@
                + text::decimal(old(self).process() as nat) + ")"@),
            pid == old(self).process() ==> {
                let bytes = readable(old(self).memory(), address, old(buffer)@.len());
                if bytes.len() == 0 {
                    r matches Err(e) && e@ == not_mapped(address)
                } else {
                    &&& r matches Ok(n)
                    &&& n == bytes.len()
                    &&& final(buffer)@ == bytes + old(buffer)@.skip(bytes.len() as int)
                }
            },
            r is Err ==> final(buffer)@ == old(buffer)@,
    {
        let ghost wanted = buffer@.len();
        let r = if pid != self.pid {
            let mut message = no_process_error(pid);
            message.append(" (expected ");
            push_decimal(&mut message, self.pid as u64);
            message.append(")");
            Err(AccessError { message })
        } else {
            let k = self.find_block(address);
            if k == self.blocks.len() || buffer.len() == 0 {
                Err(not_mapped_error(address))
            } else {
                Ok(self.fetch(k, address, buffer))
            }
        };
        proof {
            let e = MemEvent::Read { pid, address, wanted, outcome: read_outcome(r, buffer@) };
            self.log@ = self.log@.push(e);
            assert(self.memory() =~= old(self).memory());
            lemma_answered_push(old(self).trace(), e, self.pid);
            if let Ok(n) = r {
                assert(buffer@.take(n as int) =~= readable(self.memory(), address, wanted));
            }
        }
        r
    }

    fn write(&mut self, pid: u32, address: u64, data: &[u8]) -> (r: Result<usize, AccessError>)
        ensures
            final(self).process() == old(self).process(),
            final(self).map() == old(self).map(),
            pid != old(self).process() ==> {
                &&& r matches Err(e)
                &&& e@ == no_process(pid)
                &&& final(self).memory() == old(self).memory()
            },
            pid == old(self).process() ==> {
                &&& final(self).memory() == written(old(self).memory(), address, data@)
                &&& if has_room(old(self).memory(), address, data@.len()) {
                    r matches Ok(n) && n == data@.len()
                } else {
                    r matches Err(e) && e@ == not_mapped(address)
                }
            },
    {
        let r = if pid != self.pid {
            Err(AccessError { message: no_process_error(pid) })
        } else {
            let k = self.find_room(address, data.len());
            if k == self.blocks.len() {
                Err(not_mapped_error(address))
            } else {
                self.store(k, address, data);
                Ok(data.len())
            }
        };
        let ghost memory = self.memory();
        proof {
            let e = MemEvent::Write { pid, address, data: data@, outcome: write_outcome(r) };
            self.log@ = self.log@.push(e);
            assert(self.memory() =~= memory);
            lemma_answered_push(old(self).trace(), e, self.pid);
        }
        r
    }

    fn read_maps(&mut self, pid: u32) -> (r: Result<Vec<MapRegion>, AccessError>)
        ensures
            final(self).process() == old(self).process(),
            final(self).memory() == old(self).memory(),
            final(self).map() == old(self).map(),
            if pid == old(self).process() {
                r matches Ok(v) && maps::region_views(v@) == old(self).map()
            } else {
                r matches Err(e) && e@ == no_process(pid)
            },
    {
        let r = if pid != self.pid {
            Err(AccessError { message: no_process_error(pid) })
        } else {
            let mut copy: Vec<MapRegion> = Vec::new();
            let mut i: usize = 0;
            while i < self.maps.len()
                invariant
                    i <= self.maps@.len(),
                    self == old(self),
                    maps::region_views(copy@) == self.map().take(i as int),
                decreases self.maps@.len() - i,
            {
                let ghost before = maps::region_views(copy@);
                copy.push(self.maps[i].copy());
                assert(maps::region_views(copy@) =~= before.push(self.maps@[i as int]@));
                assert(self.map().take(i + 1) =~= self.map().take(i as int).push(
                    self.maps@[i as int]@,
                ));
                i += 1;
            }
            assert(self.map().take(self.maps@.len() as int) =~= self.map());
            Ok(copy)
        };
        proof {
            let e = MemEvent::Maps { pid, outcome: maps_outcome(r) };
            self.log@ = self.log@.push(e);
            assert(self.memory() =~= old(self).memory());
            lemma_answered_push(old(self).trace(), e, self.pid);
        }
        r
    }

    fn write_code(&mut self, pid: u32, address: u64, data: &[u8]) -> (r: Result<
        usize,
        AccessError,
    >)
        ensures
            final(self).process() == old(self).process(),
            final(self).map() == old(self).map(),
            pid != old(self).process() ==> {
                &&& r matches Err(e)
                &&& e@ == no_process(pid)
                &&& final(self).memory() == old(self).memory()
            },
            pid == old(self).process() ==> {
                &&& final(self).memory() == written(old(self).memory(), address, data@)
                &&& if has_room(old(self).memory(), address, data@.len()) {
                    r matches Ok(n) && n == data@.len()
                } else {
                    r matches Err(e) && e@ == not_mapped(address)
                }
            },
    {
        let r = if pid != self.pid {
            Err(AccessError { message: no_process_error(pid) })
        } else {
            let k = self.find_room(address, data.len());
            if k == self.blocks.len() {
                Err(not_mapped_error(address))
            } else {
                self.store(k, address, data);
                Ok(data.len())
            }
        };
        let ghost memory = self.memory();
        proof {
            let e = MemEvent::Code { pid, address, data: data@, outcome: write_outcome(r) };
            self.log@ = self.log@.push(e);
            assert(self.memory() =~= memory);
            lemma_answered_push(old(self).trace(), e, self.pid);
        }
        r
    }
}

} // verus!
