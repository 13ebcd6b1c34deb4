//! Pointer chains: stable ways from a module to an address.
//!
//! The address of a value changes whenever the target starts anew. A [`PointerChain`] leads
//! to it from the base of a module: read the pointer at `base + base_offset`, add the first
//! link's offset, read the pointer there, add the next offset, and so on. Chains are searched
//! for breadth first, from the value backwards.

use crate::bytes;
use crate::bytes::from_bytes;
use crate::mem::access;
use crate::mem::access::{MemEvent, MemoryAccess};
use crate::process::maps;
use crate::process::maps::{MapRegion, RegionSafety, RegionView};
use crate::scan::buffer;
use crate::scan::engine;
use crate::scan::engine::DEFAULT_CHUNK_SIZE;
use crate::text::{begins, same_text, to_chars};
use std::collections::HashSet;
use std::collections::VecDeque;
use vstd::prelude::*;
use vstd::slice::slice_subrange;

verus! {

/// One step of a chain: `[address] + offset` is the next address.
#[derive(Clone, Copy, Debug, PartialEq, Eq, Structural)]
pub struct PointerLink {
    /// Where the pointer stands.
    pub address: u64,
    /// What is added to it.
    pub offset: i64,
}

/// A way from a module to an address.
#[derive(Clone, Debug)]
pub struct PointerChain {
    /// Path of the module.
    pub base_module: String,
    /// Offset of the first pointer from the module's base.
    pub base_offset: u64,
    /// The steps, from the module to the address.
    pub links: Vec<PointerLink>,
}

/// A [`PointerChain`] as a mathematical value.
pub struct ChainView {
    /// Path of the module.
    pub base_module: Seq<char>,
    /// Offset of the first pointer from the module's base.
    pub base_offset: u64,
    /// The steps, from the module to the address.
    pub links: Seq<PointerLink>,
}

impl View for PointerChain {
    type V = ChainView;

    open spec fn view(&self) -> ChainView {
        ChainView {
            base_module: self.base_module@,
            base_offset: self.base_offset,
            links: self.links@,
        }
    }
}

/// The mathematical values of a list of chains.
pub open spec fn chain_views(v: Seq<PointerChain>) -> Seq<ChainView> {
    Seq::new(v.len(), |i: int| v[i]@)
}

/// Limits of a search.
#[derive(Clone, Copy, Debug)]
pub struct PointerScanParams {
    /// How far from a pointer its target may be.
    pub max_offset: i64,
    /// How many steps a chain may have.
    pub max_depth: usize,
    /// How many chains are returned.
    pub max_results: usize,
}

impl Default for PointerScanParams {
    fn default() -> (r: PointerScanParams)
        ensures
            r.max_offset == 0x1000,
            r.max_depth == 5,
            r.max_results == 100,
    {
        PointerScanParams { max_offset: 0x1000, max_depth: 5, max_results: 100 }
    }
}

// ─── Modules ────────────────────────────────────────────────────────────────

/// A module: its path, its base and its end.
pub struct ModuleView {
    /// Path.
    pub path: Seq<char>,
    /// First address.
    pub start: u64,
    /// First address after it.
    pub end: u64,
}

/// The mathematical values of a list of modules.
pub open spec fn module_views(v: Seq<(String, u64, u64)>) -> Seq<ModuleView> {
    Seq::new(v.len(), |i: int| ModuleView { path: v[i].0@, start: v[i].1, end: v[i].2 })
}

/// The region belongs to a module: a file backs it, and it is neither a device nor off
/// limits.
pub open spec fn in_module(r: RegionView) -> bool {
    &&& r.pathname.len() > 0
    &&& r.pathname[0] != '['
    &&& !"/dev/"@.is_prefix_of(r.pathname)
    &&& r.safety != RegionSafety::NeverTouch
}

/// The largest end of the regions with a path.
pub open spec fn last_end(regions: Seq<RegionView>, path: Seq<char>) -> u64
    decreases regions.len(),
{
    if regions.len() == 0 {
        0
    } else {
        let before = last_end(regions.drop_last(), path);
        if regions.last().pathname == path && regions.last().end > before {
            regions.last().end
        } else {
            before
        }
    }
}

/// One of the modules has the path.
pub open spec fn listed(modules: Seq<ModuleView>, path: Seq<char>) -> bool {
    exists|i: int| 0 <= i < modules.len() && (#[trigger] modules[i]).path == path
}

/// The modules among the first regions: one for each path, from its first region to the
/// largest end of any region with that path.
pub open spec fn modules_among(first: Seq<RegionView>, regions: Seq<RegionView>) -> Seq<ModuleView>
    decreases first.len(),
{
    if first.len() == 0 {
        Seq::empty()
    } else {
        let before = modules_among(first.drop_last(), regions);
        let r = first.last();
        if in_module(r) && !listed(before, r.pathname) {
            before.push(
                ModuleView {
                    path: r.pathname,
                    start: r.start,
                    end: last_end(regions, r.pathname),
                },
            )
        } else {
            before
        }
    }
}

/// The modules of a memory map.
pub open spec fn modules_of(regions: Seq<RegionView>) -> Seq<ModuleView> {
    modules_among(regions, regions)
}

fn find_last_end(regions: &[MapRegion], path: &str) -> (r: u64)
    ensures
        r == last_end(maps::region_views(regions@), path@),
{
    let ghost views = maps::region_views(regions@);
    let mut end: u64 = 0;
    let mut i: usize = 0;
    while i < regions.len()
        invariant
            i <= regions@.len(),
            views == maps::region_views(regions@),
            end == last_end(views.take(i as int), path@),
        decreases regions@.len() - i,
    {
        proof {
            assert(views.take(i + 1).drop_last() =~= views.take(i as int));
            assert(views.take(i + 1).last() == regions@[i as int]@);
        }
        if same_text(regions[i].pathname.as_str(), path) && regions[i].end > end {
            end = regions[i].end;
        }
        i += 1;
    }
    assert(views.take(regions@.len() as int) =~= views);
    end
}

fn is_listed(modules: &Vec<(String, u64, u64)>, path: &str) -> (r: bool)
    ensures
        r == listed(module_views(modules@), path@),
{
    let ghost views = module_views(modules@);
    let mut i: usize = 0;
    while i < modules.len()
        invariant
            i <= modules@.len(),
            views == module_views(modules@),
            forall|k: int| 0 <= k < i ==> (#[trigger] views[k]).path != path@,
        decreases modules@.len() - i,
    {
        assert(views[i as int].path == modules@[i as int].0@);
        if same_text(modules[i].0.as_str(), path) {
            return true;
        }
        i += 1;
    }
    false
}

/// The modules of a memory map: path, base and end, one for each path.
#[must_use]
pub fn extract_module_bases(regions: &[MapRegion]) -> (r: Vec<(String, u64, u64)>)
    ensures
        module_views(r@) == modules_of(maps::region_views(regions@)),
{
    let ghost views = maps::region_views(regions@);
    let mut modules: Vec<(String, u64, u64)> = Vec::new();
    let mut i: usize = 0;
    assert(module_views(modules@) =~= modules_among(views.take(0), views));
    while i < regions.len()
        invariant
            i <= regions@.len(),
            views == maps::region_views(regions@),
            module_views(modules@) == modules_among(views.take(i as int), views),
        decreases regions@.len() - i,
    {
        let region = &regions[i];
        proof {
            assert(views.take(i + 1).drop_last() =~= views.take(i as int));
            assert(views.take(i + 1).last() == region@);
        }
        let path = to_chars(region.pathname.as_str());
        if path.len() > 0 && path[0] != '[' && !begins(path.as_slice(), "/dev/") && region.safety
            != RegionSafety::NeverTouch && !is_listed(&modules, region.pathname.as_str()) {
            let ghost before = module_views(modules@);
            let end: u64 = find_last_end(regions, region.pathname.as_str());
            modules.push((region.pathname.clone(), region.start, end));
            assert(module_views(modules@) =~= before.push(
                ModuleView { path: region.pathname@, start: region.start, end },
            ));
        }
        i += 1;
    }
    assert(views.take(regions@.len() as int) =~= views);
    modules
}

/// Index of the first module from `i` on that holds the address; the number of modules where
/// there is none.
pub open spec fn containing(modules: Seq<ModuleView>, address: u64, i: int) -> int
    decreases modules.len() - i,
{
    if i < 0 || i >= modules.len() {
        modules.len() as int
    } else if modules[i].start <= address < modules[i].end {
        i
    } else {
        containing(modules, address, i + 1)
    }
}

proof fn lemma_containing(modules: Seq<ModuleView>, address: u64, i: int, k: int)
    requires
        0 <= i <= k <= modules.len(),
        forall|j: int|
            i <= j < k ==> !((#[trigger] modules[j]).start <= address < modules[j].end),
        k < modules.len() ==> modules[k].start <= address < modules[k].end,
    ensures
        containing(modules, address, i) == k,
    decreases k - i,
{
    if i < k {
        lemma_containing(modules, address, i + 1, k);
    }
}

/// The first module that holds the address: its path and base.
pub fn find_containing_module(address: u64, modules: &[(String, u64, u64)]) -> (r: Option<
    (String, u64),
>)
    ensures
        ({
            let views = module_views(modules@);
            let k = containing(views, address, 0);
            match r {
                Some((path, base)) => k < views.len() && path@ == views[k].path && base
                    == views[k].start && base <= address,
                None => k == views.len(),
            }
        }),
{
    let ghost views = module_views(modules@);
    let mut i: usize = 0;
    while i < modules.len()
        invariant
            i <= modules@.len(),
            views == module_views(modules@),
            forall|j: int|
                0 <= j < i ==> !((#[trigger] views[j]).start <= address < views[j].end),
        decreases modules@.len() - i,
    {
        assert(views[i as int].start == modules@[i as int].1);
        if address >= modules[i].1 && address < modules[i].2 {
            proof {
                lemma_containing(views, address, 0, i as int);
            }
            return Some((modules[i].0.clone(), modules[i].1));
        }
        i += 1;
    }
    proof {
        lemma_containing(views, address, 0, i as int);
    }
    None
}

// ─── Pointers in memory ─────────────────────────────────────────────────────

/// How far from a pointer its target may be.
pub open spec fn reach(max_offset: i64) -> int {
    if max_offset < 0 {
        -(max_offset as int)
    } else {
        max_offset as int
    }
}

/// A value that points near the target: not null, and at most `reach` away.
pub open spec fn points_near(value: nat, target: u64, reach: int) -> bool {
    value != 0 && target - reach <= value <= target + reach
}

/// What must be added to `value` to arrive at the target, as 64-bit arithmetic has it.
pub open spec fn offset_to(target: u64, value: nat) -> i64 {
    let d = target - value;
    if d > i64::MAX {
        (d - 0x1_0000_0000_0000_0000) as i64
    } else if d < i64::MIN {
        (d + 0x1_0000_0000_0000_0000) as i64
    } else {
        d as i64
    }
}

/// The eight bytes at offset `o`.
pub open spec fn word_at(data: Seq<u8>, o: int) -> nat {
    bytes::le_value(data.subrange(o, o + 8))
}

/// A pointer near the target stands at offset `o`, a multiple of eight.
pub open spec fn pointer_at(data: Seq<u8>, target: u64, reach: int, o: int) -> bool {
    o % 8 == 0 && 0 <= o && o + 8 <= data.len() && points_near(word_at(data, o), target, reach)
}

/// The links for the pointers at these offsets of a chunk that was read at `address`.
pub open spec fn links_at(data: Seq<u8>, address: u64, target: u64, at: Seq<int>) -> Seq<
    PointerLink,
> {
    Seq::new(
        at.len(),
        |k: int|
            PointerLink {
                address: (address + at[k]) as u64,
                offset: offset_to(target, word_at(data, at[k])),
            },
    )
}

/// The pointers in a chunk that was read at `address`, in order.
pub open spec fn chunk_pointers(data: Seq<u8>, address: u64, target: u64, reach: int) -> Seq<
    PointerLink,
> {
    links_at(
        data,
        address,
        target,
        buffer::offsets(|o: int| pointer_at(data, target, reach, o), data.len()),
    )
}

/// The pointers in what a list of reads gave.
pub open spec fn reads_pointers(events: Seq<MemEvent>, target: u64, reach: int) -> Seq<PointerLink>
    decreases events.len(),
{
    if events.len() == 0 {
        Seq::empty()
    } else {
        reads_pointers(events.drop_last(), target, reach)
            + match events.last()->Read_outcome {
            Ok((n, buffer)) => chunk_pointers(
                buffer.take(n as int),
                events.last()->Read_address,
                target,
                reach,
            ),
            Err(_) => Seq::empty(),
        }
    }
}

/// How many bytes a list of reads gave.
pub open spec fn gained(events: Seq<MemEvent>) -> nat
    decreases events.len(),
{
    if events.len() == 0 {
        0
    } else {
        gained(events.drop_last()) + match events.last()->Read_outcome {
            Ok((n, buffer)) => n,
            Err(_) => 0,
        }
    }
}

/// A read that gave at least one pointer's worth of bytes.
pub open spec fn went_on(e: MemEvent) -> bool {
    e->Read_outcome matches Ok((n, buffer)) && n >= 8
}

/// A read of the rest of a region, or of as much as fits in a chunk.
pub open spec fn reads_on(e: MemEvent, pid: u32, region: RegionView, offset: nat) -> bool {
    let left = region.span() - offset;
    &&& e is Read
    &&& e->Read_pid == pid
    &&& e->Read_address == region.start + offset
    &&& left > 0
    &&& e->wanted == if left < DEFAULT_CHUNK_SIZE {
        left
    } else {
        DEFAULT_CHUNK_SIZE as int
    }
    &&& access::fills(e)
}

/// The region was read on and on, each read from where the last one ended, to its end or to
/// the first read that failed or gave less than a pointer. A region smaller than a pointer
/// was not read.
pub open spec fn reads_for_pointers(events: Seq<MemEvent>, pid: u32, region: RegionView) -> bool {
    &&& region.span() < 8 ==> events.len() == 0
    &&& forall|j: int|
        0 <= j < events.len() ==> reads_on(
            #[trigger] events[j],
            pid,
            region,
            gained(events.take(j)),
        )
    &&& forall|j: int| 0 <= j < events.len() - 1 ==> went_on(#[trigger] events[j])
    &&& region.span() >= 8 ==> events.len() > 0 && (!went_on(events.last()) || gained(events)
        >= region.span())
}

fn offset_between(target: u64, value: u64) -> (r: i64)
    ensures
        r == offset_to(target, value as nat),
{
    let d: i128 = target as i128 - value as i128;
    if d > 0x7fff_ffff_ffff_ffff {
        (d - 0x1_0000_0000_0000_0000) as i64
    } else if d < -0x8000_0000_0000_0000 {
        (d + 0x1_0000_0000_0000_0000) as i64
    } else {
        d as i64
    }
}

fn push_pointers(out: &mut Vec<PointerLink>, data: &[u8], address: u64, target: u64, max_offset: i64)
    requires
        address + data@.len() <= u64::MAX,
    ensures
        final(out)@ == old(out)@ + chunk_pointers(data@, address, target, reach(max_offset)),
{
    let ghost far = reach(max_offset);
    let far_exec: i128 = if max_offset < 0 { -(max_offset as i128) } else { max_offset as i128 };
    let ghost good = |o: int| pointer_at(data@, target, far, o);
    let ghost before = out@;
    let n: usize = data.len();
    let mut o: usize = 0;
    assert(out@ =~= before + links_at(data@, address, target, buffer::offsets(good, 0)));
    while o < n && n - o >= 8
        invariant
            o <= n,
            o % 8 == 0,
            n == data@.len(),
            address + n <= u64::MAX,
            far == reach(max_offset),
            far_exec == far,
            good == (|o: int| pointer_at(data@, target, far, o)),
            out@ == before + links_at(data@, address, target, buffer::offsets(good, o as nat)),
        decreases n - o,
    {
        let window = slice_subrange(data, o, o + 8);
        assert(window@.take(8) =~= window@);
        let value: u64 = from_bytes(window, 8);
        assert(value == word_at(data@, o as int));
        let ghost at = buffer::offsets(good, o as nat);
        if value != 0 && target as i128 - far_exec <= value as i128 && value as i128
            <= target as i128 + far_exec {
            let link = PointerLink {
                address: address + o as u64,
                offset: offset_between(target, value),
            };
            out.push(link);
            assert(good(o as int));
            assert(links_at(data@, address, target, at.push(o as int)) =~= links_at(
                data@,
                address,
                target,
                at,
            ).push(link));
            assert(out@ =~= before + links_at(data@, address, target, at.push(o as int)));
        }
        proof {
            buffer::lemma_nothing_between(good, (o + 1) as nat, (o + 8) as nat);
        }
        o += 8;
    }
    proof {
        buffer::lemma_nothing_between(good, o as nat, n as nat);
    }
}

/// Reads a region and adds the pointers in it that point near the target.
pub fn scan_region_for_pointers<M: MemoryAccess>(
    mem: &mut M,
    pid: u32,
    region: &MapRegion,
    target: u64,
    max_offset: i64,
    out: &mut Vec<PointerLink>,
)
    ensures
        access::follows(*final(mem), *old(mem)),
        reads_for_pointers(access::since(final(mem).trace(), old(mem).trace()), pid, region@),
        final(out)@ == old(out)@ + reads_pointers(
            access::since(final(mem).trace(), old(mem).trace()),
            target,
            reach(max_offset),
        ),
{
    let ghost far = reach(max_offset);
    let ghost before = mem.trace();
    let ghost sofar = out@;
    let ghost mut events: Seq<MemEvent> = Seq::empty();
    let size: u64 = if region.start <= region.end { region.end - region.start } else { 0 };
    assert(before + events =~= before);
    assert(sofar + reads_pointers(events, target, far) =~= sofar);
    if size < 8 {
        assert(access::since(mem.trace(), before) =~= events);
        return;
    }
    let mut offset: u64 = 0;
    let mut open = true;
    while open && offset < size
        invariant
            size == region@.span(),
            size >= 8,
            region.start + size <= u64::MAX,
            offset <= size,
            far == reach(max_offset),
            mem.trace() == before + events,
            mem.answers() == old(mem).answers(),
            old(mem).sound() ==> mem.sound(),
            forall|j: int|
                0 <= j < events.len() ==> reads_on(
                    #[trigger] events[j],
                    pid,
                    region@,
                    gained(events.take(j)),
                ),
            forall|j: int| 0 <= j < events.len() - 1 ==> went_on(#[trigger] events[j]),
            open && events.len() > 0 ==> went_on(events.last()),
            open ==> offset == gained(events),
            offset > 0 ==> events.len() > 0,
            !open ==> events.len() > 0 && !went_on(events.last()),
            out@ == sofar + reads_pointers(events, target, far),
        decreases (if open { 1int } else { 0int }), size - offset,
    {
        let read_len: usize = if size - offset < DEFAULT_CHUNK_SIZE as u64 {
            (size - offset) as usize
        } else {
            DEFAULT_CHUNK_SIZE
        };
        let address: u64 = region.start + offset;
        let mut buffer: Vec<u8> = vec![0u8; read_len];
        let result = mem.read(pid, address, buffer.as_mut_slice());
        let ghost event = mem.trace().last();
        let ghost earlier = events;
        proof {
            events = events.push(event);
            assert(mem.trace() =~= before + events);
            assert(events.drop_last() =~= earlier);
            assert forall|j: int| 0 <= j < events.len() implies reads_on(
                #[trigger] events[j],
                pid,
                region@,
                gained(events.take(j)),
            ) by {
                if j < earlier.len() {
                    assert(events[j] == earlier[j]);
                    assert(events.take(j) =~= earlier.take(j));
                } else {
                    assert(events.take(j) =~= earlier);
                }
            }
            assert forall|j: int| 0 <= j < events.len() - 1 implies went_on(
                #[trigger] events[j],
            ) by {
                assert(events[j] == earlier[j]);
                if j == earlier.len() - 1 {
                    assert(earlier.last() == earlier[j]);
                }
            }
        }
        match result {
            Err(_) => {
                open = false;
                assert(sofar + reads_pointers(events, target, far) =~= sofar + reads_pointers(
                    earlier,
                    target,
                    far,
                ));
            },
            Ok(n) => {
                let chunk = slice_subrange(buffer.as_slice(), 0, n);
                assert(chunk@ =~= buffer@.take(n as int));
                push_pointers(out, chunk, address, target, max_offset);
                assert(out@ =~= sofar + reads_pointers(events, target, far));
                if n < 8 {
                    open = false;
                } else {
                    offset += n as u64;
                }
            },
        }
    }
    assert(access::since(mem.trace(), before) =~= events);
}

// ─── The search ─────────────────────────────────────────────────────────────

/// The regions that are searched for pointers: safe and read-only ones that can be read.
pub open spec fn pointer_target(r: RegionView) -> bool {
    r.permissions.read && (r.safety == RegionSafety::Safe || r.safety == RegionSafety::ReadOnly)
}

/// The regions that are searched for pointers.
pub open spec fn pointer_targets(regions: Seq<RegionView>) -> Seq<RegionView> {
    regions.filter(|r: RegionView| pointer_target(r))
}

/// How far a search has come.
pub struct Search {
    /// Addresses to search pointers to, each with the way from it to the target.
    pub queue: Seq<(u64, Seq<PointerLink>)>,
    /// Addresses that were queued before.
    pub visited: Set<u64>,
    /// Chains found.
    pub chains: Seq<ChainView>,
}

/// The start of a search for ways to an address.
pub open spec fn search_start(target: u64) -> Search {
    Search {
        queue: seq![(target, Seq::empty())],
        visited: Set::empty().insert(target),
        chains: Seq::empty(),
    }
}

/// The search without the first addresses in the queue that need no scan: their way is as
/// long as allowed already, or enough chains were found.
pub open spec fn skip_done(s: Search, p: PointerScanParams) -> Search
    decreases s.queue.len(),
{
    if s.queue.len() > 0 && (s.queue[0].1.len() >= p.max_depth || s.chains.len()
        >= p.max_results) {
        skip_done(Search { queue: s.queue.drop_first(), ..s }, p)
    } else {
        s
    }
}

/// A pointer to the address at hand was found, from which `way` leads on. In a module it
/// completes a chain; elsewhere its own address is queued, once.
pub open spec fn take_one(
    s: Search,
    way: Seq<PointerLink>,
    link: PointerLink,
    modules: Seq<ModuleView>,
    p: PointerScanParams,
) -> Search {
    let longer = seq![link] + way;
    let k = containing(modules, link.address, 0);
    if s.chains.len() >= p.max_results {
        s
    } else if k < modules.len() {
        Search {
            chains: s.chains.push(
                ChainView {
                    base_module: modules[k].path,
                    base_offset: (link.address - modules[k].start) as u64,
                    links: longer,
                },
            ),
            ..s
        }
    } else if longer.len() < p.max_depth && !s.visited.contains(link.address) {
        Search {
            queue: s.queue.push((link.address, longer)),
            visited: s.visited.insert(link.address),
            ..s
        }
    } else {
        s
    }
}

/// The pointers are taken in order.
pub open spec fn take_all(
    s: Search,
    way: Seq<PointerLink>,
    links: Seq<PointerLink>,
    modules: Seq<ModuleView>,
    p: PointerScanParams,
) -> Search
    decreases links.len(),
{
    if links.len() == 0 {
        s
    } else {
        take_one(take_all(s, way, links.drop_last(), modules, p), way, links.last(), modules, p)
    }
}

/// The pointers to the first address in the queue were found.
pub open spec fn absorbed(
    s: Search,
    links: Seq<PointerLink>,
    modules: Seq<ModuleView>,
    p: PointerScanParams,
) -> Search {
    take_all(Search { queue: s.queue.drop_first(), ..s }, s.queue[0].1, links, modules, p)
}

/// The search after these scans, each of which is a list of reads for each region.
pub open spec fn search_after(
    scans: Seq<Seq<Seq<MemEvent>>>,
    target: u64,
    modules: Seq<ModuleView>,
    p: PointerScanParams,
) -> Search
    decreases scans.len(),
{
    if scans.len() == 0 {
        search_start(target)
    } else {
        let s = skip_done(search_after(scans.drop_last(), target, modules, p), p);
        absorbed(
            s,
            reads_pointers(engine::chained(scans.last()), s.queue[0].0, reach(p.max_offset)),
            modules,
            p,
        )
    }
}

/// Every region was read once.
pub open spec fn reads_all(
    parts: Seq<Seq<MemEvent>>,
    pid: u32,
    targets: Seq<RegionView>,
) -> bool {
    &&& parts.len() == targets.len()
    &&& forall|i: int|
        0 <= i < parts.len() ==> reads_for_pointers(#[trigger] parts[i], pid, targets[i])
}

/// Every region was read once for each address that the search came to, and the search came
/// to its end.
pub open spec fn search_ran(
    scans: Seq<Seq<Seq<MemEvent>>>,
    pid: u32,
    target: u64,
    regions: Seq<RegionView>,
    p: PointerScanParams,
) -> bool {
    &&& search_running(scans, pid, target, regions, p)
    &&& skip_done(search_after(scans, target, modules_of(regions), p), p).queue.len() == 0
}

/// Every region was read once for each address that the search came to.
pub open spec fn search_running(
    scans: Seq<Seq<Seq<MemEvent>>>,
    pid: u32,
    target: u64,
    regions: Seq<RegionView>,
    p: PointerScanParams,
) -> bool {
    forall|k: int|
        0 <= k < scans.len() ==> {
            &&& reads_all(#[trigger] scans[k], pid, pointer_targets(regions))
            &&& skip_done(
                search_after(scans.take(k), target, modules_of(regions), p),
                p,
            ).queue.len() > 0
        }
}

/// The reads of all scans, one after the other.
pub open spec fn all_reads(scans: Seq<Seq<Seq<MemEvent>>>) -> Seq<MemEvent>
    decreases scans.len(),
{
    if scans.len() == 0 {
        Seq::empty()
    } else {
        all_reads(scans.drop_last()) + engine::chained(scans.last())
    }
}

/// A search for ways to the target did these reads and found these chains.
pub open spec fn search_gave(
    events: Seq<MemEvent>,
    pid: u32,
    target: u64,
    regions: Seq<RegionView>,
    p: PointerScanParams,
    chains: Seq<ChainView>,
) -> bool {
    exists|scans: Seq<Seq<Seq<MemEvent>>>| #[trigger]
        search_ran(scans, pid, target, regions, p) && events == all_reads(scans) && chains
            == search_after(scans, target, modules_of(regions), p).chains
}

// ─── What a search promises ─────────────────────────────────────────────────

/// `value` was read at the address.
pub open spec fn was_read(events: Seq<MemEvent>, address: u64, value: nat) -> bool {
    exists|j: int, o: int| #[trigger] read_there(events, j, o, address, value)
}

/// Read number `j` gave `value` at offset `o`, which is the address.
pub open spec fn read_there(
    events: Seq<MemEvent>,
    j: int,
    o: int,
    address: u64,
    value: nat,
) -> bool {
    &&& 0 <= j < events.len()
    &&& events[j] is Read
    &&& events[j]->Read_outcome matches Ok((n, buffer))
    &&& 0 <= o
    &&& o + 8 <= buffer.take(n as int).len()
    &&& events[j]->Read_address + o == address
    &&& word_at(buffer.take(n as int), o) == value
}

/// Where a pointer with an offset leads, in 64-bit arithmetic.
pub open spec fn landed(value: nat, offset: i64) -> u64 {
    ((value + offset) % 0x1_0000_0000_0000_0000) as u64
}

/// The steps lead from one address to another: each starts where the last one landed, and
/// the pointer that it follows was read there.
pub open spec fn leads(
    links: Seq<PointerLink>,
    from: u64,
    target: u64,
    events: Seq<MemEvent>,
) -> bool
    decreases links.len(),
{
    if links.len() == 0 {
        from == target
    } else {
        &&& links[0].address == from
        &&& exists|value: nat|
            {
                &&& #[trigger] was_read(events, from, value)
                &&& leads(links.drop_first(), landed(value, links[0].offset), target, events)
            }
    }
}

/// The chain starts in a module and leads to the target.
pub open spec fn chain_leads(
    c: ChainView,
    target: u64,
    modules: Seq<ModuleView>,
    events: Seq<MemEvent>,
) -> bool {
    &&& c.links.len() > 0
    &&& starts_in(c, modules)
    &&& leads(c.links, c.links[0].address, target, events)
}

/// The chain's first pointer stands in its module, at its offset from the base.
pub open spec fn starts_in(c: ChainView, modules: Seq<ModuleView>) -> bool {
    exists|k: int|
        {
            &&& 0 <= k < modules.len()
            &&& (#[trigger] modules[k]).path == c.base_module
            &&& modules[k].start + c.base_offset == c.links[0].address
            &&& c.links[0].address < modules[k].end
        }
}

/// Every way that the search knows leads to the target.
spec fn sound(
    s: Search,
    target: u64,
    modules: Seq<ModuleView>,
    events: Seq<MemEvent>,
) -> bool {
    &&& forall|i: int|
        0 <= i < s.queue.len() ==> leads(
            (#[trigger] s.queue[i]).1,
            s.queue[i].0,
            target,
            events,
        )
    &&& forall|i: int|
        0 <= i < s.chains.len() ==> chain_leads(#[trigger] s.chains[i], target, modules, events)
}

/// The queue holds ways of `depth` steps and then of one more; the chains stand in order of
/// their length, at most one more.
spec fn shaped(s: Search, p: PointerScanParams, depth: nat) -> bool {
    &&& forall|i: int|
        0 <= i < s.queue.len() ==> depth <= (#[trigger] s.queue[i]).1.len() <= depth + 1
    &&& forall|i: int, j: int|
        0 <= i <= j < s.queue.len() ==> (#[trigger] s.queue[i]).1.len() <= (
        #[trigger] s.queue[j]).1.len()
    &&& forall|i: int|
        0 <= i < s.chains.len() ==> 0 < (#[trigger] s.chains[i]).links.len() <= depth + 1
            && s.chains[i].links.len() <= p.max_depth
    &&& by_length(s.chains)
    &&& s.chains.len() <= p.max_results
    &&& s.visited.finite()
}

/// No chain is longer than one after it.
pub open spec fn by_length(chains: Seq<ChainView>) -> bool {
    forall|i: int, j: int|
        0 <= i <= j < chains.len() ==> (#[trigger] chains[i]).links.len() <= (
        #[trigger] chains[j]).links.len()
}

proof fn lemma_was_read_stays(a: Seq<MemEvent>, b: Seq<MemEvent>, address: u64, value: nat)
    requires
        was_read(a, address, value),
    ensures
        was_read(a + b, address, value),
{
    let (j, o) = choose|j: int, o: int| #[trigger] read_there(a, j, o, address, value);
    assert((a + b)[j] == a[j]);
    assert(read_there(a + b, j, o, address, value));
}

proof fn lemma_was_read_later(a: Seq<MemEvent>, b: Seq<MemEvent>, address: u64, value: nat)
    requires
        was_read(b, address, value),
    ensures
        was_read(a + b, address, value),
{
    let (j, o) = choose|j: int, o: int| #[trigger] read_there(b, j, o, address, value);
    assert((a + b)[a.len() + j] == b[j]);
    assert(read_there(a + b, a.len() + j, o, address, value));
}

proof fn lemma_leads_stays(
    links: Seq<PointerLink>,
    from: u64,
    target: u64,
    a: Seq<MemEvent>,
    b: Seq<MemEvent>,
)
    requires
        leads(links, from, target, a),
    ensures
        leads(links, from, target, a + b),
    decreases links.len(),
{
    if links.len() > 0 {
        let value = choose|value: nat|
            {
                &&& #[trigger] was_read(a, from, value)
                &&& leads(links.drop_first(), landed(value, links[0].offset), target, a)
            };
        lemma_was_read_stays(a, b, from, value);
        lemma_leads_stays(links.drop_first(), landed(value, links[0].offset), target, a, b);
    }
}

proof fn lemma_sound_stays(
    s: Search,
    target: u64,
    modules: Seq<ModuleView>,
    a: Seq<MemEvent>,
    b: Seq<MemEvent>,
)
    requires
        sound(s, target, modules, a),
    ensures
        sound(s, target, modules, a + b),
{
    assert forall|i: int| 0 <= i < s.queue.len() implies leads(
        (#[trigger] s.queue[i]).1,
        s.queue[i].0,
        target,
        a + b,
    ) by {
        lemma_leads_stays(s.queue[i].1, s.queue[i].0, target, a, b);
    }
    assert forall|i: int| 0 <= i < s.chains.len() implies chain_leads(
        #[trigger] s.chains[i],
        target,
        modules,
        a + b,
    ) by {
        let c = s.chains[i];
        lemma_leads_stays(c.links, c.links[0].address, target, a, b);
    }
}

/// A pointer that a scan for an address found leads there.
spec fn found_for(link: PointerLink, target: u64, events: Seq<MemEvent>) -> bool {
    exists|value: nat| #[trigger]
        was_read(events, link.address, value) && landed(value, link.offset) == target
}

proof fn lemma_landed(value: nat, target: u64)
    requires
        value < 0x1_0000_0000_0000_0000,
    ensures
        landed(value, offset_to(target, value)) == target,
{
    let d = target - value;
    let off = offset_to(target, value) as int;
    assert(off == d || off == d - 0x1_0000_0000_0000_0000 || off == d + 0x1_0000_0000_0000_0000);
    if off == d {
        assert(value + off == target);
    } else if off == d - 0x1_0000_0000_0000_0000 {
        assert((target - 0x1_0000_0000_0000_0000) % 0x1_0000_0000_0000_0000 == target);
    } else {
        assert((target + 0x1_0000_0000_0000_0000) % 0x1_0000_0000_0000_0000 == target);
    }
}

proof fn lemma_pointers_lead(
    events: Seq<MemEvent>,
    pid: u32,
    target: u64,
    far: int,
    k: int,
)
    requires
        0 <= k < reads_pointers(events, target, far).len(),
        forall|j: int|
            0 <= j < events.len() ==> {
                &&& #[trigger] events[j] is Read
                &&& events[j]->Read_address + events[j]->wanted <= u64::MAX
                &&& (events[j]->Read_outcome matches Ok((n, buffer)) ==> n <= buffer.len()
                    && buffer.len() == events[j]->wanted)
            },
    ensures
        found_for(reads_pointers(events, target, far)[k], target, events),
    decreases events.len(),
{
    let rest = events.drop_last();
    let before = reads_pointers(rest, target, far);
    let e = events.last();
    if k < before.len() {
        assert forall|j: int| 0 <= j < rest.len() implies {
            &&& #[trigger] rest[j] is Read
            &&& rest[j]->Read_address + rest[j]->wanted <= u64::MAX
            &&& (rest[j]->Read_outcome matches Ok((n, buffer)) ==> n <= buffer.len()
                && buffer.len() == rest[j]->wanted)
        } by {
            assert(rest[j] == events[j]);
        }
        lemma_pointers_lead(rest, pid, target, far, k);
        let link = before[k];
        let value = choose|value: nat| #[trigger]
            was_read(rest, link.address, value) && landed(value, link.offset) == target;
        assert(events =~= rest + seq![e]);
        lemma_was_read_stays(rest, seq![e], link.address, value);
    } else {
        assert(e == events[events.len() - 1]);
        let (n, buffer) = e->Read_outcome->Ok_0;
        let data = buffer.take(n as int);
        let good = |o: int| pointer_at(data, target, far, o);
        let at = buffer::offsets(good, data.len());
        buffer::offsets_are_exact(good, data.len());
        let i = k - before.len();
        let o = at[i];
        assert(good(o));
        let link = reads_pointers(events, target, far)[k];
        assert(link == chunk_pointers(data, e->Read_address, target, far)[i]);
        let value = word_at(data, o);
        bytes::le_value_bound(data.subrange(o, o + 8));
        vstd::arithmetic::power2::lemma2_to64();
        vstd::arithmetic::power2::lemma2_to64_rest();
        lemma_landed(value, target);
        assert(read_there(events, events.len() - 1, o, link.address, value));
        assert(was_read(events, link.address, value));
    }
}

proof fn lemma_take_one(
    s: Search,
    way: Seq<PointerLink>,
    from: u64,
    link: PointerLink,
    target: u64,
    modules: Seq<ModuleView>,
    p: PointerScanParams,
    events: Seq<MemEvent>,
)
    requires
        sound(s, target, modules, events),
        shaped(s, p, way.len()),
        way.len() < p.max_depth,
        leads(way, from, target, events),
        found_for(link, from, events),
    ensures
        sound(take_one(s, way, link, modules, p), target, modules, events),
        shaped(take_one(s, way, link, modules, p), p, way.len()),
{
    let longer = seq![link] + way;
    let after = take_one(s, way, link, modules, p);
    assert(leads(longer, link.address, target, events)) by {
        let value = choose|value: nat| #[trigger]
            was_read(events, link.address, value) && landed(value, link.offset) == from;
        assert(longer.drop_first() =~= way);
        assert(longer[0] == link);
    }
    let k = containing(modules, link.address, 0);
    lemma_containing_holds(modules, link.address, 0);
    if s.chains.len() >= p.max_results {
    } else if k < modules.len() {
        let c = after.chains.last();
        assert(after.chains =~= s.chains.push(c));
        assert(modules[k].start + c.base_offset == link.address);
        assert(starts_in(c, modules));
        assert(chain_leads(c, target, modules, events));
        assert forall|i: int| 0 <= i < after.chains.len() implies chain_leads(
            #[trigger] after.chains[i],
            target,
            modules,
            events,
        ) by {
            if i < s.chains.len() {
                assert(after.chains[i] == s.chains[i]);
            }
        }
    } else if longer.len() < p.max_depth && !s.visited.contains(link.address) {
        assert forall|i: int| 0 <= i < after.queue.len() implies leads(
            (#[trigger] after.queue[i]).1,
            after.queue[i].0,
            target,
            events,
        ) by {
            if i < s.queue.len() {
                assert(after.queue[i] == s.queue[i]);
            }
        }
    }
}

proof fn lemma_containing_holds(modules: Seq<ModuleView>, address: u64, i: int)
    requires
        0 <= i,
    ensures
        i <= containing(modules, address, i) || containing(modules, address, i) == modules.len(),
        0 <= containing(modules, address, i) <= modules.len(),
        containing(modules, address, i) < modules.len() ==> {
            let k = containing(modules, address, i);
            modules[k].start <= address < modules[k].end
        },
    decreases modules.len() - i,
{
    if i < modules.len() && !(modules[i].start <= address < modules[i].end) {
        lemma_containing_holds(modules, address, i + 1);
    }
}

/// A search in progress: what [`find_pointer_chains`] keeps between two scans.
pub struct PointerSearch {
    queue: VecDeque<(u64, Vec<PointerLink>)>,
    visited: HashSet<u64>,
    chains: Vec<PointerChain>,
}

impl View for PointerSearch {
    type V = Search;

    closed spec fn view(&self) -> Search {
        Search {
            queue: Seq::new(
                self.queue@.len(),
                |i: int| (self.queue@[i].0, self.queue@[i].1@),
            ),
            visited: self.visited@,
            chains: chain_views(self.chains@),
        }
    }
}

fn copy_links(links: &Vec<PointerLink>) -> (r: Vec<PointerLink>)
    ensures
        r@ == links@,
{
    let mut r: Vec<PointerLink> = Vec::new();
    let mut i: usize = 0;
    while i < links.len()
        invariant
            i <= links@.len(),
            r@ == links@.take(i as int),
        decreases links@.len() - i,
    {
        r.push(links[i]);
        i += 1;
        assert(links@.take(i as int) =~= links@.take(i - 1).push(links@[i - 1]));
    }
    assert(links@.take(links@.len() as int) =~= links@);
    r
}

impl PointerSearch {
    /// The start of a search for ways to an address.
    pub fn new(target_address: u64) -> (r: PointerSearch)
        ensures
            r@ == search_start(target_address),
    {
        broadcast use vstd::std_specs::hash::group_hash_axioms;

        let mut queue: VecDeque<(u64, Vec<PointerLink>)> = VecDeque::new();
        let mut visited: HashSet<u64> = HashSet::new();
        let way: Vec<PointerLink> = Vec::new();
        queue.push_back((target_address, way));
        visited.insert(target_address);
        let r = PointerSearch { queue, visited, chains: Vec::new() };
        proof {
            assert(way@ =~= Seq::empty());
            assert(r@.queue =~= search_start(target_address).queue);
            assert(r@.visited =~= search_start(target_address).visited);
            assert(r@.chains =~= search_start(target_address).chains);
        }
        r
    }

    /// The next address to search pointers to, with the way from it to the target.
    pub fn next_target(&mut self, params: &PointerScanParams) -> (r: Option<
        (u64, Vec<PointerLink>),
    >)
        ensures
            ({
                let s = skip_done(old(self)@, *params);
                match r {
                    Some((address, way)) => {
                        &&& s.queue.len() > 0
                        &&& address == s.queue[0].0
                        &&& way@ == s.queue[0].1
                        &&& final(self)@ == (Search { queue: s.queue.drop_first(), ..s })
                    },
                    None => s.queue.len() == 0 && final(self)@ == s,
                }
            }),
    {
        loop
            invariant
                skip_done(self@, *params) == skip_done(old(self)@, *params),
            decreases self@.queue.len(),
        {
            let ghost before = self@;
            match self.queue.pop_front() {
                None => {
                    assert(self@.queue =~= before.queue);
                    assert(self@ == before);
                    return None;
                },
                Some(entry) => {
                    proof {
                        assert(self@.queue =~= before.queue.drop_first());
                        assert(before.queue[0] == (entry.0, entry.1@));
                        assert(self@ == Search { queue: before.queue.drop_first(), ..before });
                    }
                    if entry.1.len() >= params.max_depth || self.chains.len()
                        >= params.max_results {
                        continue ;
                    }
                    return Some(entry);
                },
            }
        }
    }

    fn take_pointer(
        &mut self,
        way: &Vec<PointerLink>,
        link: PointerLink,
        modules: &[(String, u64, u64)],
        params: &PointerScanParams,
    )
        requires
            way@.len() < usize::MAX,
        ensures
            final(self)@ == take_one(old(self)@, way@, link, module_views(modules@), *params),
    {
        broadcast use vstd::std_specs::hash::group_hash_axioms;

        if self.chains.len() >= params.max_results {
            return;
        }
        let mut longer: Vec<PointerLink> = copy_links(way);
        longer.insert(0, link);
        assert(longer@ =~= seq![link] + way@);
        let ghost before = self@;
        match find_containing_module(link.address, modules) {
            Some((path, base)) => {
                let chain = PointerChain {
                    base_module: path,
                    base_offset: link.address - base,
                    links: longer,
                };
                self.chains.push(chain);
                assert(self@.chains =~= before.chains.push(chain@));
                assert(self@.queue =~= before.queue);
            },
            None => {
                if longer.len() < params.max_depth && self.visited.insert(link.address) {
                    self.queue.push_back((link.address, longer));
                    assert(self@.queue =~= before.queue.push((link.address, longer@)));
                } else {
                    assert(self@.visited =~= before.visited);
                    assert(self@.queue =~= before.queue);
                }
            },
        }
    }

    /// Takes in the pointers that were found to the address at hand.
    pub fn absorb(
        &mut self,
        way: &Vec<PointerLink>,
        links: &Vec<PointerLink>,
        modules: &[(String, u64, u64)],
        params: &PointerScanParams,
    )
        requires
            way@.len() < usize::MAX,
        ensures
            final(self)@ == take_all(
                old(self)@,
                way@,
                links@,
                module_views(modules@),
                *params,
            ),
    {
        let ghost start = self@;
        let mut i: usize = 0;
        assert(start == take_all(start, way@, links@.take(0), module_views(modules@), *params));
        while i < links.len()
            invariant
                i <= links@.len(),
                way@.len() < usize::MAX,
                self@ == take_all(
                    start,
                    way@,
                    links@.take(i as int),
                    module_views(modules@),
                    *params,
                ),
            decreases links@.len() - i,
        {
            proof {
                assert(links@.take(i + 1).drop_last() =~= links@.take(i as int));
                assert(links@.take(i + 1).last() == links@[i as int]);
            }
            self.take_pointer(way, links[i], modules, params);
            i += 1;
        }
        assert(links@.take(links@.len() as int) =~= links@);
    }

    /// The chains that were found.
    pub fn into_chains(self) -> (r: Vec<PointerChain>)
        ensures
            chain_views(r@) == self@.chains,
    {
        self.chains
    }
}

proof fn lemma_reads_pointers_adds(a: Seq<MemEvent>, b: Seq<MemEvent>, target: u64, far: int)
    ensures
        reads_pointers(a + b, target, far) == reads_pointers(a, target, far) + reads_pointers(
            b,
            target,
            far,
        ),
    decreases b.len(),
{
    if b.len() == 0 {
        assert(a + b =~= a);
        assert(reads_pointers(a, target, far) + reads_pointers(b, target, far) =~= reads_pointers(
            a,
            target,
            far,
        ));
    } else {
        lemma_reads_pointers_adds(a, b.drop_last(), target, far);
        assert((a + b).drop_last() =~= a + b.drop_last());
        assert((a + b).last() == b.last());
        assert(reads_pointers(a + b, target, far) =~= reads_pointers(a, target, far)
            + reads_pointers(b, target, far));
    }
}

/// A read as the search makes them: within the address space, with a buffer of the size that
/// was wanted.
spec fn proper(e: MemEvent) -> bool {
    &&& e is Read
    &&& e->Read_address + e->wanted <= u64::MAX
    &&& (e->Read_outcome matches Ok((n, buffer)) ==> n <= buffer.len() && buffer.len()
        == e->wanted)
}

spec fn all_proper(events: Seq<MemEvent>) -> bool {
    forall|j: int| 0 <= j < events.len() ==> proper(#[trigger] events[j])
}

/// Reads every region for pointers near the target.
fn scan_for_pointers_to<M: MemoryAccess>(
    mem: &mut M,
    pid: u32,
    regions: &[MapRegion],
    target: u64,
    max_offset: i64,
) -> (r: (Vec<PointerLink>, Ghost<Seq<Seq<MemEvent>>>))
    ensures
        access::follows(*final(mem), *old(mem)),
        reads_all(r.1@, pid, pointer_targets(maps::region_views(regions@))),
        access::since(final(mem).trace(), old(mem).trace()) == engine::chained(r.1@),
        r.0@ == reads_pointers(engine::chained(r.1@), target, reach(max_offset)),
{
    let ghost all = maps::region_views(regions@);
    let ghost good = |r: RegionView| pointer_target(r);
    let ghost far = reach(max_offset);
    let ghost before = mem.trace();
    let ghost mut events: Seq<MemEvent> = Seq::empty();
    let ghost mut parts: Seq<Seq<MemEvent>> = Seq::empty();
    let mut links: Vec<PointerLink> = Vec::new();
    let mut i: usize = 0;
    proof {
        assert(all.take(0).filter(good) =~= Seq::empty()) by {
            reveal(Seq::filter);
        }
        assert(before + events =~= before);
        assert(links@ =~= reads_pointers(events, target, far));
    }
    while i < regions.len()
        invariant
            i <= regions@.len(),
            all == maps::region_views(regions@),
            good == (|r: RegionView| pointer_target(r)),
            far == reach(max_offset),
            mem.trace() == before + events,
            mem.answers() == old(mem).answers(),
            old(mem).sound() ==> mem.sound(),
            events == engine::chained(parts),
            reads_all(parts, pid, all.take(i as int).filter(good)),
            links@ == reads_pointers(events, target, far),
        decreases regions@.len() - i,
    {
        let region = &regions[i];
        proof {
            assert(all.take(i + 1) =~= all.take(i as int).push(all[i as int]));
            assert(all[i as int] == region@);
            engine::lemma_filter_push(all.take(i as int), all[i as int], good);
        }
        if region.permissions.read && (region.safety == RegionSafety::Safe || region.safety
            == RegionSafety::ReadOnly) {
            let ghost middle = mem.trace();
            scan_region_for_pointers(mem, pid, region, target, max_offset, &mut links);
            proof {
                let new = access::since(mem.trace(), middle);
                let earlier = parts;
                access::trace_splits(mem.trace(), middle);
                lemma_reads_pointers_adds(events, new, target, far);
                assert((before + events) + new =~= before + (events + new));
                events = events + new;
                parts = parts.push(new);
                assert(parts.drop_last() =~= earlier);
            }
        }
        i += 1;
    }
    proof {
        assert(all.take(regions@.len() as int) =~= all);
        access::trace_grows(before, events);
    }
    (links, Ghost(parts))
}

proof fn lemma_reads_proper(parts: Seq<Seq<MemEvent>>, pid: u32, targets: Seq<RegionView>)
    requires
        reads_all(parts, pid, targets),
    ensures
        all_proper(engine::chained(parts)),
    decreases parts.len(),
{
    if parts.len() > 0 {
        let rest = parts.drop_last();
        let fewer = targets.drop_last();
        assert forall|i: int| 0 <= i < rest.len() implies reads_for_pointers(
            #[trigger] rest[i],
            pid,
            fewer[i],
        ) by {
            assert(rest[i] == parts[i]);
        }
        lemma_reads_proper(rest, pid, fewer);
        let last = parts.last();
        assert(reads_for_pointers(parts[parts.len() - 1], pid, targets[parts.len() - 1]));
        let whole = engine::chained(parts);
        assert forall|j: int| 0 <= j < whole.len() implies proper(#[trigger] whole[j]) by {
            let n = engine::chained(rest).len();
            if j < n {
                assert(whole[j] == engine::chained(rest)[j]);
            } else {
                assert(whole[j] == last[j - n]);
                assert(reads_on(
                    last[j - n],
                    pid,
                    targets[parts.len() - 1],
                    gained(last.take(j - n)),
                ));
            }
        }
    }
}

proof fn lemma_skip_done(
    s: Search,
    p: PointerScanParams,
    target: u64,
    modules: Seq<ModuleView>,
    events: Seq<MemEvent>,
    depth: nat,
) -> (after: nat)
    requires
        sound(s, target, modules, events),
        shaped(s, p, depth),
    ensures
        ({
            let t = skip_done(s, p);
            &&& sound(t, target, modules, events)
            &&& shaped(t, p, after)
            &&& t.visited == s.visited
            &&& t.chains == s.chains
            &&& t.queue.len() <= s.queue.len()
            &&& t.queue.len() > 0 ==> t.queue[0].1.len() < p.max_depth && t.chains.len()
                < p.max_results && after == t.queue[0].1.len()
        }),
    decreases s.queue.len(),
{
    if s.queue.len() == 0 {
        depth
    } else if s.queue[0].1.len() >= p.max_depth || s.chains.len() >= p.max_results {
        let t = Search { queue: s.queue.drop_first(), ..s };
        assert forall|i: int| 0 <= i < t.queue.len() implies leads(
            (#[trigger] t.queue[i]).1,
            t.queue[i].0,
            target,
            events,
        ) by {
            assert(t.queue[i] == s.queue[i + 1]);
        }
        assert(shaped(t, p, depth));
        lemma_skip_done(t, p, target, modules, events, depth)
    } else {
        let d = s.queue[0].1.len();
        assert forall|i: int| 0 <= i < s.queue.len() implies d <= (
        #[trigger] s.queue[i]).1.len() <= d + 1 by {
            assert(s.queue[0].1.len() <= s.queue[i].1.len());
        }
        d
    }
}

proof fn lemma_take_all(
    s: Search,
    way: Seq<PointerLink>,
    from: u64,
    links: Seq<PointerLink>,
    target: u64,
    modules: Seq<ModuleView>,
    p: PointerScanParams,
    events: Seq<MemEvent>,
)
    requires
        sound(s, target, modules, events),
        shaped(s, p, way.len()),
        way.len() < p.max_depth,
        leads(way, from, target, events),
        forall|i: int| 0 <= i < links.len() ==> found_for(#[trigger] links[i], from, events),
    ensures
        ({
            let t = take_all(s, way, links, modules, p);
            &&& sound(t, target, modules, events)
            &&& shaped(t, p, way.len())
            &&& t.queue.len() - t.visited.len() == s.queue.len() - s.visited.len()
            &&& t.visited.len() >= s.visited.len()
        }),
    decreases links.len(),
{
    if links.len() > 0 {
        let rest = links.drop_last();
        assert forall|i: int| 0 <= i < rest.len() implies found_for(
            #[trigger] rest[i],
            from,
            events,
        ) by {
            assert(rest[i] == links[i]);
        }
        lemma_take_all(s, way, from, rest, target, modules, p, events);
        let t = take_all(s, way, rest, modules, p);
        assert(found_for(links[links.len() - 1], from, events));
        lemma_take_one(t, way, from, links.last(), target, modules, p, events);
    }
}

/// There are no more than 2^64 addresses.
proof fn lemma_addresses_bounded(s: Set<u64>)
    requires
        s.finite(),
    ensures
        s.len() <= 0x1_0000_0000_0000_0000,
{
    let f = |x: u64| x as int;
    let image = s.map(f);
    assert(vstd::relations::injective_on(f, s));
    vstd::set_lib::lemma_map_size(s, image, f);
    vstd::set_lib::lemma_int_range(0, 0x1_0000_0000_0000_0000);
    assert(image.subset_of(vstd::set_lib::set_int_range(0, 0x1_0000_0000_0000_0000)));
    vstd::set_lib::lemma_len_subset(
        image,
        vstd::set_lib::set_int_range(0, 0x1_0000_0000_0000_0000),
    );
}

proof fn lemma_one_more_scan(
    scans: Seq<Seq<Seq<MemEvent>>>,
    parts: Seq<Seq<MemEvent>>,
    pid: u32,
    target: u64,
    regions: Seq<RegionView>,
    p: PointerScanParams,
)
    requires
        search_running(scans, pid, target, regions, p),
        reads_all(parts, pid, pointer_targets(regions)),
        skip_done(search_after(scans, target, modules_of(regions), p), p).queue.len() > 0,
    ensures
        search_running(scans.push(parts), pid, target, regions, p),
{
    let more = scans.push(parts);
    assert forall|k: int| 0 <= k < more.len() implies {
        &&& reads_all(#[trigger] more[k], pid, pointer_targets(regions))
        &&& skip_done(
            search_after(more.take(k), target, modules_of(regions), p),
            p,
        ).queue.len() > 0
    } by {
        if k < scans.len() {
            assert(more[k] == scans[k]);
            assert(more.take(k) =~= scans.take(k));
        } else {
            assert(more.take(k) =~= scans);
        }
    }
}

/// Taking in the pointers to the first address in the queue keeps the search sound and in
/// shape.
proof fn lemma_search_step(
    s: Search,
    links: Seq<PointerLink>,
    parts: Seq<Seq<MemEvent>>,
    pid: u32,
    target: u64,
    targets: Seq<RegionView>,
    modules: Seq<ModuleView>,
    p: PointerScanParams,
    events: Seq<MemEvent>,
)
    requires
        s.queue.len() > 0,
        s.queue[0].1.len() < p.max_depth,
        sound(s, target, modules, events),
        shaped(s, p, s.queue[0].1.len()),
        reads_all(parts, pid, targets),
        links == reads_pointers(engine::chained(parts), s.queue[0].0, reach(p.max_offset)),
    ensures
        ({
            let t = absorbed(s, links, modules, p);
            &&& sound(t, target, modules, events + engine::chained(parts))
            &&& shaped(t, p, s.queue[0].1.len())
            &&& t.queue.len() - t.visited.len() == s.queue.len() - 1 - s.visited.len()
            &&& t.visited.len() >= s.visited.len()
        }),
{
    let new = engine::chained(parts);
    let (from, way) = s.queue[0];
    let popped = Search { queue: s.queue.drop_first(), ..s };
    lemma_reads_proper(parts, pid, targets);
    assert forall|i: int| 0 <= i < links.len() implies found_for(
        #[trigger] links[i],
        from,
        events + new,
    ) by {
        assert forall|j: int| 0 <= j < new.len() implies {
            &&& #[trigger] new[j] is Read
            &&& new[j]->Read_address + new[j]->wanted <= u64::MAX
            &&& (new[j]->Read_outcome matches Ok((n, buffer)) ==> n <= buffer.len()
                && buffer.len() == new[j]->wanted)
        } by {
            assert(proper(new[j]));
        }
        lemma_pointers_lead(new, pid, from, reach(p.max_offset), i);
        let link = links[i];
        let value = choose|value: nat| #[trigger]
            was_read(new, link.address, value) && landed(value, link.offset) == from;
        lemma_was_read_later(events, new, link.address, value);
    }
    lemma_sound_stays(s, target, modules, events, new);
    assert(leads(s.queue[0].1, s.queue[0].0, target, events + new));
    assert forall|i: int| 0 <= i < popped.queue.len() implies leads(
        (#[trigger] popped.queue[i]).1,
        popped.queue[i].0,
        target,
        events + new,
    ) by {
        assert(popped.queue[i] == s.queue[i + 1]);
    }
    assert forall|i: int| 0 <= i < popped.queue.len() implies way.len() <= (
    #[trigger] popped.queue[i]).1.len() <= way.len() + 1 by {
        assert(popped.queue[i] == s.queue[i + 1]);
    }
    assert forall|i: int, j: int| 0 <= i <= j < popped.queue.len() implies (
    #[trigger] popped.queue[i]).1.len() <= (#[trigger] popped.queue[j]).1.len() by {
        assert(popped.queue[i] == s.queue[i + 1]);
        assert(popped.queue[j] == s.queue[j + 1]);
    }
    lemma_take_all(popped, way, from, links, target, modules, p, events + new);
}

spec fn effort(s: Search) -> int {
    2 * 0x1_0000_0000_0000_0000 + s.queue.len() - 2 * s.visited.len()
}

/// Searches breadth first for ways from the modules of a process to an address. The chains
/// come in order of their length, shorter ones being more stable.
pub fn find_pointer_chains<M: MemoryAccess>(
    mem: &mut M,
    pid: u32,
    target_address: u64,
    regions: &[MapRegion],
    params: &PointerScanParams,
) -> (r: Result<Vec<PointerChain>, access::AccessError>)
    ensures
        access::follows(*final(mem), *old(mem)),
        r is Ok,
        search_gave(
            access::since(final(mem).trace(), old(mem).trace()),
            pid,
            target_address,
            maps::region_views(regions@),
            *params,
            chain_views(r->Ok_0@),
        ),
        forall|i: int|
            0 <= i < r->Ok_0@.len() ==> chain_leads(
                (#[trigger] r->Ok_0@[i])@,
                target_address,
                modules_of(maps::region_views(regions@)),
                access::since(final(mem).trace(), old(mem).trace()),
            ) && r->Ok_0@[i]@.links.len() <= params.max_depth,
        by_length(chain_views(r->Ok_0@)),
        r->Ok_0@.len() <= params.max_results,
{
    let ghost p = *params;
    let ghost all = maps::region_views(regions@);
    let ghost table = modules_of(all);
    let ghost before = mem.trace();
    let ghost mut events: Seq<MemEvent> = Seq::empty();
    let ghost mut scans: Seq<Seq<Seq<MemEvent>>> = Seq::empty();
    let ghost mut depth: nat = 0;
    let modules = extract_module_bases(regions);
    let mut search = PointerSearch::new(target_address);
    proof {
        assert(before + events =~= before);
        assert(sound(search@, target_address, table, events)) by {
            assert(leads(Seq::empty(), target_address, target_address, events));
        }
        assert(shaped(search@, p, 0));
        lemma_addresses_bounded(search@.visited);
    }
    loop
        invariant
            p == *params,
            all == maps::region_views(regions@),
            table == modules_of(all),
            module_views(modules@) == table,
            before == old(mem).trace(),
            mem.trace() == before + events,
            mem.answers() == old(mem).answers(),
            old(mem).sound() ==> mem.sound(),
            events == all_reads(scans),
            search@ == search_after(scans, target_address, table, p),
            search_running(scans, pid, target_address, all, p),
            sound(search@, target_address, table, events),
            shaped(search@, p, depth),
            effort(search@) >= 0,
        decreases effort(search@),
    {
        let ghost s0 = search@;
        let ghost s1 = skip_done(s0, p);
        proof {
            depth = lemma_skip_done(s0, p, target_address, table, events, depth);
        }
        let (target, way) = match search.next_target(params) {
            Some(next) => next,
            None => {
                proof {
                    access::trace_grows(before, events);
                    assert(search_ran(scans, pid, target_address, all, p));
                    assert(search_gave(events, pid, target_address, all, p, search@.chains));
                }
                let chains = search.into_chains();
                proof {
                    assert forall|i: int| 0 <= i < chains@.len() implies chain_leads(
                        (#[trigger] chains@[i])@,
                        target_address,
                        table,
                        events,
                    ) && chains@[i]@.links.len() <= p.max_depth by {
                        assert(chain_views(chains@)[i] == chains@[i]@);
                        assert(s1.chains[i] == chains@[i]@);
                    }
                }
                return Ok(chains);
            },
        };
        let ghost middle = mem.trace();
        let (links, parts) = scan_for_pointers_to(mem, pid, regions, target, params.max_offset);
        proof {
            let new = engine::chained(parts@);
            access::trace_splits(mem.trace(), middle);
            assert((before + events) + new =~= before + (events + new));
            lemma_search_step(
                s1,
                links@,
                parts@,
                pid,
                target_address,
                pointer_targets(all),
                table,
                p,
                events,
            );
            lemma_one_more_scan(scans, parts@, pid, target_address, all, p);
            assert(scans.push(parts@).drop_last() =~= scans);
            events = events + new;
            scans = scans.push(parts@);
        }
        search.absorb(&way, &links, modules.as_slice(), params);
        proof {
            lemma_addresses_bounded(search@.visited);
        }
    }
}

proof fn lemma_all_reads_inside(
    scans: Seq<Seq<Seq<MemEvent>>>,
    pid: u32,
    targets: Seq<RegionView>,
)
    requires
        forall|k: int| 0 <= k < scans.len() ==> reads_all(#[trigger] scans[k], pid, targets),
    ensures
        forall|j: int|
            0 <= j < all_reads(scans).len() ==> engine::inside(
                #[trigger] all_reads(scans)[j],
                targets,
            ),
    decreases scans.len(),
{
    if scans.len() > 0 {
        let rest = scans.drop_last();
        let parts = scans.last();
        let good = |e: MemEvent| engine::inside(e, targets);
        assert forall|k: int| 0 <= k < rest.len() implies reads_all(
            #[trigger] rest[k],
            pid,
            targets,
        ) by {
            assert(reads_all(scans[k], pid, targets));
        }
        lemma_all_reads_inside(rest, pid, targets);
        assert(reads_all(scans[scans.len() - 1], pid, targets));
        assert forall|i: int, j: int| 0 <= i < parts.len() && 0 <= j < parts[i].len() implies good(
            #[trigger] parts[i][j],
        ) by {
            let e = parts[i][j];
            assert(reads_for_pointers(parts[i], pid, targets[i]));
            assert(reads_on(e, pid, targets[i], gained(parts[i].take(j))));
            assert(targets[i].start <= e->Read_address && e->Read_address + e->wanted
                <= targets[i].end);
        }
        engine::lemma_chained_all(parts, good);
        assert forall|j: int| 0 <= j < all_reads(scans).len() implies engine::inside(
            #[trigger] all_reads(scans)[j],
            targets,
        ) by {
            let n = all_reads(rest).len();
            if j < n {
                assert(all_reads(scans)[j] == all_reads(rest)[j]);
            } else {
                assert(all_reads(scans)[j] == engine::chained(parts)[j - n]);
                assert(good(engine::chained(parts)[j - n]));
            }
        }
    }
}

/// A pointer search only reads, and each read stays inside a safe or read-only region.
pub proof fn pointer_searches_stay_in_their_regions(
    events: Seq<MemEvent>,
    pid: u32,
    target: u64,
    regions: Seq<RegionView>,
    p: PointerScanParams,
    chains: Seq<ChainView>,
)
    requires
        search_gave(events, pid, target, regions, p, chains),
    ensures
        forall|j: int|
            0 <= j < events.len() ==> engine::inside(
                #[trigger] events[j],
                pointer_targets(regions),
            ),
        forall|i: int|
            0 <= i < pointer_targets(regions).len() ==> {
                let r = #[trigger] pointer_targets(regions)[i];
                r.safety == RegionSafety::Safe || r.safety == RegionSafety::ReadOnly
            },
{
    let scans = choose|scans: Seq<Seq<Seq<MemEvent>>>| #[trigger]
        search_ran(scans, pid, target, regions, p) && events == all_reads(scans) && chains
            == search_after(scans, target, modules_of(regions), p).chains;
    assert(search_running(scans, pid, target, regions, p));
    assert forall|k: int| 0 <= k < scans.len() implies reads_all(
        #[trigger] scans[k],
        pid,
        pointer_targets(regions),
    ) by {}
    lemma_all_reads_inside(scans, pid, pointer_targets(regions));
    engine::lemma_filter_all(regions, |r: RegionView| pointer_target(r));
}

/// Every offset is at most `reach`, either way.
pub open spec fn within_reach(links: Seq<PointerLink>, reach: int) -> bool {
    forall|i: int| 0 <= i < links.len() ==> -reach <= (#[trigger] links[i]).offset <= reach
}

/// So are all offsets that a search has come upon.
spec fn search_within_reach(s: Search, reach: int) -> bool {
    &&& forall|i: int| 0 <= i < s.queue.len() ==> within_reach((#[trigger] s.queue[i]).1, reach)
    &&& forall|i: int| 0 <= i < s.chains.len() ==> within_reach(
        (#[trigger] s.chains[i]).links,
        reach,
    )
}

proof fn lemma_pointers_within_reach(events: Seq<MemEvent>, target: u64, max_offset: i64)
    ensures
        within_reach(reads_pointers(events, target, reach(max_offset)), reach(max_offset)),
    decreases events.len(),
{
    let far = reach(max_offset);
    if events.len() > 0 {
        let rest = reads_pointers(events.drop_last(), target, far);
        let all = reads_pointers(events, target, far);
        lemma_pointers_within_reach(events.drop_last(), target, max_offset);
        assert forall|i: int| 0 <= i < all.len() implies -far <= (#[trigger] all[i]).offset
            <= far by {
            if i < rest.len() {
                assert(all[i] == rest[i]);
            } else {
                let (n, buffer) = events.last()->Read_outcome->Ok_0;
                let data = buffer.take(n as int);
                let good = |o: int| pointer_at(data, target, far, o);
                let at = buffer::offsets(good, data.len());
                buffer::offsets_are_exact(good, data.len());
                let k = i - rest.len();
                assert(all[i] == chunk_pointers(
                    data,
                    events.last()->Read_address,
                    target,
                    far,
                )[k]);
                assert(good(at[k]));
            }
        }
    }
}

proof fn lemma_skip_within_reach(s: Search, p: PointerScanParams, far: int)
    requires
        search_within_reach(s, far),
    ensures
        search_within_reach(skip_done(s, p), far),
    decreases s.queue.len(),
{
    if s.queue.len() > 0 && (s.queue[0].1.len() >= p.max_depth || s.chains.len()
        >= p.max_results) {
        let rest = Search { queue: s.queue.drop_first(), ..s };
        assert forall|i: int| 0 <= i < rest.queue.len() implies within_reach(
            (#[trigger] rest.queue[i]).1,
            far,
        ) by {
            assert(rest.queue[i] == s.queue[i + 1]);
        }
        lemma_skip_within_reach(rest, p, far);
    }
}

proof fn lemma_take_within_reach(
    s: Search,
    way: Seq<PointerLink>,
    links: Seq<PointerLink>,
    modules: Seq<ModuleView>,
    p: PointerScanParams,
    far: int,
)
    requires
        search_within_reach(s, far),
        within_reach(way, far),
        within_reach(links, far),
    ensures
        search_within_reach(take_all(s, way, links, modules, p), far),
    decreases links.len(),
{
    if links.len() > 0 {
        let rest = links.drop_last();
        assert forall|i: int| 0 <= i < rest.len() implies -far <= (#[trigger] rest[i]).offset
            <= far by {
            assert(rest[i] == links[i]);
        }
        lemma_take_within_reach(s, way, rest, modules, p, far);
        let before = take_all(s, way, rest, modules, p);
        let after = take_all(s, way, links, modules, p);
        let longer = seq![links.last()] + way;
        assert(within_reach(longer, far)) by {
            assert forall|i: int| 0 <= i < longer.len() implies -far <= (
            #[trigger] longer[i]).offset <= far by {
                if i > 0 {
                    assert(longer[i] == way[i - 1]);
                } else {
                    assert(longer[0] == links[links.len() - 1]);
                }
            }
        }
        assert forall|i: int| 0 <= i < after.queue.len() implies within_reach(
            (#[trigger] after.queue[i]).1,
            far,
        ) by {
            if i < before.queue.len() {
                assert(after.queue[i] == before.queue[i]);
            }
        }
        assert forall|i: int| 0 <= i < after.chains.len() implies within_reach(
            (#[trigger] after.chains[i]).links,
            far,
        ) by {
            if i < before.chains.len() {
                assert(after.chains[i] == before.chains[i]);
            }
        }
    }
}

proof fn lemma_search_within_reach(
    scans: Seq<Seq<Seq<MemEvent>>>,
    pid: u32,
    target: u64,
    regions: Seq<RegionView>,
    p: PointerScanParams,
)
    requires
        search_running(scans, pid, target, regions, p),
    ensures
        search_within_reach(
            search_after(scans, target, modules_of(regions), p),
            reach(p.max_offset),
        ),
    decreases scans.len(),
{
    let far = reach(p.max_offset);
    let modules = modules_of(regions);
    if scans.len() > 0 {
        let rest = scans.drop_last();
        let n = scans.len() - 1;
        assert forall|k: int| 0 <= k < rest.len() implies {
            &&& reads_all(#[trigger] rest[k], pid, pointer_targets(regions))
            &&& skip_done(search_after(rest.take(k), target, modules, p), p).queue.len() > 0
        } by {
            assert(scans[k] == rest[k]);
            assert(scans.take(k) =~= rest.take(k));
        }
        lemma_search_within_reach(rest, pid, target, regions, p);
        let s = search_after(rest, target, modules, p);
        let t = skip_done(s, p);
        lemma_skip_within_reach(s, p, far);
        assert(scans[n] == scans.last());
        assert(scans.take(n) =~= rest);
        let events = engine::chained(scans.last());
        lemma_pointers_within_reach(events, t.queue[0].0, p.max_offset);
        let u = Search { queue: t.queue.drop_first(), ..t };
        assert forall|i: int| 0 <= i < u.queue.len() implies within_reach(
            (#[trigger] u.queue[i]).1,
            far,
        ) by {
            assert(u.queue[i] == t.queue[i + 1]);
        }
        lemma_take_within_reach(
            u,
            t.queue[0].1,
            reads_pointers(events, t.queue[0].0, far),
            modules,
            p,
            far,
        );
    }
}

/// No step of a chain is longer than the limit allows. A negative limit counts by its size.
pub proof fn links_stay_within_reach(
    events: Seq<MemEvent>,
    pid: u32,
    target: u64,
    regions: Seq<RegionView>,
    p: PointerScanParams,
    chains: Seq<ChainView>,
)
    requires
        search_gave(events, pid, target, regions, p, chains),
    ensures
        forall|i: int|
            0 <= i < chains.len() ==> within_reach(
                (#[trigger] chains[i]).links,
                reach(p.max_offset),
            ),
{
    let scans = choose|scans: Seq<Seq<Seq<MemEvent>>>| #[trigger]
        search_ran(scans, pid, target, regions, p) && events == all_reads(scans) && chains
            == search_after(scans, target, modules_of(regions), p).chains;
    lemma_search_within_reach(scans, pid, target, regions, p);
}

/// What a read gave has, at offset `o`, a pointer that reaches the target directly.
pub open spec fn direct_pointer(e: MemEvent, o: int, target: u64, reach: int) -> bool {
    e->Read_outcome matches Ok((n, buffer)) && pointer_at(buffer.take(n as int), target, reach, o)
}

/// The link for a pointer at offset `o` of what a read gave.
pub open spec fn direct_link(e: MemEvent, o: int, target: u64) -> PointerLink {
    let (n, buffer) = e->Read_outcome->Ok_0;
    PointerLink {
        address: (e->Read_address + o) as u64,
        offset: offset_to(target, word_at(buffer.take(n as int), o)),
    }
}

/// The chain of one step from a module to the target.
pub open spec fn one_step(link: PointerLink, modules: Seq<ModuleView>) -> ChainView {
    let k = containing(modules, link.address, 0);
    ChainView {
        base_module: modules[k].path,
        base_offset: (link.address - modules[k].start) as u64,
        links: seq![link],
    }
}

/// Each pointer in a module that reaches the target directly is among the chains.
pub open spec fn direct_chains_found(
    events: Seq<MemEvent>,
    target: u64,
    reach: int,
    modules: Seq<ModuleView>,
    chains: Seq<ChainView>,
) -> bool {
    forall|j: int, o: int|
        0 <= j < events.len() && #[trigger] direct_pointer(events[j], o, target, reach)
            && containing(modules, direct_link(events[j], o, target).address, 0) < modules.len()
            ==> chains.contains(one_step(direct_link(events[j], o, target), modules))
}

proof fn lemma_direct_links(events: Seq<MemEvent>, target: u64, far: int, j: int, o: int)
    requires
        0 <= j < events.len(),
        direct_pointer(events[j], o, target, far),
    ensures
        reads_pointers(events, target, far).contains(direct_link(events[j], o, target)),
    decreases events.len(),
{
    let rest = reads_pointers(events.drop_last(), target, far);
    let all = reads_pointers(events, target, far);
    let link = direct_link(events[j], o, target);
    if j < events.len() - 1 {
        lemma_direct_links(events.drop_last(), target, far, j, o);
        let i = choose|i: int| 0 <= i < rest.len() && rest[i] == link;
        assert(all[i] == link);
    } else {
        let (n, buffer) = events[j]->Read_outcome->Ok_0;
        let data = buffer.take(n as int);
        let good = |o: int| pointer_at(data, target, far, o);
        let at = buffer::offsets(good, data.len());
        buffer::offsets_are_exact(good, data.len());
        assert(good(o));
        let i = choose|i: int| 0 <= i < at.len() && at[i] == o;
        let new = chunk_pointers(data, events[j]->Read_address, target, far);
        assert(new[i] == link);
        assert(all[rest.len() + i] == link);
    }
}

proof fn lemma_take_all_grows(
    s: Search,
    way: Seq<PointerLink>,
    links: Seq<PointerLink>,
    modules: Seq<ModuleView>,
    p: PointerScanParams,
)
    ensures
        s.chains.is_prefix_of(take_all(s, way, links, modules, p).chains),
        take_all(s, way, links, modules, p).chains.len() < p.max_results ==> forall|i: int|
            0 <= i < links.len() && containing(modules, (#[trigger] links[i]).address, 0)
                < modules.len() ==> take_all(s, way, links, modules, p).chains.contains(
                ChainView { links: seq![links[i]] + way, ..one_step(links[i], modules) },
            ),
    decreases links.len(),
{
    let after = take_all(s, way, links, modules, p);
    if links.len() == 0 {
        assert(s.chains.take(s.chains.len() as int) =~= s.chains);
    } else {
        let rest = links.drop_last();
        lemma_take_all_grows(s, way, rest, modules, p);
        let before = take_all(s, way, rest, modules, p);
        assert(before.chains.len() <= after.chains.len());
        assert(after.chains.take(before.chains.len() as int) =~= before.chains);
        assert(after.chains.take(s.chains.len() as int) =~= s.chains) by {
            assert(before.chains.take(s.chains.len() as int) =~= s.chains);
        }
        if after.chains.len() < p.max_results {
            assert forall|i: int|
                0 <= i < links.len() && containing(modules, (#[trigger] links[i]).address, 0)
                    < modules.len() implies after.chains.contains(
                ChainView { links: seq![links[i]] + way, ..one_step(links[i], modules) },
            ) by {
                let c = ChainView { links: seq![links[i]] + way, ..one_step(links[i], modules) };
                if i < rest.len() {
                    assert(rest[i] == links[i]);
                    let k = choose|k: int| 0 <= k < before.chains.len() && before.chains[k] == c;
                    assert(after.chains.take(before.chains.len() as int)[k] == c);
                    assert(after.chains[k] == c);
                } else {
                    assert(after.chains[before.chains.len() as int] == c);
                }
            }
        }
    }
}

proof fn lemma_skip_keeps_chains(s: Search, p: PointerScanParams)
    ensures
        skip_done(s, p).chains == s.chains,
    decreases s.queue.len(),
{
    if s.queue.len() > 0 && (s.queue[0].1.len() >= p.max_depth || s.chains.len()
        >= p.max_results) {
        lemma_skip_keeps_chains(Search { queue: s.queue.drop_first(), ..s }, p);
    }
}

/// A search keeps the chains of its first scan, and begins with its reads.
proof fn lemma_first_scan_stays(
    scans: Seq<Seq<Seq<MemEvent>>>,
    target: u64,
    modules: Seq<ModuleView>,
    p: PointerScanParams,
)
    requires
        scans.len() > 0,
    ensures
        search_after(scans.take(1), target, modules, p).chains.is_prefix_of(
            search_after(scans, target, modules, p).chains,
        ),
        engine::chained(scans[0]).is_prefix_of(all_reads(scans)),
    decreases scans.len(),
{
    let first = search_after(scans.take(1), target, modules, p).chains;
    let last = search_after(scans, target, modules, p).chains;
    let reads = engine::chained(scans[0]);
    if scans.len() == 1 {
        assert(scans.take(1) =~= scans);
        assert(last.take(last.len() as int) =~= last);
        assert(scans.drop_last().len() == 0);
        assert(all_reads(scans.drop_last()) =~= Seq::empty());
        assert(scans.last() == scans[0]);
        assert(all_reads(scans) =~= reads);
        assert(reads.take(reads.len() as int) =~= reads);
    } else {
        let rest = scans.drop_last();
        lemma_first_scan_stays(rest, target, modules, p);
        assert(rest.take(1) =~= scans.take(1));
        let before = search_after(rest, target, modules, p);
        let s = skip_done(before, p);
        lemma_skip_keeps_chains(before, p);
        lemma_take_all_grows(
            Search { queue: s.queue.drop_first(), ..s },
            s.queue[0].1,
            reads_pointers(engine::chained(scans.last()), s.queue[0].0, reach(p.max_offset)),
            modules,
            p,
        );
        assert(last.take(first.len() as int) =~= first) by {
            assert(last.take(before.chains.len() as int) =~= before.chains);
            assert(before.chains.take(first.len() as int) =~= first);
        }
        assert(all_reads(scans).take(reads.len() as int) =~= reads) by {
            assert(all_reads(rest).take(reads.len() as int) =~= reads);
        }
    }
}

proof fn lemma_direct_chains(
    reads: Seq<MemEvent>,
    target: u64,
    modules: Seq<ModuleView>,
    p: PointerScanParams,
    chains: Seq<ChainView>,
)
    requires
        chains.len() < p.max_results,
        absorbed(
            search_start(target),
            reads_pointers(reads, target, reach(p.max_offset)),
            modules,
            p,
        ).chains.is_prefix_of(chains),
    ensures
        direct_chains_found(reads, target, reach(p.max_offset), modules, chains),
{
    let far = reach(p.max_offset);
    let links = reads_pointers(reads, target, far);
    let none = Seq::<PointerLink>::empty();
    let start = search_start(target);
    let s = Search { queue: start.queue.drop_first(), ..start };
    let first = absorbed(start, links, modules, p).chains;
    assert(first == take_all(s, none, links, modules, p).chains);
    lemma_take_all_grows(s, none, links, modules, p);
    assert(first.len() <= chains.len());
    assert forall|j: int, o: int|
        0 <= j < reads.len() && #[trigger] direct_pointer(reads[j], o, target, far) && containing(
            modules,
            direct_link(reads[j], o, target).address,
            0,
        ) < modules.len() implies chains.contains(
        one_step(direct_link(reads[j], o, target), modules),
    ) by {
        let link = direct_link(reads[j], o, target);
        lemma_direct_links(reads, target, far, j, o);
        let i = choose|i: int| 0 <= i < links.len() && links[i] == link;
        assert(containing(modules, links[i].address, 0) < modules.len());
        let c = one_step(link, modules);
        assert(seq![link] + none =~= seq![link]);
        assert(first.contains(c));
        let k = choose|k: int| 0 <= k < first.len() && first[k] == c;
        assert(chains.take(first.len() as int)[k] == c);
        assert(chains[k] == c);
    }
}

/// A search first reads every region for pointers to the target itself, and each one that it
/// finds in a module is among the chains, unless there are as many chains as are returned at
/// most.
pub proof fn direct_pointers_are_found(
    events: Seq<MemEvent>,
    pid: u32,
    target: u64,
    regions: Seq<RegionView>,
    p: PointerScanParams,
    chains: Seq<ChainView>,
)
    requires
        search_gave(events, pid, target, regions, p, chains),
        p.max_depth > 0,
    ensures
        chains.len() >= p.max_results || exists|parts: Seq<Seq<MemEvent>>| #[trigger]
            reads_all(parts, pid, pointer_targets(regions)) && engine::chained(parts).is_prefix_of(
                events,
            ) && direct_chains_found(
                engine::chained(parts),
                target,
                reach(p.max_offset),
                modules_of(regions),
                chains,
            ),
{
    let modules = modules_of(regions);
    let scans = choose|scans: Seq<Seq<Seq<MemEvent>>>| #[trigger]
        search_ran(scans, pid, target, regions, p) && events == all_reads(scans) && chains
            == search_after(scans, target, modules, p).chains;
    if chains.len() < p.max_results {
        let start = search_start(target);
        assert(skip_done(start, p) == start);
        assert(scans.len() > 0);
        let parts = scans[0];
        assert(reads_all(parts, pid, pointer_targets(regions)));
        lemma_first_scan_stays(scans, target, modules, p);
        let first = search_after(scans.take(1), target, modules, p);
        assert(scans.take(1).drop_last().len() == 0);
        assert(scans.take(1).last() == parts);
        assert(search_after(scans.take(1).drop_last(), target, modules, p) == start);
        assert(start.queue[0].0 == target);
        assert(first == absorbed(
            start,
            reads_pointers(engine::chained(parts), target, reach(p.max_offset)),
            modules,
            p,
        ));
        lemma_direct_chains(engine::chained(parts), target, modules, p, chains);
    }
}

// ─── Chains of every length ─────────────────────────────────────────────────

/// One of the reads of a round gave `value` at the address, at an offset that is a multiple of
/// eight.
pub open spec fn word_read(round: Seq<MemEvent>, address: u64, value: nat) -> bool {
    exists|j: int, o: int| o % 8 == 0 && #[trigger] read_there(round, j, o, address, value)
}

/// Each round of reads gave `value` at the address.
pub open spec fn read_in_every_round(
    rounds: Seq<Seq<Seq<MemEvent>>>,
    address: u64,
    value: nat,
) -> bool {
    forall|k: int|
        0 <= k < rounds.len() ==> word_read(
            engine::chained(#[trigger] rounds[k]),
            address,
            value,
        )
}

/// The address lies in no module.
pub open spec fn outside(modules: Seq<ModuleView>, address: u64) -> bool {
    forall|i: int|
        0 <= i < modules.len() ==> !((#[trigger] modules[i]).start <= address < modules[i].end)
}

/// A way back from the target: pointers, each with where it stands and what it holds. Every
/// round of reads gave them. The first one points to within `limit` of the target and each
/// other one to within `limit` of where the one before it stands; all but the last stand
/// outside every module.
pub open spec fn way_back(
    steps: Seq<(u64, nat)>,
    rounds: Seq<Seq<Seq<MemEvent>>>,
    target: u64,
    limit: int,
    modules: Seq<ModuleView>,
) -> bool {
    forall|i: int|
        0 <= i < steps.len() ==> {
            let to = if i == 0 { target } else { steps[i - 1].0 };
            &&& read_in_every_round(rounds, (#[trigger] steps[i]).0, steps[i].1)
            &&& steps[i].1 != 0
            &&& -limit <= steps[i].1 - to <= limit
            &&& i < steps.len() - 1 ==> outside(modules, steps[i].0)
        }
}

/// One of the chains has its first pointer at the address and at most so many steps.
pub open spec fn chain_from(chains: Seq<ChainView>, address: u64, steps: nat) -> bool {
    exists|i: int|
        0 <= i < chains.len() && (#[trigger] chains[i]).links.len() > 0
            && chains[i].links[0].address == address && chains[i].links.len() <= steps
}

/// The addresses that a search has come to so far, each with its way, those that were searched
/// for first.
spec fn come_to(
    scans: Seq<Seq<Seq<MemEvent>>>,
    target: u64,
    modules: Seq<ModuleView>,
    p: PointerScanParams,
) -> Seq<(u64, Seq<PointerLink>)> {
    searched(scans, target, modules, p) + search_after(scans, target, modules, p).queue
}

/// The addresses that a search has searched pointers to, each with its way.
spec fn searched(
    scans: Seq<Seq<Seq<MemEvent>>>,
    target: u64,
    modules: Seq<ModuleView>,
    p: PointerScanParams,
) -> Seq<(u64, Seq<PointerLink>)>
    decreases scans.len(),
{
    if scans.len() == 0 {
        Seq::empty()
    } else {
        searched(scans.drop_last(), target, modules, p).push(
            skip_done(search_after(scans.drop_last(), target, modules, p), p).queue[0],
        )
    }
}

/// What holds of the addresses that a search has come to: shorter ways stand first, each way
/// can be made longer, and every visited address is among them.
spec fn in_breadth(came: Seq<(u64, Seq<PointerLink>)>, s: Search, p: PointerScanParams) -> bool {
    &&& forall|i: int, j: int|
        0 <= i <= j < came.len() ==> (#[trigger] came[i]).1.len() <= (#[trigger] came[j]).1.len()
    &&& forall|i: int| 0 <= i < came.len() ==> (#[trigger] came[i]).1.len() < p.max_depth
    &&& forall|a: u64| #[trigger]
        s.visited.contains(a) ==> exists|i: int|
            0 <= i < came.len() && (#[trigger] came[i]).0 == a
    &&& s.queue.len() > 0 && came.len() > 0 ==> came.last().1.len() <= s.queue[0].1.len() + 1
}

proof fn lemma_outside(modules: Seq<ModuleView>, address: u64, i: int)
    requires
        0 <= i <= modules.len(),
        outside(modules, address),
    ensures
        containing(modules, address, i) == modules.len(),
    decreases modules.len() - i,
{
    if i < modules.len() {
        assert(!(modules[i].start <= address < modules[i].end));
        lemma_outside(modules, address, i + 1);
    }
}

proof fn lemma_inside(modules: Seq<ModuleView>, address: u64, i: int, k: int)
    requires
        0 <= i <= k < modules.len(),
        modules[k].start <= address < modules[k].end,
    ensures
        containing(modules, address, i) < modules.len(),
    decreases k - i,
{
    if !(modules[i].start <= address < modules[i].end) {
        lemma_inside(modules, address, i + 1, k);
    }
}

/// Taking in pointers puts at the end of the queue the addresses that are new, all by ways one
/// step longer, and visits every address outside the modules from which a way may go on.
proof fn lemma_take_all_visits(
    s: Search,
    way: Seq<PointerLink>,
    links: Seq<PointerLink>,
    modules: Seq<ModuleView>,
    p: PointerScanParams,
)
    requires
        take_all(s, way, links, modules, p).chains.len() < p.max_results,
    ensures
        ({
            let t = take_all(s, way, links, modules, p);
            &&& s.queue.is_prefix_of(t.queue)
            &&& forall|i: int|
                s.queue.len() <= i < t.queue.len() ==> (#[trigger] t.queue[i]).1.len()
                    == way.len() + 1 && t.queue[i].1.len() < p.max_depth
            &&& forall|a: u64|
                s.visited.contains(a) ==> #[trigger] t.visited.contains(a)
            &&& forall|a: u64| #[trigger]
                t.visited.contains(a) ==> s.visited.contains(a) || exists|i: int|
                    s.queue.len() <= i < t.queue.len() && (#[trigger] t.queue[i]).0 == a
            &&& way.len() + 1 < p.max_depth ==> forall|i: int|
                0 <= i < links.len() && outside(modules, (#[trigger] links[i]).address)
                    ==> t.visited.contains(links[i].address)
        }),
    decreases links.len(),
{
    let t = take_all(s, way, links, modules, p);
    if links.len() == 0 {
        assert(s.queue.take(s.queue.len() as int) =~= s.queue);
    } else {
        let rest = links.drop_last();
        let u = take_all(s, way, rest, modules, p);
        let link = links.last();
        assert(u.chains.len() <= t.chains.len());
        lemma_take_all_visits(s, way, rest, modules, p);
        let longer = seq![link] + way;
        assert(longer.len() == way.len() + 1);
        assert(u.queue.is_prefix_of(t.queue)) by {
            assert(t.queue.take(u.queue.len() as int) =~= u.queue);
        }
        assert(t.queue.take(s.queue.len() as int) =~= s.queue) by {
            assert(u.queue.take(s.queue.len() as int) =~= s.queue);
        }
        assert forall|i: int| s.queue.len() <= i < t.queue.len() implies (
        #[trigger] t.queue[i]).1.len() == way.len() + 1 && t.queue[i].1.len() < p.max_depth by {
            if i < u.queue.len() {
                assert(t.queue[i] == u.queue[i]);
            }
        }
        assert forall|a: u64| #[trigger] t.visited.contains(a) implies s.visited.contains(a)
            || exists|i: int|
            s.queue.len() <= i < t.queue.len() && (#[trigger] t.queue[i]).0 == a by {
            if u.visited.contains(a) {
                if !s.visited.contains(a) {
                    let i = choose|i: int|
                        s.queue.len() <= i < u.queue.len() && (#[trigger] u.queue[i]).0 == a;
                    assert(t.queue[i] == u.queue[i]);
                }
            } else {
                assert(t.queue[t.queue.len() - 1].0 == a);
            }
        }
        if way.len() + 1 < p.max_depth {
            assert forall|i: int|
                0 <= i < links.len() && outside(
                    modules,
                    (#[trigger] links[i]).address,
                ) implies t.visited.contains(links[i].address) by {
                if i < rest.len() {
                    assert(rest[i] == links[i]);
                    assert(u.visited.contains(rest[i].address));
                } else {
                    lemma_outside(modules, link.address, 0);
                }
            }
        }
    }
}

/// A search that is not full loses nothing from its queue but to be searched for.
proof fn lemma_nothing_skipped(s: Search, p: PointerScanParams)
    requires
        s.chains.len() < p.max_results,
        s.queue.len() > 0 ==> s.queue[0].1.len() < p.max_depth,
    ensures
        skip_done(s, p) == s,
{
}

/// A search comes to addresses in order of their distance.
#[verifier::spinoff_prover]
#[verifier::rlimit(80)]
proof fn lemma_in_breadth(
    scans: Seq<Seq<Seq<MemEvent>>>,
    pid: u32,
    target: u64,
    regions: Seq<RegionView>,
    p: PointerScanParams,
)
    requires
        search_running(scans, pid, target, regions, p),
        search_after(scans, target, modules_of(regions), p).chains.len() < p.max_results,
        p.max_depth > 0,
    ensures
        in_breadth(
            come_to(scans, target, modules_of(regions), p),
            search_after(scans, target, modules_of(regions), p),
            p,
        ),
        searched(scans, target, modules_of(regions), p).len() == scans.len(),
        come_to(scans, target, modules_of(regions), p).len() > 0,
        come_to(scans, target, modules_of(regions), p)[0] == (target, Seq::<PointerLink>::empty()),
        scans.len() > 0 ==> {
            let rest = scans.drop_last();
            let before = search_after(rest, target, modules_of(regions), p);
            &&& before.queue.len() > 0
            &&& skip_done(before, p) == before
            &&& before.chains.len() < p.max_results
            &&& search_running(rest, pid, target, regions, p)
            &&& come_to(rest, target, modules_of(regions), p).is_prefix_of(
                come_to(scans, target, modules_of(regions), p),
            )
            &&& before.chains.is_prefix_of(
                search_after(scans, target, modules_of(regions), p).chains,
            )
        },
    decreases scans.len(),
{
    let modules = modules_of(regions);
    let t = search_after(scans, target, modules, p);
    let came = come_to(scans, target, modules, p);
    if scans.len() == 0 {
        assert(came =~= seq![(target, Seq::<PointerLink>::empty())]);
        assert forall|a: u64| #[trigger] t.visited.contains(a) implies exists|i: int|
            0 <= i < came.len() && (#[trigger] came[i]).0 == a by {
            assert(came[0].0 == a);
        }
    } else {
        let rest = scans.drop_last();
        let n = scans.len() - 1;
        let before = search_after(rest, target, modules, p);
        let s = skip_done(before, p);
        assert forall|k: int| 0 <= k < rest.len() implies {
            &&& reads_all(#[trigger] rest[k], pid, pointer_targets(regions))
            &&& skip_done(search_after(rest.take(k), target, modules, p), p).queue.len() > 0
        } by {
            assert(scans[k] == rest[k]);
            assert(scans.take(k) =~= rest.take(k));
        }
        assert(scans[n] == scans.last());
        assert(scans.take(n) =~= rest);
        assert(s.queue.len() > 0);
        let popped = Search { queue: s.queue.drop_first(), ..s };
        let links = reads_pointers(
            engine::chained(scans.last()),
            s.queue[0].0,
            reach(p.max_offset),
        );
        let way = s.queue[0].1;
        lemma_skip_keeps_chains(before, p);
        lemma_take_all_grows(popped, way, links, modules, p);
        assert(before.chains.len() <= t.chains.len());
        lemma_in_breadth(rest, pid, target, regions, p);
        let came0 = come_to(rest, target, modules, p);
        let done = searched(rest, target, modules, p);
        if before.queue.len() > 0 {
            assert(came0[done.len() as int] == before.queue[0]);
        }
        lemma_nothing_skipped(before, p);
        lemma_take_all_visits(popped, way, links, modules, p);
        assert(searched(scans, target, modules, p) == done.push(before.queue[0]));
        assert(popped.queue =~= t.queue.take(popped.queue.len() as int));
        let m = came0.len() as int;
        assert(came.take(m) =~= came0) by {
            assert forall|i: int| 0 <= i < m implies came[i] == came0[i] by {
                if i > done.len() {
                    let k = i - done.len() - 1;
                    assert(came[i] == t.queue[k]);
                    assert(t.queue.take(popped.queue.len() as int)[k] == popped.queue[k]);
                    assert(popped.queue[k] == before.queue[k + 1]);
                }
            }
        }
        assert forall|i: int| 0 <= i < m implies came[i] == came0[i] by {
            assert(came.take(m)[i] == came[i]);
        }
        assert forall|i: int| m <= i < came.len() implies (#[trigger] came[i]).1.len()
            == way.len() + 1 && came[i].1.len() < p.max_depth by {
            assert(came[i] == t.queue[i - done.len() - 1]);
        }
        assert(came0.last().1.len() <= way.len() + 1);
        assert forall|i: int, j: int| 0 <= i <= j < came.len() implies (
        #[trigger] came[i]).1.len() <= (#[trigger] came[j]).1.len() by {
            if j < m {
                assert(came0[i].1.len() <= came0[j].1.len());
            } else if i < m {
                assert(came0[i].1.len() <= came0[m - 1].1.len());
            }
        }
        assert forall|i: int| 0 <= i < came.len() implies (#[trigger] came[i]).1.len()
            < p.max_depth by {
            if i < m {
                assert(came0[i].1.len() < p.max_depth);
            }
        }
        assert forall|a: u64| #[trigger] t.visited.contains(a) implies exists|i: int|
            0 <= i < came.len() && (#[trigger] came[i]).0 == a by {
            if popped.visited.contains(a) {
                assert(before.visited.contains(a));
                let i = choose|i: int| 0 <= i < came0.len() && (#[trigger] came0[i]).0 == a;
                assert(came[i].0 == a);
            } else {
                let i = choose|i: int|
                    popped.queue.len() <= i < t.queue.len() && (#[trigger] t.queue[i]).0 == a;
                assert(came[done.len() + 1 + i] == t.queue[i]);
            }
        }
        if t.queue.len() > 0 {
            let front = came[(done.len() + 1) as int];
            assert(front == t.queue[0]);
            assert(came[done.len() as int] == before.queue[0]);
            assert(way.len() <= front.1.len());
            assert(came.last() == came[came.len() - 1]);
            if came.len() == m {
                assert(came.last() == came0.last());
            }
        }
        assert(t.chains.take(before.chains.len() as int) =~= before.chains);
    }
}

/// What was known stays known, and every address that was searched for was searched for in some
/// round.
proof fn lemma_round_of(
    scans: Seq<Seq<Seq<MemEvent>>>,
    pid: u32,
    target: u64,
    regions: Seq<RegionView>,
    p: PointerScanParams,
    r: int,
)
    requires
        search_running(scans, pid, target, regions, p),
        search_after(scans, target, modules_of(regions), p).chains.len() < p.max_results,
        p.max_depth > 0,
        0 <= r < scans.len(),
    ensures
        ({
            let modules = modules_of(regions);
            let before = search_after(scans.take(r), target, modules, p);
            let after = search_after(scans.take(r + 1), target, modules, p);
            &&& searched(scans, target, modules, p)[r] == before.queue[0]
            &&& before.queue.len() > 0
            &&& skip_done(before, p) == before
            &&& after.chains.len() < p.max_results
            &&& search_running(scans.take(r + 1), pid, target, regions, p)
            &&& come_to(scans.take(r + 1), target, modules, p).is_prefix_of(
                come_to(scans, target, modules, p),
            )
            &&& after.chains.is_prefix_of(search_after(scans, target, modules, p).chains)
        }),
    decreases scans.len(),
{
    let modules = modules_of(regions);
    lemma_in_breadth(scans, pid, target, regions, p);
    let rest = scans.drop_last();
    let chains = search_after(scans, target, modules, p).chains;
    let came = come_to(scans, target, modules, p);
    if r == scans.len() - 1 {
        assert(scans.take(r + 1) =~= scans);
        assert(scans.take(r) =~= rest);
        assert(chains.take(chains.len() as int) =~= chains);
        assert(came.take(came.len() as int) =~= came);
    } else {
        lemma_in_breadth(rest, pid, target, regions, p);
        lemma_round_of(rest, pid, target, regions, p, r);
        assert(rest.take(r) =~= scans.take(r));
        assert(rest.take(r + 1) =~= scans.take(r + 1));
        let c0 = come_to(rest, target, modules, p);
        let c1 = come_to(rest.take(r + 1), target, modules, p);
        let h0 = search_after(rest, target, modules, p).chains;
        let h1 = search_after(rest.take(r + 1), target, modules, p).chains;
        assert(came.take(c1.len() as int) =~= c1) by {
            assert(came.take(c0.len() as int).take(c1.len() as int) =~= came.take(c1.len() as int));
        }
        assert(chains.take(h1.len() as int) =~= h1) by {
            assert(chains.take(h0.len() as int).take(h1.len() as int) =~= chains.take(
                h1.len() as int,
            ));
        }
    }
}

proof fn lemma_word_is_a_link(
    round: Seq<MemEvent>,
    address: u64,
    value: nat,
    to: u64,
    max_offset: i64,
)
    requires
        word_read(round, address, value),
        value != 0,
        -reach(max_offset) <= value - to <= reach(max_offset),
    ensures
        exists|i: int|
            0 <= i < reads_pointers(round, to, reach(max_offset)).len() && (
            #[trigger] reads_pointers(round, to, reach(max_offset))[i]).address == address,
{
    let far = reach(max_offset);
    let (j, o) = choose|j: int, o: int|
        o % 8 == 0 && #[trigger] read_there(round, j, o, address, value);
    assert(direct_pointer(round[j], o, to, far));
    lemma_direct_links(round, to, far, j, o);
    let link = direct_link(round[j], o, to);
    let links = reads_pointers(round, to, far);
    let i = choose|i: int| 0 <= i < links.len() && links[i] == link;
    assert(links[i].address == address);
}

/// A finished search knows every address on a way back, by a way that is no longer.
proof fn lemma_way_is_followed(
    scans: Seq<Seq<Seq<MemEvent>>>,
    pid: u32,
    target: u64,
    regions: Seq<RegionView>,
    p: PointerScanParams,
    steps: Seq<(u64, nat)>,
    i: int,
)
    requires
        search_ran(scans, pid, target, regions, p),
        search_after(scans, target, modules_of(regions), p).chains.len() < p.max_results,
        way_back(steps, scans, target, reach(p.max_offset), modules_of(regions)),
        0 <= i < steps.len(),
        steps.len() <= p.max_depth,
    ensures
        exists|r: int|
            {
                &&& 0 <= r < scans.len()
                &&& (#[trigger] searched(scans, target, modules_of(regions), p)[r]).0 == if i
                    == 0 {
                    target
                } else {
                    steps[i - 1].0
                }
                &&& searched(scans, target, modules_of(regions), p)[r].1.len() <= i
            },
    decreases i,
{
    let modules = modules_of(regions);
    let s = search_after(scans, target, modules, p);
    let came = come_to(scans, target, modules, p);
    let done = searched(scans, target, modules, p);
    lemma_in_breadth(scans, pid, target, regions, p);
    if s.queue.len() > 0 {
        assert(came[done.len() as int] == s.queue[0]);
        lemma_nothing_skipped(s, p);
    }
    assert(came =~= done);
    if i == 0 {
        assert(done[0] == came[0]);
    } else {
        lemma_way_is_followed(scans, pid, target, regions, p, steps, i - 1);
        let to = if i - 1 == 0 { target } else { steps[i - 2].0 };
        let address = steps[i - 1].0;
        let r = choose|r: int|
            {
                &&& 0 <= r < scans.len()
                &&& (#[trigger] done[r]).0 == to
                &&& done[r].1.len() <= i - 1
            };
        assert(read_in_every_round(scans, address, steps[i - 1].1));
        assert(word_read(engine::chained(scans[r]), address, steps[i - 1].1));
        lemma_step_is_known(scans, pid, target, regions, p, r, address, steps[i - 1].1);
        let k = choose|k: int|
            {
                &&& 0 <= k < came.len()
                &&& (#[trigger] came[k]).0 == address
                &&& came[k].1.len() <= done[r].1.len() + 1
            };
        assert(done[k].0 == address);
    }
}

/// The search comes to every address outside the modules where a pointer to an address that it
/// searched for was read, by a way that is at most one step longer.
proof fn lemma_step_is_known(
    scans: Seq<Seq<Seq<MemEvent>>>,
    pid: u32,
    target: u64,
    regions: Seq<RegionView>,
    p: PointerScanParams,
    r: int,
    address: u64,
    value: nat,
)
    requires
        search_running(scans, pid, target, regions, p),
        search_after(scans, target, modules_of(regions), p).chains.len() < p.max_results,
        p.max_depth > 0,
        0 <= r < scans.len(),
        word_read(engine::chained(scans[r]), address, value),
        value != 0,
        -reach(p.max_offset) <= value - searched(scans, target, modules_of(regions), p)[r].0
            <= reach(p.max_offset),
        outside(modules_of(regions), address),
        searched(scans, target, modules_of(regions), p)[r].1.len() + 1 < p.max_depth,
    ensures
        exists|k: int|
            {
                &&& 0 <= k < come_to(scans, target, modules_of(regions), p).len()
                &&& (#[trigger] come_to(scans, target, modules_of(regions), p)[k]).0 == address
                &&& come_to(scans, target, modules_of(regions), p)[k].1.len() <= searched(
                    scans,
                    target,
                    modules_of(regions),
                    p,
                )[r].1.len() + 1
            },
{
    let modules = modules_of(regions);
    let came = come_to(scans, target, modules, p);
    lemma_round_of(scans, pid, target, regions, p, r);
    let upto = scans.take(r + 1);
    assert(upto =~= scans.take(r).push(scans[r]));
    lemma_round_visits(scans.take(r), scans[r], pid, target, regions, p, address, value);
    let c1 = come_to(upto, target, modules, p);
    let k = choose|k: int| 0 <= k < c1.len() && (#[trigger] c1[k]).0 == address;
    lemma_ways_one_longer(scans.take(r), scans[r], pid, target, regions, p, k);
    assert(came.take(c1.len() as int)[k] == c1[k]);
    assert(came[k] == c1[k]);
}

/// A round brings the search to every address outside the modules where a pointer to the
/// address searched for was read.
proof fn lemma_round_visits(
    scans: Seq<Seq<Seq<MemEvent>>>,
    parts: Seq<Seq<MemEvent>>,
    pid: u32,
    target: u64,
    regions: Seq<RegionView>,
    p: PointerScanParams,
    address: u64,
    value: nat,
)
    requires
        search_running(scans.push(parts), pid, target, regions, p),
        search_after(scans.push(parts), target, modules_of(regions), p).chains.len()
            < p.max_results,
        p.max_depth > 0,
        word_read(engine::chained(parts), address, value),
        value != 0,
        -reach(p.max_offset) <= value - search_after(
            scans,
            target,
            modules_of(regions),
            p,
        ).queue[0].0 <= reach(p.max_offset),
        outside(modules_of(regions), address),
        search_after(scans, target, modules_of(regions), p).queue[0].1.len() + 1 < p.max_depth,
    ensures
        exists|k: int|
            0 <= k < come_to(scans.push(parts), target, modules_of(regions), p).len() && (
            #[trigger] come_to(scans.push(parts), target, modules_of(regions), p)[k]).0 == address,
{
    let modules = modules_of(regions);
    let more = scans.push(parts);
    assert(more.drop_last() =~= scans);
    assert(more.last() == parts);
    lemma_in_breadth(more, pid, target, regions, p);
    let before = search_after(scans, target, modules, p);
    let (to, way) = before.queue[0];
    let links = reads_pointers(engine::chained(parts), to, reach(p.max_offset));
    let popped = Search { queue: before.queue.drop_first(), ..before };
    let after = search_after(more, target, modules, p);
    assert(after == take_all(popped, way, links, modules, p));
    assert(after.visited.contains(address)) by {
        lemma_word_is_a_link(engine::chained(parts), address, value, to, p.max_offset);
        let l = choose|l: int| 0 <= l < links.len() && (#[trigger] links[l]).address == address;
        lemma_take_all_visits(popped, way, links, modules, p);
        assert(after.visited.contains(links[l].address));
    }
}

/// After a round no way is more than one step longer than that of the address searched for.
proof fn lemma_ways_one_longer(
    scans: Seq<Seq<Seq<MemEvent>>>,
    parts: Seq<Seq<MemEvent>>,
    pid: u32,
    target: u64,
    regions: Seq<RegionView>,
    p: PointerScanParams,
    k: int,
)
    requires
        search_running(scans.push(parts), pid, target, regions, p),
        search_after(scans.push(parts), target, modules_of(regions), p).chains.len()
            < p.max_results,
        p.max_depth > 0,
        0 <= k < come_to(scans.push(parts), target, modules_of(regions), p).len(),
    ensures
        come_to(scans.push(parts), target, modules_of(regions), p)[k].1.len()
            <= search_after(scans, target, modules_of(regions), p).queue[0].1.len() + 1,
{
    let modules = modules_of(regions);
    let more = scans.push(parts);
    assert(more.drop_last() =~= scans);
    assert(more.last() == parts);
    lemma_in_breadth(more, pid, target, regions, p);
    lemma_in_breadth(scans, pid, target, regions, p);
    let before = search_after(scans, target, modules, p);
    let popped = Search { queue: before.queue.drop_first(), ..before };
    let links = reads_pointers(engine::chained(parts), before.queue[0].0, reach(p.max_offset));
    let way = before.queue[0].1;
    let t = search_after(more, target, modules, p);
    assert(t == take_all(popped, way, links, modules, p));
    lemma_take_all_visits(popped, way, links, modules, p);
    let c0 = come_to(scans, target, modules, p);
    let c1 = come_to(more, target, modules, p);
    let done = searched(scans, target, modules, p);
    assert(searched(more, target, modules, p) == done.push(before.queue[0]));
    if k < c0.len() {
        assert(c1.take(c0.len() as int)[k] == c0[k]);
        assert(c0[k].1.len() <= c0[c0.len() - 1].1.len());
        assert(c0.last() == c0[c0.len() - 1]);
    } else {
        assert(c1[k] == t.queue[k - done.len() - 1]);
    }
}

/// A search misses no way: it reads every region in rounds, and where all of these give the
/// pointers of a way of at most `max_depth` steps from a module to the target, one of the chains
/// starts where that way does and is no longer, unless there are as many chains as are returned
/// at most.
pub proof fn ways_of_every_length_are_found(
    events: Seq<MemEvent>,
    pid: u32,
    target: u64,
    regions: Seq<RegionView>,
    p: PointerScanParams,
    chains: Seq<ChainView>,
    limit: int,
)
    requires
        search_gave(events, pid, target, regions, p, chains),
        limit == if p.max_offset < 0 {
            -p.max_offset
        } else {
            p.max_offset as int
        },
    ensures
        chains.len() >= p.max_results || exists|rounds: Seq<Seq<Seq<MemEvent>>>|
            {
                &&& events == #[trigger] all_reads(rounds)
                &&& forall|k: int|
                    0 <= k < rounds.len() ==> reads_all(
                        #[trigger] rounds[k],
                        pid,
                        pointer_targets(regions),
                    )
                &&& forall|steps: Seq<(u64, nat)>|
                    {
                        &&& 0 < steps.len() <= p.max_depth
                        &&& #[trigger] way_back(
                            steps,
                            rounds,
                            target,
                            limit,
                            modules_of(regions),
                        )
                        &&& !outside(modules_of(regions), steps.last().0)
                    } ==> chain_from(chains, steps.last().0, steps.len())
            },
{
    let modules = modules_of(regions);
    let scans = choose|scans: Seq<Seq<Seq<MemEvent>>>| #[trigger]
        search_ran(scans, pid, target, regions, p) && events == all_reads(scans) && chains
            == search_after(scans, target, modules, p).chains;
    if chains.len() < p.max_results {
        assert(search_running(scans, pid, target, regions, p));
        assert forall|steps: Seq<(u64, nat)>|
            {
                &&& 0 < steps.len() <= p.max_depth
                &&& #[trigger] way_back(
                    steps,
                    scans,
                    target,
                    limit,
                    modules,
                )
                &&& !outside(modules, steps.last().0)
            } implies chain_from(chains, steps.last().0, steps.len()) by {
            lemma_way_gives_a_chain(scans, pid, target, regions, p, steps);
        }
        assert(events == all_reads(scans));
        assert forall|k: int| 0 <= k < scans.len() implies reads_all(
            #[trigger] scans[k],
            pid,
            pointer_targets(regions),
        ) by {}
    }
}

proof fn lemma_way_gives_a_chain(
    scans: Seq<Seq<Seq<MemEvent>>>,
    pid: u32,
    target: u64,
    regions: Seq<RegionView>,
    p: PointerScanParams,
    steps: Seq<(u64, nat)>,
)
    requires
        search_ran(scans, pid, target, regions, p),
        search_after(scans, target, modules_of(regions), p).chains.len() < p.max_results,
        way_back(steps, scans, target, reach(p.max_offset), modules_of(regions)),
        0 < steps.len() <= p.max_depth,
        !outside(modules_of(regions), steps.last().0),
    ensures
        chain_from(
            search_after(scans, target, modules_of(regions), p).chains,
            steps.last().0,
            steps.len(),
        ),
{
    let modules = modules_of(regions);
    let n = steps.len() - 1;
    let chains = search_after(scans, target, modules, p).chains;
    let done = searched(scans, target, modules, p);
    let to = if n == 0 { target } else { steps[n - 1].0 };
    lemma_way_is_followed(scans, pid, target, regions, p, steps, n);
    let r = choose|r: int|
        {
            &&& 0 <= r < scans.len()
            &&& (#[trigger] done[r]).0 == to
            &&& done[r].1.len() <= n
        };
    lemma_round_of(scans, pid, target, regions, p, r);
    let before = search_after(scans.take(r), target, modules, p);
    let upto = scans.take(r + 1);
    assert(upto.drop_last() =~= scans.take(r));
    assert(upto.last() == scans[r]);
    let after = search_after(upto, target, modules, p);
    let round = engine::chained(scans[r]);
    let links = reads_pointers(round, to, reach(p.max_offset));
    let popped = Search { queue: before.queue.drop_first(), ..before };
    let way = before.queue[0].1;
    assert(after == take_all(popped, way, links, modules, p));
    let address = steps[n].0;
    assert(read_in_every_round(scans, address, steps[n].1));
    lemma_word_is_a_link(round, address, steps[n].1, to, p.max_offset);
    let l = choose|l: int| 0 <= l < links.len() && (#[trigger] links[l]).address == address;
    lemma_take_all_grows(popped, way, links, modules, p);
    let m = choose|m: int|
        0 <= m < modules.len() && (#[trigger] modules[m]).start <= address < modules[m].end;
    lemma_inside(modules, address, 0, m);
    let c = ChainView { links: seq![links[l]] + way, ..one_step(links[l], modules) };
    assert(after.chains.contains(c));
    let k = choose|k: int| 0 <= k < after.chains.len() && after.chains[k] == c;
    assert(chains.take(after.chains.len() as int)[k] == c);
    assert(chains[k] == c);
    assert(c.links[0].address == address);
}

// ─── Modules and words ──────────────────────────────────────────────────────

/// A region that a module has: a file backs it that is no device, and it may be touched.
pub open spec fn of_a_module(r: RegionView) -> bool {
    &&& r.pathname.len() > 0
    &&& r.pathname[0] != '['
    &&& !(r.pathname.len() >= 5 && r.pathname.take(5) == "/dev/"@)
    &&& r.safety != RegionSafety::NeverTouch
}

proof fn lemma_of_a_module(r: RegionView)
    ensures
        in_module(r) <==> of_a_module(r),
{
    reveal_strlit("/dev/");
    if "/dev/"@.is_prefix_of(r.pathname) {
        assert(r.pathname.take(5) =~= "/dev/"@);
    } else if r.pathname.len() >= 5 && r.pathname.take(5) == "/dev/"@ {
        assert("/dev/"@ =~= r.pathname.subrange(0, 5));
    }
}

proof fn lemma_last_end(regions: Seq<RegionView>, path: Seq<char>)
    ensures
        forall|j: int|
            0 <= j < regions.len() && (#[trigger] regions[j]).pathname == path
                ==> regions[j].end <= last_end(regions, path),
        last_end(regions, path) > 0 ==> exists|j: int|
            0 <= j < regions.len() && (#[trigger] regions[j]).pathname == path && regions[j].end
                == last_end(regions, path),
    decreases regions.len(),
{
    if regions.len() > 0 {
        let rest = regions.drop_last();
        let n = regions.len() - 1;
        lemma_last_end(rest, path);
        assert forall|j: int|
            0 <= j < regions.len() && (#[trigger] regions[j]).pathname
                == path implies regions[j].end <= last_end(regions, path) by {
            if j < n {
                assert(rest[j] == regions[j]);
            }
        }
        if last_end(regions, path) > 0 {
            if regions.last().pathname == path && regions.last().end > last_end(rest, path) {
                assert(regions[n].end == last_end(regions, path));
            } else {
                let j = choose|j: int|
                    0 <= j < rest.len() && (#[trigger] rest[j]).pathname == path && rest[j].end
                        == last_end(rest, path);
                assert(regions[j] == rest[j]);
            }
        }
    }
}

/// The modules are one for each path: a module begins where the first region of its path does
/// and reaches as far as any region of it, and every region that a module has lies before its
/// end.
pub proof fn modules_are_one_for_each_path(regions: Seq<RegionView>)
    ensures
        forall|k: int, l: int|
            0 <= k < l < modules_of(regions).len() ==> (#[trigger] modules_of(regions)[k]).path
                != (#[trigger] modules_of(regions)[l]).path,
        forall|k: int|
            0 <= k < modules_of(regions).len() ==> begins_with_a_region(
                #[trigger] modules_of(regions)[k],
                regions,
                regions.len() as int,
            ),
        forall|j: int|
            0 <= j < regions.len() && #[trigger] of_a_module(regions[j]) ==> exists|k: int|
                0 <= k < modules_of(regions).len() && (#[trigger] modules_of(regions)[k]).path
                    == regions[j].pathname && regions[j].end <= modules_of(regions)[k].end,
{
    lemma_modules_among(regions, regions, regions.len() as int);
    assert(regions.take(regions.len() as int) =~= regions);
    let modules = modules_of(regions);
    assert forall|j: int| 0 <= j < regions.len() && #[trigger] of_a_module(regions[j]) implies exists|
        k: int,
    |
        0 <= k < modules.len() && (#[trigger] modules[k]).path == regions[j].pathname
            && regions[j].end <= modules[k].end by {
        assert(listed(modules, regions[j].pathname));
        let k = choose|k: int|
            0 <= k < modules.len() && (#[trigger] modules[k]).path == regions[j].pathname;
        lemma_last_end(regions, regions[j].pathname);
        assert(begins_with_a_region(modules[k], regions, regions.len() as int));
    }
}

/// The module begins where the first of the regions that has its path does, and ends where the
/// last region of that path does.
pub open spec fn begins_with_a_region(m: ModuleView, regions: Seq<RegionView>, n: int) -> bool {
    &&& m.end == last_end(regions, m.path)
    &&& exists|j: int|
        {
            &&& 0 <= j < n
            &&& #[trigger] of_a_module(regions[j])
            &&& regions[j].pathname == m.path
            &&& regions[j].start == m.start
            &&& forall|i: int|
                0 <= i < j && #[trigger] of_a_module(regions[i]) ==> regions[i].pathname != m.path
        }
}

proof fn lemma_modules_among(regions: Seq<RegionView>, all: Seq<RegionView>, n: int)
    requires
        0 <= n <= regions.len(),
        all == regions,
    ensures
        ({
            let modules = modules_among(regions.take(n), all);
            &&& forall|k: int, l: int|
                0 <= k < l < modules.len() ==> (#[trigger] modules[k]).path != (
                #[trigger] modules[l]).path
            &&& forall|k: int|
                0 <= k < modules.len() ==> begins_with_a_region(#[trigger] modules[k], all, n)
            &&& forall|j: int|
                0 <= j < n && #[trigger] of_a_module(regions[j]) ==> listed(
                    modules,
                    regions[j].pathname,
                )
        }),
    decreases n,
{
    if n > 0 {
        let m = n - 1;
        lemma_modules_among(regions, all, m);
        assert(regions.take(n).drop_last() =~= regions.take(m));
        let r = regions[m];
        assert(regions.take(n).last() == r);
        lemma_of_a_module(r);
        let before = modules_among(regions.take(m), all);
        let after = modules_among(regions.take(n), all);
        assert forall|k: int| 0 <= k < after.len() implies begins_with_a_region(
            #[trigger] after[k],
            all,
            n,
        ) by {
            if k < before.len() {
                assert(after[k] == before[k]);
                assert(begins_with_a_region(before[k], all, m));
                let j = choose|j: int|
                    {
                        &&& 0 <= j < m
                        &&& #[trigger] of_a_module(all[j])
                        &&& all[j].pathname == before[k].path
                        &&& all[j].start == before[k].start
                        &&& forall|i: int|
                            0 <= i < j && #[trigger] of_a_module(all[i]) ==> all[i].pathname
                                != before[k].path
                    };
                assert(of_a_module(all[j]));
            } else {
                assert(of_a_module(all[m]));
                assert forall|i: int| 0 <= i < m && #[trigger] of_a_module(
                    all[i],
                ) implies all[i].pathname != after[k].path by {
                    assert(listed(before, regions[i].pathname));
                }
            }
        }
        assert forall|j: int| 0 <= j < n && #[trigger] of_a_module(regions[j]) implies listed(
            after,
            regions[j].pathname,
        ) by {
            if j < m || listed(before, r.pathname) {
                assert(listed(before, regions[j].pathname));
                let k = choose|k: int|
                    0 <= k < before.len() && (#[trigger] before[k]).path == regions[j].pathname;
                assert(after[k].path == regions[j].pathname);
            } else {
                assert(after[before.len() as int].path == r.pathname);
            }
        }
    }
}

proof fn lemma_gained(events: Seq<MemEvent>, pid: u32, region: RegionView, m: int)
    requires
        reads_for_pointers(events, pid, region),
        0 <= m <= events.len(),
        forall|j: int| 0 <= j < events.len() ==> engine::full(#[trigger] events[j]),
    ensures
        gained(events.take(m)) == m * DEFAULT_CHUNK_SIZE || gained(events.take(m))
            == region.span(),
        gained(events.take(m)) <= m * DEFAULT_CHUNK_SIZE,
        m < events.len() ==> gained(events.take(m)) == m * DEFAULT_CHUNK_SIZE,
    decreases m,
{
    if m > 0 {
        let j = m - 1;
        lemma_gained(events, pid, region, j);
        assert(events.take(m).drop_last() =~= events.take(j));
        assert(events.take(m).last() == events[j]);
        assert(reads_on(events[j], pid, region, gained(events.take(j))));
        assert(engine::full(events[j]));
        assert(m * DEFAULT_CHUNK_SIZE == j * DEFAULT_CHUNK_SIZE + DEFAULT_CHUNK_SIZE);
        if m < events.len() {
            assert(reads_on(events[m], pid, region, gained(events.take(m))));
        }
    } else {
        assert(events.take(0) =~= Seq::empty());
    }
}

/// A round of a search leaves out no word of a region that can be read and is safe or read only:
/// where every read gives all that it is for, some read has the whole word, at an offset that is
/// a multiple of eight.
pub proof fn rounds_read_every_word(
    parts: Seq<Seq<MemEvent>>,
    pid: u32,
    regions: Seq<RegionView>,
    i: int,
    o: int,
    address: u64,
)
    requires
        reads_all(parts, pid, pointer_targets(regions)),
        forall|t: int, j: int|
            0 <= t < parts.len() && 0 <= j < parts[t].len() ==> engine::full(
                #[trigger] parts[t][j],
            ),
        0 <= i < regions.len(),
        regions[i].permissions.read,
        regions[i].safety == RegionSafety::Safe || regions[i].safety == RegionSafety::ReadOnly,
        0 <= o && o % 8 == 0,
        regions[i].start + o + 8 <= regions[i].end,
        address == regions[i].start + o,
    ensures
        exists|value: nat| #[trigger] word_read(engine::chained(parts), address, value),
{
    let targets = pointer_targets(regions);
    let c = DEFAULT_CHUNK_SIZE as int;
    engine::lemma_filter_has(regions, |r: RegionView| pointer_target(r), i);
    let t = choose|t: int| 0 <= t < targets.len() && targets[t] == regions[i];
    let region = targets[t];
    let part = parts[t];
    assert(reads_for_pointers(part, pid, region));
    assert forall|j: int| 0 <= j < part.len() implies engine::full(#[trigger] part[j]) by {
        assert(parts[t][j] == part[j]);
    }
    let n = part.len() as int;
    lemma_gained(part, pid, region, n);
    assert(part.take(n) =~= part);
    let last = part[n - 1];
    assert(part.last() == last);
    assert(engine::full(last));
    lemma_gained(part, pid, region, n - 1);
    assert(reads_on(last, pid, region, gained(part.take(n - 1))));
    let j = o / c;
    assert(o % c + 8 <= c && (o % c) % 8 == 0) by {
        assert(c == 4194304);
    }
    assert(o == j * c + o % c);
    assert(j < n) by {
        if j >= n {
            assert(n * c <= j * c) by (nonlinear_arith)
                requires
                    n <= j,
                    c > 0,
            ;
            assert(gained(part) <= n * c);
            lemma_rounds_end(part, pid, region);
        }
    }
    lemma_gained(part, pid, region, j);
    let e = part[j];
    assert(reads_on(e, pid, region, gained(part.take(j))));
    assert(engine::full(e));
    let (count, buffer) = e->Read_outcome->Ok_0;
    let at = o % c;
    let value = word_at(buffer.take(count as int), at);
    let k = engine::lemma_chained_has(parts, t, j);
    assert(engine::chained(parts)[k] == e);
    assert(count <= buffer.len());
    assert(at + 8 <= count);
    assert(read_there(engine::chained(parts), k, at, address, value));
    assert(word_read(engine::chained(parts), address, value));
}

/// Where every read gives all that it is for, a region is read to less than a word before its
/// end.
proof fn lemma_rounds_end(events: Seq<MemEvent>, pid: u32, region: RegionView)
    requires
        reads_for_pointers(events, pid, region),
        region.span() >= 8,
        forall|j: int| 0 <= j < events.len() ==> engine::full(#[trigger] events[j]),
    ensures
        gained(events) + 8 > region.span() || gained(events) >= region.span(),
{
    let n = events.len() as int;
    lemma_gained(events, pid, region, n - 1);
    assert(events.take(n - 1) =~= events.drop_last());
    assert(events[n - 1] == events.last());
    assert(reads_on(events[n - 1], pid, region, gained(events.take(n - 1))));
    assert(engine::full(events[n - 1]));
}

/// Shorter chains come before longer ones.
pub proof fn shorter_chains_come_first(chains: Seq<ChainView>, i: int, j: int)
    requires
        by_length(chains),
        0 <= i < j < chains.len(),
    ensures
        chains[i].links.len() <= chains[j].links.len(),
{
}

} // verus!
