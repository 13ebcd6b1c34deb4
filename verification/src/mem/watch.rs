//! Hardware watchpoints: which instruction touches an address.
//!
//! A watchpoint lives in the debug registers of one thread of the target. That thread is
//! seized without being stopped, interrupted for as long as the registers are set, and then
//! polled for traps. [`WatchLoop`] decides, step by step, what the tracer does next; the
//! tracing itself is done by its caller. [`WatchManager`] keeps what was hit.

use crate::mem::access;
use crate::mem::access::MemoryAccess;
use crate::mem::disassemble;
use crate::mem::disassemble::{decode_at, first_line};
use crate::shared;
use crate::shared::new_id;
use crate::text;
use crate::text::{address_text, parse_number, push_decimal, to_chars};
use dashmap::DashMap;
use vstd::prelude::*;

verus! {

/// Which accesses are watched.
#[derive(Clone, Copy, Debug, PartialEq, Eq, Structural)]
pub enum WatchMode {
    /// Writes.
    Write,
    /// Reads and writes.
    ReadWrite,
}

impl WatchMode {
    /// The mode's name.
    pub open spec fn says(self) -> Seq<char> {
        match self {
            WatchMode::Write => "write"@,
            WatchMode::ReadWrite => "access"@,
        }
    }

    /// The mode's name.
    pub fn name(self) -> (r: String)
        ensures
            r@ == self.says(),
    {
        match self {
            WatchMode::Write => "write".to_string(),
            WatchMode::ReadWrite => "access".to_string(),
        }
    }
}

/// How many bytes are watched.
#[derive(Clone, Copy, Debug, PartialEq, Eq, Structural)]
pub enum WatchSize {
    /// One.
    Byte1,
    /// Two.
    Byte2,
    /// Four.
    Byte4,
    /// Eight.
    Byte8,
}

impl WatchSize {
    /// The number of bytes.
    pub open spec fn bytes(self) -> u8 {
        match self {
            WatchSize::Byte1 => 1,
            WatchSize::Byte2 => 2,
            WatchSize::Byte4 => 4,
            WatchSize::Byte8 => 8,
        }
    }

    /// The number of bytes.
    pub fn as_bytes(self) -> (r: u8)
        ensures
            r == self.bytes(),
    {
        match self {
            WatchSize::Byte1 => 1,
            WatchSize::Byte2 => 2,
            WatchSize::Byte4 => 4,
            WatchSize::Byte8 => 8,
        }
    }
}

/// What is watched.
#[derive(Clone, Copy, Debug, PartialEq, Eq, Structural)]
pub struct WatchConfig {
    /// Target process.
    pub pid: u32,
    /// First address.
    pub address: u64,
    /// Which accesses.
    pub mode: WatchMode,
    /// How many bytes.
    pub size: WatchSize,
    /// Keep the registers of each hit.
    pub capture_registers: bool,
}

/// The general-purpose registers at a hit.
#[derive(Clone, Copy, Debug, PartialEq, Eq, Structural)]
pub struct RegisterSnapshot {
    /// Register `rax`.
    pub rax: u64,
    /// Register `rbx`.
    pub rbx: u64,
    /// Register `rcx`.
    pub rcx: u64,
    /// Register `rdx`.
    pub rdx: u64,
    /// Register `rsi`.
    pub rsi: u64,
    /// Register `rdi`.
    pub rdi: u64,
    /// Register `rbp`.
    pub rbp: u64,
    /// Register `rsp`.
    pub rsp: u64,
    /// Register `r8`.
    pub r8: u64,
    /// Register `r9`.
    pub r9: u64,
    /// Register `r10`.
    pub r10: u64,
    /// Register `r11`.
    pub r11: u64,
    /// Register `r12`.
    pub r12: u64,
    /// Register `r13`.
    pub r13: u64,
    /// Register `r14`.
    pub r14: u64,
    /// Register `r15`.
    pub r15: u64,
}

// ─── Hits ───────────────────────────────────────────────────────────────────

/// An instruction that was caught, and how often.
#[derive(Clone, Debug)]
pub struct WatchHit {
    /// Where the instruction is.
    pub rip: u64,
    /// The instruction, where it could be decoded.
    pub disasm: Option<String>,
    /// How often it was caught.
    pub hit_count: u64,
    /// The registers when it was last caught, where they are kept.
    pub registers: Option<RegisterSnapshot>,
}

/// A [`WatchHit`] as a mathematical value.
pub struct HitView {
    /// Where the instruction is.
    pub rip: u64,
    /// The instruction, where it could be decoded.
    pub disasm: Option<Seq<char>>,
    /// How often it was caught.
    pub hit_count: u64,
    /// The registers when it was last caught, where they are kept.
    pub registers: Option<RegisterSnapshot>,
}

impl View for WatchHit {
    type V = HitView;

    open spec fn view(&self) -> HitView {
        HitView {
            rip: self.rip,
            disasm: text::optional(self.disasm),
            hit_count: self.hit_count,
            registers: self.registers,
        }
    }
}

/// The mathematical values of a list of hits.
pub open spec fn hit_views(v: Seq<WatchHit>) -> Seq<HitView> {
    Seq::new(v.len(), |i: int| v[i]@)
}

/// Index of the first hit from `i` on of an instruction; the number of hits where there is
/// none.
pub open spec fn hit_index(hits: Seq<HitView>, rip: u64, i: int) -> int
    decreases hits.len() - i,
{
    if i < 0 || i >= hits.len() {
        hits.len() as int
    } else if hits[i].rip == rip {
        i
    } else {
        hit_index(hits, rip, i + 1)
    }
}

/// The hits after one more: an instruction that was caught before is counted once more, as
/// far as its counter goes, and its registers are replaced by new ones; another is added.
pub open spec fn hits_after(
    hits: Seq<HitView>,
    rip: u64,
    disasm: Option<Seq<char>>,
    registers: Option<RegisterSnapshot>,
) -> Seq<HitView> {
    let k = hit_index(hits, rip, 0);
    if k < hits.len() {
        hits.update(
            k,
            HitView {
                hit_count: if hits[k].hit_count < u64::MAX {
                    (hits[k].hit_count + 1) as u64
                } else {
                    u64::MAX
                },
                registers: if registers is Some {
                    registers
                } else {
                    hits[k].registers
                },
                ..hits[k]
            },
        )
    } else {
        hits.push(HitView { rip, disasm, hit_count: 1, registers })
    }
}

/// No instruction stands in the list twice.
pub open spec fn distinct_hits(hits: Seq<HitView>) -> bool {
    forall|i: int, j: int|
        0 <= i < j < hits.len() ==> (#[trigger] hits[i]).rip != (#[trigger] hits[j]).rip
}

proof fn lemma_hit_index(hits: Seq<HitView>, rip: u64, i: int, k: int)
    requires
        0 <= i <= k <= hits.len(),
        forall|j: int| i <= j < k ==> (#[trigger] hits[j]).rip != rip,
        k < hits.len() ==> hits[k].rip == rip,
    ensures
        hit_index(hits, rip, i) == k,
    decreases k - i,
{
    if i < k {
        lemma_hit_index(hits, rip, i + 1, k);
    }
}

proof fn lemma_hit_index_first(hits: Seq<HitView>, rip: u64, i: int)
    requires
        0 <= i <= hits.len(),
    ensures
        i <= hit_index(hits, rip, i) <= hits.len(),
        forall|j: int| i <= j < hit_index(hits, rip, i) ==> (#[trigger] hits[j]).rip != rip,
        hit_index(hits, rip, i) < hits.len() ==> hits[hit_index(hits, rip, i)].rip == rip,
    decreases hits.len() - i,
{
    if i < hits.len() && hits[i].rip != rip {
        lemma_hit_index_first(hits, rip, i + 1);
    }
}

/// Hits are told apart by their instruction: recording one never puts an instruction in the
/// list twice.
pub proof fn hits_stay_distinct(
    hits: Seq<HitView>,
    rip: u64,
    disasm: Option<Seq<char>>,
    registers: Option<RegisterSnapshot>,
)
    requires
        distinct_hits(hits),
    ensures
        distinct_hits(hits_after(hits, rip, disasm, registers)),
{
    lemma_hit_index_first(hits, rip, 0);
    let after = hits_after(hits, rip, disasm, registers);
    assert forall|i: int, j: int| 0 <= i < j < after.len() implies (#[trigger] after[i]).rip != (
    #[trigger] after[j]).rip by {
        if j < hits.len() {
            assert(after[i].rip == hits[i].rip && after[j].rip == hits[j].rip);
        } else {
            assert(after[i] == hits[i]);
            assert(after[j].rip == rip);
        }
    }
}

/// Records a hit.
pub fn record_hit(
    hits: &mut Vec<WatchHit>,
    rip: u64,
    disasm: Option<String>,
    registers: Option<RegisterSnapshot>,
)
    ensures
        hit_views(final(hits)@) == hits_after(
            hit_views(old(hits)@),
            rip,
            text::optional(disasm),
            registers,
        ),
{
    let ghost before = hit_views(hits@);
    let n: usize = hits.len();
    let mut k: usize = 0;
    while k < n && hits[k].rip != rip
        invariant
            k <= n,
            n == hits@.len(),
            before == hit_views(hits@),
            forall|j: int| 0 <= j < k ==> (#[trigger] before[j]).rip != rip,
        decreases n - k,
    {
        assert(before[k as int] == hits@[k as int]@);
        k += 1;
    }
    proof {
        if k < n {
            assert(before[k as int] == hits@[k as int]@);
        }
        lemma_hit_index(before, rip, 0, k as int);
    }
    if k < n {
        let count: u64 = if hits[k].hit_count < u64::MAX {
            hits[k].hit_count + 1
        } else {
            u64::MAX
        };
        let kept = match registers {
            Some(r) => Some(r),
            None => hits[k].registers,
        };
        let text = match &hits[k].disasm {
            Some(s) => Some(s.clone()),
            None => None,
        };
        let hit = WatchHit { rip, disasm: text, hit_count: count, registers: kept };
        hits.set(k, hit);
        assert(hit_views(hits@) =~= before.update(k as int, hit@));
    } else {
        let hit = WatchHit { rip, disasm, hit_count: 1, registers };
        hits.push(hit);
        assert(hit_views(hits@) =~= before.push(hit@));
    }
}

/// How often anything was caught.
pub open spec fn total_hits(hits: Seq<HitView>) -> nat
    decreases hits.len(),
{
    if hits.len() == 0 {
        0
    } else {
        total_hits(hits.drop_last()) + hits.last().hit_count as nat
    }
}

proof fn lemma_total_update(hits: Seq<HitView>, k: int, h: HitView)
    requires
        0 <= k < hits.len(),
    ensures
        total_hits(hits.update(k, h)) == total_hits(hits) - hits[k].hit_count + h.hit_count,
    decreases hits.len(),
{
    let after = hits.update(k, h);
    if k == hits.len() - 1 {
        assert(after.drop_last() =~= hits.drop_last());
    } else {
        lemma_total_update(hits.drop_last(), k, h);
        assert(after.drop_last() =~= hits.drop_last().update(k, h));
    }
}

/// Every hit is counted once, until the counter of its instruction is full.
pub proof fn hits_are_counted(
    hits: Seq<HitView>,
    rip: u64,
    disasm: Option<Seq<char>>,
    registers: Option<RegisterSnapshot>,
)
    requires
        forall|i: int| 0 <= i < hits.len() ==> (#[trigger] hits[i]).hit_count < u64::MAX,
    ensures
        total_hits(hits_after(hits, rip, disasm, registers)) == total_hits(hits) + 1,
{
    lemma_hit_index_first(hits, rip, 0);
    let k = hit_index(hits, rip, 0);
    let after = hits_after(hits, rip, disasm, registers);
    if k < hits.len() {
        lemma_total_update(hits, k, after[k]);
    } else {
        assert(after.drop_last() =~= hits);
    }
}

/// A count, as far as a counter goes.
pub open spec fn capped(n: nat) -> u64 {
    if n < u64::MAX {
        n as u64
    } else {
        u64::MAX
    }
}

fn count_hits(hits: &Vec<WatchHit>) -> (r: u64)
    ensures
        r == capped(total_hits(hit_views(hits@))),
{
    let ghost views = hit_views(hits@);
    let mut total: u64 = 0;
    let mut i: usize = 0;
    while i < hits.len()
        invariant
            i <= hits@.len(),
            views == hit_views(hits@),
            total == capped(total_hits(views.take(i as int))),
        decreases hits@.len() - i,
    {
        proof {
            assert(views.take(i + 1).drop_last() =~= views.take(i as int));
            assert(views.take(i + 1).last() == hits@[i as int]@);
        }
        let n: u64 = hits[i].hit_count;
        if u64::MAX - total < n {
            total = u64::MAX;
        } else {
            total += n;
        }
        i += 1;
    }
    assert(views.take(hits@.len() as int) =~= views);
    total
}

/// A hit in a reply.
#[derive(Clone, Debug)]
pub struct WatchHitJson {
    /// Where the instruction is, in hexadecimal.
    pub rip: String,
    /// The instruction, where it could be decoded.
    pub disasm: Option<String>,
    /// How often it was caught.
    pub hit_count: u64,
    /// The registers when it was last caught, where they are kept.
    pub registers: Option<RegisterSnapshot>,
}

impl WatchHitJson {
    /// This is how a hit is shown.
    pub open spec fn shows(self, h: HitView) -> bool {
        &&& self.rip@ == text::address(h.rip)
        &&& text::optional(self.disasm) == h.disasm
        &&& self.hit_count == h.hit_count
        &&& self.registers == h.registers
    }
}

/// Each hit is shown, in order.
pub open spec fn shows_hits(v: Seq<WatchHitJson>, hits: Seq<HitView>) -> bool {
    v.len() == hits.len() && forall|i: int| 0 <= i < v.len() ==> (#[trigger] v[i]).shows(hits[i])
}

fn show_hits(hits: &Vec<WatchHit>) -> (r: Vec<WatchHitJson>)
    ensures
        shows_hits(r@, hit_views(hits@)),
{
    let mut r: Vec<WatchHitJson> = Vec::new();
    let mut i: usize = 0;
    while i < hits.len()
        invariant
            i <= hits@.len(),
            r@.len() == i,
            forall|k: int| 0 <= k < i ==> (#[trigger] r@[k]).shows(hits@[k]@),
        decreases hits@.len() - i,
    {
        let text = match &hits[i].disasm {
            Some(s) => Some(s.clone()),
            None => None,
        };
        r.push(
            WatchHitJson {
                rip: address_text(hits[i].rip),
                disasm: text,
                hit_count: hits[i].hit_count,
                registers: hits[i].registers,
            },
        );
        i += 1;
    }
    r
}

// ─── Debug registers ────────────────────────────────────────────────────────

/// Where debug register 0 is in the user area: the watched address.
pub const DR0_OFFSET: u64 = 848;

/// Where debug register 6 is in the user area: what was hit.
pub const DR6_OFFSET: u64 = 888;

/// Where debug register 7 is in the user area: what is watched for.
pub const DR7_OFFSET: u64 = 896;

/// The control register for a watchpoint in debug register 0: bit 0 enables it, bits 16 and
/// 17 say which accesses, bits 18 and 19 how many bytes.
pub open spec fn dr7(mode: WatchMode, size: WatchSize) -> int {
    let condition: int = match mode {
        WatchMode::Write => 1,
        WatchMode::ReadWrite => 3,
    };
    let len: int = match size {
        WatchSize::Byte1 => 0,
        WatchSize::Byte2 => 1,
        WatchSize::Byte4 => 3,
        WatchSize::Byte8 => 2,
    };
    1 + condition * 0x1_0000 + len * 0x4_0000
}

/// The control register for a watchpoint in debug register 0.
pub fn build_dr7(mode: WatchMode, size: WatchSize) -> (r: u64)
    ensures
        r == dr7(mode, size),
{
    let condition: u64 = match mode {
        WatchMode::Write => 1,
        WatchMode::ReadWrite => 3,
    };
    let len: u64 = match size {
        WatchSize::Byte1 => 0,
        WatchSize::Byte2 => 1,
        WatchSize::Byte4 => 3,
        WatchSize::Byte8 => 2,
    };
    1 + condition * 0x1_0000 + len * 0x4_0000
}

// ─── Threads ────────────────────────────────────────────────────────────────

/// The thread numbers among the names, in order.
pub open spec fn thread_ids(names: Seq<Seq<char>>) -> Seq<u32>
    decreases names.len(),
{
    if names.len() == 0 {
        Seq::empty()
    } else {
        let before = thread_ids(names.drop_last());
        match text::number(names.last(), 10, u32::MAX as nat) {
            Ok(n) => before.push(n as u32),
            Err(_) => before,
        }
    }
}

/// Index of the first of the smallest numbers.
pub open spec fn least_index(s: Seq<u32>) -> int
    decreases s.len(),
{
    if s.len() <= 1 {
        0
    } else {
        let k = least_index(s.drop_last());
        if s.last() < s[k] {
            s.len() - 1
        } else {
            k
        }
    }
}

/// The thread to trace: the second in order of their numbers, which is not the main thread;
/// the only one where there is one; none where there is none.
pub open spec fn picked(tids: Seq<u32>) -> Option<u32> {
    if tids.len() == 0 {
        None
    } else if tids.len() == 1 {
        Some(tids[0])
    } else {
        let others = tids.remove(least_index(tids));
        Some(others[least_index(others)])
    }
}

fn find_least(s: &Vec<u32>) -> (r: usize)
    requires
        s@.len() > 0,
    ensures
        r == least_index(s@),
        r < s@.len(),
{
    let mut k: usize = 0;
    let mut i: usize = 1;
    assert(s@.take(1).len() == 1);
    while i < s.len()
        invariant
            1 <= i <= s@.len(),
            k < i,
            k == least_index(s@.take(i as int)),
        decreases s@.len() - i,
    {
        proof {
            assert(s@.take(i + 1).drop_last() =~= s@.take(i as int));
            assert(s@.take(i + 1).last() == s@[i as int]);
        }
        if s[i] < s[k] {
            k = i;
        }
        i += 1;
    }
    assert(s@.take(s@.len() as int) =~= s@);
    k
}

/// The thread to trace, of the entries in a process's task directory. Entries that are no
/// numbers are passed over.
pub fn pick_thread(names: &Vec<String>) -> (r: Option<u32>)
    ensures
        r == picked(thread_ids(text::texts(names@))),
{
    let ghost views = text::texts(names@);
    let mut tids: Vec<u32> = Vec::new();
    let mut i: usize = 0;
    assert(tids@ =~= thread_ids(views.take(0)));
    while i < names.len()
        invariant
            i <= names@.len(),
            views == text::texts(names@),
            tids@ == thread_ids(views.take(i as int)),
        decreases names@.len() - i,
    {
        proof {
            assert(views.take(i + 1).drop_last() =~= views.take(i as int));
            assert(views.take(i + 1).last() == names@[i as int]@);
        }
        let name = to_chars(names[i].as_str());
        if let Ok(n) = parse_number(name.as_slice(), 10, u32::MAX as u64) {
            tids.push(n as u32);
        }
        i += 1;
    }
    assert(views.take(names@.len() as int) =~= views);
    if tids.len() == 0 {
        return None;
    }
    if tids.len() == 1 {
        return Some(tids[0]);
    }
    let first: usize = find_least(&tids);
    tids.remove(first);
    let second: usize = find_least(&tids);
    Some(tids[second])
}

// ─── The loop ───────────────────────────────────────────────────────────────

/// Where the tracer stands.
#[derive(Clone, Copy, Debug, PartialEq, Eq, Structural)]
pub enum WatchStage {
    /// The thread is being seized.
    Seizing,
    /// The thread is being interrupted.
    Interrupting,
    /// The thread is about to stop.
    Stopping,
    /// The watched address is being set.
    SettingAddress,
    /// The status is being cleared.
    ClearingStatus,
    /// The watchpoint is being armed.
    SettingControl,
    /// The thread is being let go.
    Resuming,
    /// The thread is being polled.
    Polling,
    /// The registers of a hit are being read.
    ReadingRegisters,
    /// The status of a hit is being cleared.
    ClearingHit(u64, Option<RegisterSnapshot>),
    /// The instruction of a hit is being decoded.
    Describing(u64, Option<RegisterSnapshot>),
    /// The thread is being let go after a hit.
    ResumingAfterHit,
    /// A signal is being passed on.
    Forwarding,
    /// The tracer sleeps.
    Sleeping,
    /// The thread is being interrupted for the last time.
    LastInterrupting,
    /// The thread is about to stop for the last time.
    LastStopping,
    /// The watched address is being cleared.
    ErasingAddress,
    /// The watchpoint is being disarmed.
    ErasingControl,
    /// The status is being cleared for the last time.
    ErasingStatus,
    /// The thread is being let alone.
    Detaching,
    /// It is over.
    Finished,
}

/// What came of the tracer's last action.
#[derive(Clone, Debug)]
pub enum WatchEvent {
    /// It succeeded.
    Done,
    /// It failed, with what the system says.
    Failed(String),
    /// The thread stopped.
    Stopped,
    /// The thread hit the watchpoint.
    Trap,
    /// The thread was stopped by another signal.
    Signal(i32),
    /// Nothing happened.
    StillAlive,
    /// The thread is gone.
    Gone,
    /// Something else happened.
    Other(String),
    /// The instruction pointer and the registers.
    Registers(u64, RegisterSnapshot),
    /// The instruction as text, where it could be decoded.
    Text(Option<String>),
}

/// Why a watch ended before its time.
#[derive(Clone, Debug)]
pub enum WatchFailure {
    /// The thread could not be seized.
    Seize(u32, String),
    /// The thread could not be interrupted.
    Interrupt(String),
    /// The thread did not stop.
    UnexpectedWait(String),
    /// A debug register could not be set.
    Poke(String),
    /// The thread could not be let go.
    Resume(String),
    /// The registers could not be read.
    Registers(String),
    /// The thread could not be let go after a hit.
    ResumeAfterHit(String),
}

/// A [`WatchFailure`] as a mathematical value.
pub enum WatchFailureView {
    /// The thread could not be seized.
    Seize(u32, Seq<char>),
    /// The thread could not be interrupted.
    Interrupt(Seq<char>),
    /// The thread did not stop.
    UnexpectedWait(Seq<char>),
    /// A debug register could not be set.
    Poke(Seq<char>),
    /// The thread could not be let go.
    Resume(Seq<char>),
    /// The registers could not be read.
    Registers(Seq<char>),
    /// The thread could not be let go after a hit.
    ResumeAfterHit(Seq<char>),
}

impl View for WatchFailure {
    type V = WatchFailureView;

    open spec fn view(&self) -> WatchFailureView {
        match self {
            WatchFailure::Seize(t, s) => WatchFailureView::Seize(*t, s@),
            WatchFailure::Interrupt(s) => WatchFailureView::Interrupt(s@),
            WatchFailure::UnexpectedWait(s) => WatchFailureView::UnexpectedWait(s@),
            WatchFailure::Poke(s) => WatchFailureView::Poke(s@),
            WatchFailure::Resume(s) => WatchFailureView::Resume(s@),
            WatchFailure::Registers(s) => WatchFailureView::Registers(s@),
            WatchFailure::ResumeAfterHit(s) => WatchFailureView::ResumeAfterHit(s@),
        }
    }
}

/// What a failure says.
pub open spec fn watch_message(f: WatchFailureView) -> Seq<char> {
    match f {
        WatchFailureView::Seize(t, s) => "PTRACE_SEIZE on tid "@ + text::decimal(t as nat)
            + " failed: "@ + s,
        WatchFailureView::Interrupt(s) => "PTRACE_INTERRUPT failed: "@ + s,
        WatchFailureView::UnexpectedWait(s) => "unexpected wait result after interrupt: "@ + s,
        WatchFailureView::Poke(s) => s,
        WatchFailureView::Resume(s) => "PTRACE_CONT failed: "@ + s,
        WatchFailureView::Registers(s) => "getregs failed: "@ + s,
        WatchFailureView::ResumeAfterHit(s) => "PTRACE_CONT after hit failed: "@ + s,
    }
}

fn prefixed(before: &str, s: &str) -> (r: String)
    ensures
        r@ == before@ + s@,
{
    let mut r = before.to_string();
    r.append(s);
    r
}

impl WatchFailure {
    /// What the failure says.
    pub fn message(&self) -> (r: String)
        ensures
            r@ == watch_message(self@),
    {
        match self {
            WatchFailure::Seize(t, s) => {
                let mut r = "PTRACE_SEIZE on tid ".to_string();
                push_decimal(&mut r, *t as u64);
                r.append(" failed: ");
                r.append(s.as_str());
                r
            },
            WatchFailure::Interrupt(s) => prefixed("PTRACE_INTERRUPT failed: ", s.as_str()),
            WatchFailure::UnexpectedWait(s) => prefixed(
                "unexpected wait result after interrupt: ",
                s.as_str(),
            ),
            WatchFailure::Poke(s) => s.clone(),
            WatchFailure::Resume(s) => prefixed("PTRACE_CONT failed: ", s.as_str()),
            WatchFailure::Registers(s) => prefixed("getregs failed: ", s.as_str()),
            WatchFailure::ResumeAfterHit(s) => prefixed(
                "PTRACE_CONT after hit failed: ",
                s.as_str(),
            ),
        }
    }
}

/// What the tracer does next.
#[derive(Clone, Debug)]
pub enum WatchAction {
    /// Seize the thread, without stopping it.
    Seize,
    /// Interrupt the thread.
    Interrupt,
    /// Wait until the thread stops.
    AwaitStop,
    /// Write a value into the user area of the thread.
    Poke {
        /// Where.
        offset: u64,
        /// What.
        value: u64,
    },
    /// Let the thread go on, with a signal or without.
    Resume(Option<i32>),
    /// See what the thread does, without waiting.
    Poll,
    /// Read the registers of the thread.
    ReadRegisters,
    /// Decode the instruction at an address.
    Disassemble(u64),
    /// Sleep for a millisecond.
    Sleep,
    /// Let the thread alone.
    Detach,
    /// End with a failure.
    Abort(WatchFailure),
    /// Let the thread alone, then end with a failure.
    Abandon(WatchFailure),
    /// End.
    Finish,
}

/// A [`WatchAction`] as a mathematical value.
pub enum WatchActionView {
    /// Seize the thread, without stopping it.
    Seize,
    /// Interrupt the thread.
    Interrupt,
    /// Wait until the thread stops.
    AwaitStop,
    /// Write a value into the user area of the thread: where, and what.
    Poke(u64, u64),
    /// Let the thread go on, with a signal or without.
    Resume(Option<i32>),
    /// See what the thread does, without waiting.
    Poll,
    /// Read the registers of the thread.
    ReadRegisters,
    /// Decode the instruction at an address.
    Disassemble(u64),
    /// Sleep for a millisecond.
    Sleep,
    /// Let the thread alone.
    Detach,
    /// End with a failure.
    Abort(WatchFailureView),
    /// Let the thread alone, then end with a failure.
    Abandon(WatchFailureView),
    /// End.
    Finish,
}

impl View for WatchAction {
    type V = WatchActionView;

    open spec fn view(&self) -> WatchActionView {
        match self {
            WatchAction::Seize => WatchActionView::Seize,
            WatchAction::Interrupt => WatchActionView::Interrupt,
            WatchAction::AwaitStop => WatchActionView::AwaitStop,
            WatchAction::Poke { offset, value } => WatchActionView::Poke(*offset, *value),
            WatchAction::Resume(s) => WatchActionView::Resume(*s),
            WatchAction::Poll => WatchActionView::Poll,
            WatchAction::ReadRegisters => WatchActionView::ReadRegisters,
            WatchAction::Disassemble(a) => WatchActionView::Disassemble(*a),
            WatchAction::Sleep => WatchActionView::Sleep,
            WatchAction::Detach => WatchActionView::Detach,
            WatchAction::Abort(f) => WatchActionView::Abort(f@),
            WatchAction::Abandon(f) => WatchActionView::Abandon(f@),
            WatchAction::Finish => WatchActionView::Finish,
        }
    }
}

/// The failure that an event reports, where it reports one.
pub open spec fn failure(e: WatchEvent) -> Option<Seq<char>> {
    match e {
        WatchEvent::Failed(s) => Some(s@),
        _ => None,
    }
}

/// The text of an event that reports something unexpected.
pub open spec fn reported(e: WatchEvent) -> Seq<char> {
    match e {
        WatchEvent::Failed(s) => s@,
        WatchEvent::Other(s) => s@,
        _ => Seq::empty(),
    }
}

/// Back to polling, or to the end where the watch was told to stop.
pub open spec fn polling(stop: bool) -> (WatchStage, WatchActionView) {
    if stop {
        (WatchStage::LastInterrupting, WatchActionView::Interrupt)
    } else {
        (WatchStage::Polling, WatchActionView::Poll)
    }
}

/// What the tracer does after an event, and where it then stands.
pub open spec fn watch_next(
    stage: WatchStage,
    event: WatchEvent,
    stop: bool,
    config: WatchConfig,
    tid: u32,
) -> (WatchStage, WatchActionView) {
    match stage {
        WatchStage::Seizing => match failure(event) {
            Some(s) => (
                WatchStage::Finished,
                WatchActionView::Abort(WatchFailureView::Seize(tid, s)),
            ),
            None => (WatchStage::Interrupting, WatchActionView::Interrupt),
        },
        WatchStage::Interrupting => match failure(event) {
            Some(s) => (
                WatchStage::Finished,
                WatchActionView::Abort(WatchFailureView::Interrupt(s)),
            ),
            None => (WatchStage::Stopping, WatchActionView::AwaitStop),
        },
        WatchStage::Stopping => if event is Stopped {
            (WatchStage::SettingAddress, WatchActionView::Poke(DR0_OFFSET, config.address))
        } else {
            (
                WatchStage::Finished,
                WatchActionView::Abandon(WatchFailureView::UnexpectedWait(reported(event))),
            )
        },
        WatchStage::SettingAddress => match failure(event) {
            Some(s) => (
                WatchStage::Finished,
                WatchActionView::Abort(WatchFailureView::Poke(s)),
            ),
            None => (WatchStage::ClearingStatus, WatchActionView::Poke(DR6_OFFSET, 0)),
        },
        WatchStage::ClearingStatus => match failure(event) {
            Some(s) => (
                WatchStage::Finished,
                WatchActionView::Abort(WatchFailureView::Poke(s)),
            ),
            None => (
                WatchStage::SettingControl,
                WatchActionView::Poke(DR7_OFFSET, dr7(config.mode, config.size) as u64),
            ),
        },
        WatchStage::SettingControl => match failure(event) {
            Some(s) => (
                WatchStage::Finished,
                WatchActionView::Abort(WatchFailureView::Poke(s)),
            ),
            None => (WatchStage::Resuming, WatchActionView::Resume(None)),
        },
        WatchStage::Resuming => match failure(event) {
            Some(s) => (
                WatchStage::Finished,
                WatchActionView::Abort(WatchFailureView::Resume(s)),
            ),
            None => polling(stop),
        },
        WatchStage::Polling => match event {
            WatchEvent::Trap => (WatchStage::ReadingRegisters, WatchActionView::ReadRegisters),
            WatchEvent::Signal(n) => (WatchStage::Forwarding, WatchActionView::Resume(Some(n))),
            WatchEvent::Gone => (WatchStage::LastInterrupting, WatchActionView::Interrupt),
            _ => (WatchStage::Sleeping, WatchActionView::Sleep),
        },
        WatchStage::ReadingRegisters => match event {
            WatchEvent::Registers(rip, registers) => (
                WatchStage::ClearingHit(
                    rip,
                    if config.capture_registers {
                        Some(registers)
                    } else {
                        None
                    },
                ),
                WatchActionView::Poke(DR6_OFFSET, 0),
            ),
            _ => (
                WatchStage::Finished,
                WatchActionView::Abort(WatchFailureView::Registers(reported(event))),
            ),
        },
        WatchStage::ClearingHit(rip, registers) => (
            WatchStage::Describing(rip, registers),
            WatchActionView::Disassemble(rip),
        ),
        WatchStage::Describing(_, _) => (
            WatchStage::ResumingAfterHit,
            WatchActionView::Resume(None),
        ),
        WatchStage::ResumingAfterHit => match failure(event) {
            Some(s) => (
                WatchStage::Finished,
                WatchActionView::Abort(WatchFailureView::ResumeAfterHit(s)),
            ),
            None => polling(stop),
        },
        WatchStage::Forwarding => polling(stop),
        WatchStage::Sleeping => polling(stop),
        WatchStage::LastInterrupting => if event is Failed {
            (WatchStage::Detaching, WatchActionView::Detach)
        } else {
            (WatchStage::LastStopping, WatchActionView::AwaitStop)
        },
        WatchStage::LastStopping => if event is Failed {
            (WatchStage::Detaching, WatchActionView::Detach)
        } else {
            (WatchStage::ErasingAddress, WatchActionView::Poke(DR0_OFFSET, 0))
        },
        WatchStage::ErasingAddress => (
            WatchStage::ErasingControl,
            WatchActionView::Poke(DR7_OFFSET, 0),
        ),
        WatchStage::ErasingControl => (
            WatchStage::ErasingStatus,
            WatchActionView::Poke(DR6_OFFSET, 0),
        ),
        WatchStage::ErasingStatus => (WatchStage::Detaching, WatchActionView::Detach),
        WatchStage::Detaching => (WatchStage::Finished, WatchActionView::Finish),
        WatchStage::Finished => (WatchStage::Finished, WatchActionView::Finish),
    }
}

/// The hit that an event completes, where it completes one: the instruction was decoded.
pub open spec fn completes(stage: WatchStage, event: WatchEvent) -> Option<
    (u64, Option<Seq<char>>, Option<RegisterSnapshot>),
> {
    match stage {
        WatchStage::Describing(rip, registers) => Some(
            (
                rip,
                match event {
                    WatchEvent::Text(t) => text::optional(t),
                    _ => None,
                },
                registers,
            ),
        ),
        _ => None,
    }
}

/// A watch that is told to stop, or whose thread is gone, ends by disarming the watchpoint
/// before the thread is let alone, as long as the thread can be interrupted and stops.
pub proof fn ends_disarmed(
    interrupted: WatchEvent,
    stopped: WatchEvent,
    a: WatchEvent,
    b: WatchEvent,
    c: WatchEvent,
    stop: bool,
    config: WatchConfig,
    tid: u32,
)
    requires
        !(interrupted is Failed),
        !(stopped is Failed),
    ensures
        polling(true) == (WatchStage::LastInterrupting, WatchActionView::Interrupt),
        ({
            let s1 = watch_next(WatchStage::LastInterrupting, interrupted, stop, config, tid);
            let s2 = watch_next(s1.0, stopped, stop, config, tid);
            let s3 = watch_next(s2.0, a, stop, config, tid);
            let s4 = watch_next(s3.0, b, stop, config, tid);
            let s5 = watch_next(s4.0, c, stop, config, tid);
            &&& s1.1 == WatchActionView::AwaitStop
            &&& s2.1 == WatchActionView::Poke(DR0_OFFSET, 0)
            &&& s3.1 == WatchActionView::Poke(DR7_OFFSET, 0)
            &&& s4.1 == WatchActionView::Poke(DR6_OFFSET, 0)
            &&& s5.1 == WatchActionView::Detach
        }),
{
}

/// The watchpoint is armed on the watched address alone: the thread is first let go after the
/// address, the status and the control register were written.
pub proof fn armed_before_resume(
    a: WatchEvent,
    b: WatchEvent,
    c: WatchEvent,
    stop: bool,
    config: WatchConfig,
    tid: u32,
)
    requires
        !(a is Failed),
        !(b is Failed),
        !(c is Failed),
    ensures
        ({
            let s1 = watch_next(WatchStage::Stopping, WatchEvent::Stopped, stop, config, tid);
            let s2 = watch_next(s1.0, a, stop, config, tid);
            let s3 = watch_next(s2.0, b, stop, config, tid);
            let s4 = watch_next(s3.0, c, stop, config, tid);
            &&& s1.1 == WatchActionView::Poke(DR0_OFFSET, config.address)
            &&& s2.1 == WatchActionView::Poke(DR6_OFFSET, 0)
            &&& s3.1 == WatchActionView::Poke(DR7_OFFSET, dr7(config.mode, config.size) as u64)
            &&& s4.1 == WatchActionView::Resume(None)
        }),
{
}

fn report(e: WatchEvent) -> (r: String)
    ensures
        r@ == reported(e),
{
    match e {
        WatchEvent::Failed(s) => s,
        WatchEvent::Other(s) => s,
        _ => {
            let s = String::new();
            assert(s@ =~= Seq::empty());
            s
        },
    }
}

fn fails(e: &WatchEvent) -> (r: bool)
    ensures
        r == (e is Failed),
        r ==> failure(*e) == Some(reported(*e)),
        !r ==> failure(*e) is None,
{
    match e {
        WatchEvent::Failed(_) => true,
        _ => false,
    }
}

/// One watch as the tracer goes through it.
#[derive(Clone, Copy, Debug)]
pub struct WatchLoop {
    /// What is watched.
    pub config: WatchConfig,
    /// The thread that is traced.
    pub tid: u32,
    /// Where the tracer stands.
    pub stage: WatchStage,
}

impl WatchLoop {
    /// A watch at its start; the thread is to be seized.
    pub fn new(config: WatchConfig, tid: u32) -> (r: WatchLoop)
        ensures
            r == (WatchLoop { config, tid, stage: WatchStage::Seizing }),
    {
        WatchLoop { config, tid, stage: WatchStage::Seizing }
    }

    fn poll(&mut self, stop: bool) -> (r: WatchAction)
        ensures
            (final(self).stage, r@) == polling(stop),
            final(self).config == old(self).config,
            final(self).tid == old(self).tid,
    {
        if stop {
            self.stage = WatchStage::LastInterrupting;
            WatchAction::Interrupt
        } else {
            self.stage = WatchStage::Polling;
            WatchAction::Poll
        }
    }

    /// Takes in what came of the last action and decides on the next one. A hit whose
    /// instruction was decoded is recorded.
    pub fn next(&mut self, event: WatchEvent, stop: bool, hits: &mut Vec<WatchHit>) -> (r:
        WatchAction)
        ensures
            (final(self).stage, r@) == watch_next(
                old(self).stage,
                event,
                stop,
                old(self).config,
                old(self).tid,
            ),
            final(self).config == old(self).config,
            final(self).tid == old(self).tid,
            hit_views(final(hits)@) == match completes(old(self).stage, event) {
                Some((rip, disasm, registers)) => hits_after(
                    hit_views(old(hits)@),
                    rip,
                    disasm,
                    registers,
                ),
                None => hit_views(old(hits)@),
            },
    {
        let failed = fails(&event);
        match self.stage {
            WatchStage::Seizing => {
                if failed {
                    self.stage = WatchStage::Finished;
                    return WatchAction::Abort(WatchFailure::Seize(self.tid, report(event)));
                }
                self.stage = WatchStage::Interrupting;
                WatchAction::Interrupt
            },
            WatchStage::Interrupting => {
                if failed {
                    self.stage = WatchStage::Finished;
                    return WatchAction::Abort(WatchFailure::Interrupt(report(event)));
                }
                self.stage = WatchStage::Stopping;
                WatchAction::AwaitStop
            },
            WatchStage::Stopping => {
                if let WatchEvent::Stopped = event {
                    self.stage = WatchStage::SettingAddress;
                    return WatchAction::Poke { offset: DR0_OFFSET, value: self.config.address };
                }
                self.stage = WatchStage::Finished;
                WatchAction::Abandon(WatchFailure::UnexpectedWait(report(event)))
            },
            WatchStage::SettingAddress => {
                if failed {
                    self.stage = WatchStage::Finished;
                    return WatchAction::Abort(WatchFailure::Poke(report(event)));
                }
                self.stage = WatchStage::ClearingStatus;
                WatchAction::Poke { offset: DR6_OFFSET, value: 0 }
            },
            WatchStage::ClearingStatus => {
                if failed {
                    self.stage = WatchStage::Finished;
                    return WatchAction::Abort(WatchFailure::Poke(report(event)));
                }
                self.stage = WatchStage::SettingControl;
                WatchAction::Poke {
                    offset: DR7_OFFSET,
                    value: build_dr7(self.config.mode, self.config.size),
                }
            },
            WatchStage::SettingControl => {
                if failed {
                    self.stage = WatchStage::Finished;
                    return WatchAction::Abort(WatchFailure::Poke(report(event)));
                }
                self.stage = WatchStage::Resuming;
                WatchAction::Resume(None)
            },
            WatchStage::Resuming => {
                if failed {
                    self.stage = WatchStage::Finished;
                    return WatchAction::Abort(WatchFailure::Resume(report(event)));
                }
                self.poll(stop)
            },
            WatchStage::Polling => match event {
                WatchEvent::Trap => {
                    self.stage = WatchStage::ReadingRegisters;
                    WatchAction::ReadRegisters
                },
                WatchEvent::Signal(n) => {
                    self.stage = WatchStage::Forwarding;
                    WatchAction::Resume(Some(n))
                },
                WatchEvent::Gone => {
                    self.stage = WatchStage::LastInterrupting;
                    WatchAction::Interrupt
                },
                _ => {
                    self.stage = WatchStage::Sleeping;
                    WatchAction::Sleep
                },
            },
            WatchStage::ReadingRegisters => {
                if let WatchEvent::Registers(rip, registers) = event {
                    let kept = if self.config.capture_registers {
                        Some(registers)
                    } else {
                        None
                    };
                    self.stage = WatchStage::ClearingHit(rip, kept);
                    return WatchAction::Poke { offset: DR6_OFFSET, value: 0 };
                }
                self.stage = WatchStage::Finished;
                WatchAction::Abort(WatchFailure::Registers(report(event)))
            },
            WatchStage::ClearingHit(rip, registers) => {
                self.stage = WatchStage::Describing(rip, registers);
                WatchAction::Disassemble(rip)
            },
            WatchStage::Describing(rip, registers) => {
                let disasm = match event {
                    WatchEvent::Text(t) => t,
                    _ => None,
                };
                record_hit(hits, rip, disasm, registers);
                self.stage = WatchStage::ResumingAfterHit;
                WatchAction::Resume(None)
            },
            WatchStage::ResumingAfterHit => {
                if failed {
                    self.stage = WatchStage::Finished;
                    return WatchAction::Abort(WatchFailure::ResumeAfterHit(report(event)));
                }
                self.poll(stop)
            },
            WatchStage::Forwarding => self.poll(stop),
            WatchStage::Sleeping => self.poll(stop),
            WatchStage::LastInterrupting => {
                if failed {
                    self.stage = WatchStage::Detaching;
                    return WatchAction::Detach;
                }
                self.stage = WatchStage::LastStopping;
                WatchAction::AwaitStop
            },
            WatchStage::LastStopping => {
                if failed {
                    self.stage = WatchStage::Detaching;
                    return WatchAction::Detach;
                }
                self.stage = WatchStage::ErasingAddress;
                WatchAction::Poke { offset: DR0_OFFSET, value: 0 }
            },
            WatchStage::ErasingAddress => {
                self.stage = WatchStage::ErasingControl;
                WatchAction::Poke { offset: DR7_OFFSET, value: 0 }
            },
            WatchStage::ErasingControl => {
                self.stage = WatchStage::ErasingStatus;
                WatchAction::Poke { offset: DR6_OFFSET, value: 0 }
            },
            WatchStage::ErasingStatus => {
                self.stage = WatchStage::Detaching;
                WatchAction::Detach
            },
            WatchStage::Detaching => {
                self.stage = WatchStage::Finished;
                WatchAction::Finish
            },
            WatchStage::Finished => WatchAction::Finish,
        }
    }
}

/// What decoding one instruction for a hit came to: its text, or nothing where the code could
/// not be read or decoded.
pub open spec fn described(
    decoded: Result<Seq<disassemble::DecodedView>, disassemble::DisasmErrorView>,
) -> Option<Seq<char>> {
    match decoded {
        Err(_) => None,
        Ok(d) => if d.len() == 0 {
            None
        } else {
            Some(
                match d[0].mnemonic {
                    Some(m) => m,
                    None => "???"@,
                } + " "@ + match d[0].op_str {
                    Some(o) => o,
                    None => Seq::empty(),
                },
            )
        },
    }
}

/// Decodes the instruction of a hit.
pub fn disassemble_rip<M: MemoryAccess>(mem: &mut M, pid: u32, rip: u64) -> (r: Option<String>)
    ensures
        access::follows(*final(mem), *old(mem)),
        exists|d: Result<Seq<disassemble::DecodedView>, disassemble::DisasmErrorView>| #[trigger]
            disassemble::decode_ran(
                access::since(final(mem).trace(), old(mem).trace()),
                pid,
                rip,
                1,
                d,
            ) && text::optional(r) == described(d),
{
    let decoded = decode_at(mem, pid, rip, 1);
    let ghost d = disassemble::decoded_outcome(decoded);
    let r = match decoded {
        Ok(v) => {
            proof {
                if v@.len() > 0 {
                    assert(disassemble::decoded_views(v@)[0] == v@[0]@);
                }
            }
            first_line(&v)
        },
        Err(_) => None,
    };
    assert(text::optional(r) == described(d));
    r
}

// ─── The manager ────────────────────────────────────────────────────────────

/// A watch and what it caught.
#[derive(Clone, Debug)]
pub struct WatchEntry {
    /// What is watched.
    pub config: WatchConfig,
    /// What was caught.
    pub hits: Vec<WatchHit>,
    /// The tracer runs.
    pub active: bool,
}

/// A [`WatchEntry`] as a mathematical value.
pub struct WatchView {
    /// What is watched.
    pub config: WatchConfig,
    /// What was caught.
    pub hits: Seq<HitView>,
    /// The tracer runs.
    pub active: bool,
}

impl View for WatchEntry {
    type V = WatchView;

    open spec fn view(&self) -> WatchView {
        WatchView { config: self.config, hits: hit_views(self.hits@), active: self.active }
    }
}

/// A watch in a reply.
#[derive(Clone, Debug)]
pub struct WatchEntryJson {
    /// Identifier.
    pub watch_id: String,
    /// Target process.
    pub pid: u32,
    /// First address, in hexadecimal.
    pub address: String,
    /// Name of the mode.
    pub mode: String,
    /// How many bytes.
    pub size: u8,
    /// How often anything was caught.
    pub hit_count: u64,
    /// The tracer runs.
    pub active: bool,
}

impl WatchEntryJson {
    /// This is how a watch is shown. One whose tracer ended by itself keeps what it caught, but
    /// is no longer active; one that was told to stop is no longer listed.
    pub open spec fn shows(self, id: Seq<char>, w: WatchView) -> bool {
        &&& self.watch_id@ == id
        &&& self.pid == w.config.pid
        &&& self.address@ == text::address(w.config.address)
        &&& self.mode@ == w.config.mode.says()
        &&& self.size == w.config.size.bytes()
        &&& self.hit_count == capped(total_hits(w.hits))
        &&& self.active == w.active
    }
}

/// The watches in a map, by identifier.
pub uninterp spec fn watches_in(map: DashMap<String, WatchEntry>) -> Map<Seq<char>, WatchView>;

/// `DashMap::new` gives a map without entries.
#[verifier::external_body]
fn new_watches() -> (r: DashMap<String, WatchEntry>)
    ensures
        watches_in(r).dom() == Set::<Seq<char>>::empty(),
{
    DashMap::new()
}

/// `DashMap::insert` puts the value under the key and replaces one that was there.
#[verifier::external_body]
fn put_watch(map: &mut DashMap<String, WatchEntry>, id: String, entry: WatchEntry)
    ensures
        watches_in(*final(map)) == watches_in(*old(map)).insert(id@, entry@),
{
    map.insert(id, entry);
}

/// `DashMap::remove` takes out the value under the key, where there is one.
#[verifier::external_body]
fn take_watch(map: &mut DashMap<String, WatchEntry>, id: &str) -> (r: Option<WatchEntry>)
    ensures
        watches_in(*final(map)) == watches_in(*old(map)).remove(id@),
        match r {
            Some(w) => watches_in(*old(map)).contains_key(id@) && w@ == watches_in(
                *old(map),
            )[id@],
            None => !watches_in(*old(map)).contains_key(id@),
        },
{
    map.remove(id).map(|entry| entry.1)
}

/// `DashMap::get` looks up the value under the key, which is copied.
#[verifier::external_body]
fn copy_watch(map: &DashMap<String, WatchEntry>, id: &str) -> (r: Option<WatchEntry>)
    ensures
        match r {
            Some(w) => watches_in(*map).contains_key(id@) && w@ == watches_in(*map)[id@],
            None => !watches_in(*map).contains_key(id@),
        },
{
    map.get(id).map(|w| w.clone())
}

/// Each identifier in the map stands in the list once.
pub open spec fn lists_ids(list: Seq<Seq<char>>, watches: Map<Seq<char>, WatchView>) -> bool {
    &&& forall|i: int| 0 <= i < list.len() ==> watches.contains_key(#[trigger] list[i])
    &&& forall|i: int, j: int|
        0 <= i < j < list.len() ==> #[trigger] list[i] != #[trigger] list[j]
    &&& forall|id: Seq<char>| #[trigger] watches.contains_key(id) ==> list.contains(id)
}

/// `DashMap::iter` visits every entry once; in which order is left open.
#[verifier::external_body]
fn watch_ids(map: &DashMap<String, WatchEntry>) -> (r: Vec<String>)
    ensures
        lists_ids(text::texts(r@), watches_in(*map)),
{
    map.iter().map(|e| e.key().clone()).collect()
}

/// There is no such watch.
#[derive(Clone, Debug)]
pub struct WatchNotFound {
    /// The identifier that was asked for.
    pub id: String,
}

/// What is said of a watch that does not exist.
pub open spec fn no_watch(id: Seq<char>) -> Seq<char> {
    "watch '"@ + id + "' not found"@
}

impl WatchNotFound {
    /// What the error says.
    pub fn message(&self) -> (r: String)
        ensures
            r@ == no_watch(self.id@),
    {
        let mut r = "watch '".to_string();
        r.append(self.id.as_str());
        r.append("' not found");
        r
    }
}

/// The watches, by identifier.
pub struct WatchManager {
    active: DashMap<String, WatchEntry>,
}

impl View for WatchManager {
    type V = Map<Seq<char>, WatchView>;

    closed spec fn view(&self) -> Map<Seq<char>, WatchView> {
        watches_in(self.active)
    }
}

/// Each watch is shown once.
pub open spec fn shows_watches(
    list: Seq<WatchEntryJson>,
    watches: Map<Seq<char>, WatchView>,
) -> bool {
    exists|order: Seq<Seq<char>>| #[trigger]
        lists_ids(order, watches) && list.len() == order.len() && forall|i: int|
            0 <= i < list.len() ==> (#[trigger] list[i]).shows(order[i], watches[order[i]])
}

impl WatchManager {
    /// No watches.
    pub fn new() -> (r: WatchManager)
        ensures
            r@ == Map::<Seq<char>, WatchView>::empty(),
    {
        let r = WatchManager { active: new_watches() };
        assert(r@ =~= Map::<Seq<char>, WatchView>::empty());
        r
    }

    /// Opens a watch that has caught nothing yet, under a fresh identifier; its tracer is to
    /// start.
    pub fn start(&mut self, config: WatchConfig) -> (r: String)
        ensures
            shared::is_id(r@),
            final(self)@ == old(self)@.insert(
                r@,
                (WatchView { config, hits: Seq::empty(), active: true }),
            ),
    {
        let id = new_id();
        let entry = WatchEntry { config, hits: Vec::new(), active: true };
        assert(entry@.hits =~= Seq::empty());
        put_watch(&mut self.active, id.clone(), entry);
        id
    }

    /// Puts what a tracer caught, and whether it still runs, in place of what was known.
    /// Nothing changes where the watch was stopped meanwhile.
    pub fn update(&mut self, watch_id: &str, hits: Vec<WatchHit>, running: bool)
        ensures
            final(self)@ == if old(self)@.contains_key(watch_id@) {
                old(self)@.insert(
                    watch_id@,
                    (WatchView {
                        config: old(self)@[watch_id@].config,
                        hits: hit_views(hits@),
                        active: running,
                    }),
                )
            } else {
                old(self)@
            },
    {
        match take_watch(&mut self.active, watch_id) {
            None => {
                assert(self@ =~= old(self)@);
            },
            Some(entry) => {
                let fresh = WatchEntry { config: entry.config, hits, active: running };
                put_watch(&mut self.active, watch_id.to_string(), fresh);
                assert(self@ =~= old(self)@.insert(watch_id@, fresh@));
            },
        }
    }

    /// What a watch caught, as it is shown.
    pub fn hits(&self, watch_id: &str) -> (r: Result<Vec<WatchHitJson>, WatchNotFound>)
        ensures
            match r {
                Ok(v) => self@.contains_key(watch_id@) && shows_hits(v@, self@[watch_id@].hits),
                Err(e) => !self@.contains_key(watch_id@) && e.id@ == watch_id@,
            },
    {
        match copy_watch(&self.active, watch_id) {
            Some(entry) => Ok(show_hits(&entry.hits)),
            None => Err(WatchNotFound { id: watch_id.to_string() }),
        }
    }

    /// Closes a watch; its tracer is to stop.
    pub fn stop(&mut self, watch_id: &str) -> (r: Result<(), WatchNotFound>)
        ensures
            final(self)@ == old(self)@.remove(watch_id@),
            match r {
                Ok(()) => old(self)@.contains_key(watch_id@),
                Err(e) => !old(self)@.contains_key(watch_id@) && e.id@ == watch_id@,
            },
    {
        match take_watch(&mut self.active, watch_id) {
            Some(_) => Ok(()),
            None => Err(WatchNotFound { id: watch_id.to_string() }),
        }
    }

    /// Every watch, as it is shown.
    pub fn list(&self) -> (r: Vec<WatchEntryJson>)
        ensures
            shows_watches(r@, self@),
    {
        let ids = watch_ids(&self.active);
        let ghost order = text::texts(ids@);
        let mut r: Vec<WatchEntryJson> = Vec::new();
        let mut i: usize = 0;
        while i < ids.len()
            invariant
                i <= ids@.len(),
                order == text::texts(ids@),
                lists_ids(order, self@),
                r@.len() == i,
                forall|k: int|
                    0 <= k < i ==> (#[trigger] r@[k]).shows(order[k], self@[order[k]]),
            decreases ids@.len() - i,
        {
            assert(order[i as int] == ids@[i as int]@);
            if let Some(entry) = copy_watch(&self.active, ids[i].as_str()) {
                r.push(
                    WatchEntryJson {
                        watch_id: ids[i].clone(),
                        pid: entry.config.pid,
                        address: address_text(entry.config.address),
                        mode: entry.config.mode.name(),
                        size: entry.config.size.as_bytes(),
                        hit_count: count_hits(&entry.hits),
                        active: entry.active,
                    },
                );
            }
            i += 1;
        }
        r
    }

    /// Closes every watch. Returns the identifiers whose tracers are to stop.
    pub fn stop_all(&mut self) -> (r: Vec<String>)
        ensures
            final(self)@ == Map::<Seq<char>, WatchView>::empty(),
            lists_ids(text::texts(r@), old(self)@),
    {
        let ids = watch_ids(&self.active);
        let ghost all = self@;
        let ghost order = text::texts(ids@);
        let mut i: usize = 0;
        while i < ids.len()
            invariant
                i <= ids@.len(),
                all == old(self)@,
                order == text::texts(ids@),
                lists_ids(order, all),
                forall|id: Seq<char>| #[trigger]
                    self@.contains_key(id) ==> all.contains_key(id) && !order.take(
                        i as int,
                    ).contains(id),
            decreases ids@.len() - i,
        {
            let ghost before = self@;
            let _ = take_watch(&mut self.active, ids[i].as_str());
            proof {
                assert forall|id: Seq<char>| #[trigger]
                    self@.contains_key(id) implies all.contains_key(id) && !order.take(
                    i + 1,
                ).contains(id) by {
                    assert(before.contains_key(id));
                    assert(id != order[i as int]);
                    let taken = order.take(i + 1);
                    if taken.contains(id) {
                        let k = choose|k: int| 0 <= k < taken.len() && taken[k] == id;
                        assert(order.take(i as int)[k] == id);
                    }
                }
            }
            i += 1;
        }
        proof {
            assert(order.take(ids@.len() as int) =~= order);
            assert forall|id: Seq<char>| !#[trigger] self@.contains_key(id) by {
                if all.contains_key(id) {
                    assert(order.contains(id));
                }
            }
            assert(self@ =~= Map::<Seq<char>, WatchView>::empty());
        }
        ids
    }
}

// ─── What a watch promises ──────────────────────────────────────────────────

/// The control register enables debug register 0 and nothing else: bit 0 is set, the two bits
/// from 16 on tell writes from reads and writes, the two from 18 on give the number of bytes,
/// and no other bit is set.
pub proof fn control_register_has_its_fields(mode: WatchMode, size: WatchSize)
    ensures
        ({
            let r = dr7(mode, size);
            &&& r % 2 == 1
            &&& (r / 2) % 0x8000 == 0
            &&& (r / 0x1_0000) % 4 == match mode {
                WatchMode::Write => 1int,
                WatchMode::ReadWrite => 3,
            }
            &&& (r / 0x4_0000) % 4 == if size.bytes() == 1 {
                0int
            } else if size.bytes() == 2 {
                1
            } else if size.bytes() == 4 {
                3
            } else {
                2
            }
            &&& 0 <= r < 0x10_0000
            &&& size.bytes() == 1 || size.bytes() == 2 || size.bytes() == 4 || size.bytes() == 8
        }),
{
}

proof fn lemma_least_index(s: Seq<u32>)
    requires
        s.len() > 0,
    ensures
        0 <= least_index(s) < s.len(),
        forall|i: int| 0 <= i < s.len() ==> s[least_index(s)] <= #[trigger] s[i],
    decreases s.len(),
{
    if s.len() > 1 {
        let rest = s.drop_last();
        lemma_least_index(rest);
        assert forall|i: int| 0 <= i < s.len() implies s[least_index(s)] <= #[trigger] s[i] by {
            if i < rest.len() {
                assert(rest[i] == s[i]);
            }
            assert(rest[least_index(rest)] == s[least_index(rest)]);
        }
    }
}

/// The thread that is traced has the second smallest number: one other thread's is not larger,
/// and no further thread's is smaller. Where there is one thread it is that one.
pub proof fn the_second_thread_is_picked(tids: Seq<u32>)
    ensures
        picked(tids) is None <==> tids.len() == 0,
        tids.len() == 1 ==> picked(tids) == Some(tids[0]),
        tids.len() > 1 ==> exists|i: int, j: int|
            {
                &&& 0 <= i < tids.len() && 0 <= j < tids.len() && i != j
                &&& picked(tids) == Some(tids[i])
                &&& #[trigger] tids[j] <= #[trigger] tids[i]
                &&& forall|k: int|
                    0 <= k < tids.len() && k != j ==> tids[i] <= #[trigger] tids[k]
            },
{
    if tids.len() > 1 {
        let j = least_index(tids);
        lemma_least_index(tids);
        let others = tids.remove(j);
        let m = least_index(others);
        lemma_least_index(others);
        let i = if m < j { m } else { m + 1 };
        assert(others[m] == tids[i]);
        assert(tids[j] <= tids[i]);
        assert forall|k: int| 0 <= k < tids.len() && k != j implies tids[i] <= #[trigger] tids[k] by {
            let o = if k < j { k } else { k - 1 };
            assert(others[o] == tids[k]);
        }
    }
}

/// The threads are the directories with a decimal name, in order.
pub proof fn threads_are_numbered_directories(names: Seq<Seq<char>>, name: Seq<char>, n: u32)
    ensures
        thread_ids(Seq::empty()) == Seq::<u32>::empty(),
        name == text::numeral(n as nat, 10) ==> thread_ids(names.push(name)) == thread_ids(
            names,
        ).push(n),
        text::number(name, 10, 0xffff_ffff) is Err ==> thread_ids(names.push(name)) == thread_ids(
            names,
        ),
{
    assert(names.push(name).drop_last() =~= names);
    text::numerals_are_read_back(n as nat, 10, u32::MAX as nat);
}

/// Recording a hit counts it for its instruction alone: the count of that instruction goes up by
/// one until it is full, its latest registers are kept, and every other instruction stays as it
/// was. An instruction that was not caught before comes last, with a count of one.
pub proof fn hits_are_recorded_by_instruction(
    hits: Seq<HitView>,
    rip: u64,
    disasm: Option<Seq<char>>,
    registers: Option<RegisterSnapshot>,
)
    requires
        distinct_hits(hits),
    ensures
        ({
            let after = hits_after(hits, rip, disasm, registers);
            let seen = exists|i: int| 0 <= i < hits.len() && (#[trigger] hits[i]).rip == rip;
            &&& after.len() == hits.len() + if seen { 0int } else { 1 }
            &&& forall|i: int|
                0 <= i < hits.len() && (#[trigger] hits[i]).rip != rip ==> after[i] == hits[i]
            &&& forall|i: int|
                0 <= i < hits.len() && (#[trigger] hits[i]).rip == rip ==> {
                    &&& after[i].rip == rip
                    &&& after[i].disasm == hits[i].disasm
                    &&& hits[i].hit_count < u64::MAX ==> after[i].hit_count == hits[i].hit_count
                        + 1
                    &&& hits[i].hit_count == u64::MAX ==> after[i].hit_count == u64::MAX
                    &&& after[i].registers == match registers {
                        Some(r) => Some(r),
                        None => hits[i].registers,
                    }
                }
            &&& !seen ==> after.last() == (HitView { rip, disasm, hit_count: 1, registers })
        }),
{
    lemma_hit_index_first(hits, rip, 0);
    let k = hit_index(hits, rip, 0);
    assert forall|i: int| 0 <= i < hits.len() && (#[trigger] hits[i]).rip == rip implies i == k by {
        if i < k {
            assert(hits[i].rip != rip);
        } else if k < i {
            assert(hits[k].rip != hits[i].rip);
        }
    }
    if k < hits.len() {
        assert(hits[k].rip == rip);
    }
}

/// A trap becomes a hit: the registers are read, the status is cleared, the instruction at the
/// instruction pointer is decoded, and then the hit is recorded with what was decoded, with the
/// registers where they are wanted, and the thread goes on.
pub proof fn traps_become_hits(
    rip: u64,
    registers: RegisterSnapshot,
    cleared: WatchEvent,
    text: Option<String>,
    stop: bool,
    config: WatchConfig,
    tid: u32,
)
    ensures
        ({
            let s1 = watch_next(WatchStage::Polling, WatchEvent::Trap, stop, config, tid);
            let s2 = watch_next(
                s1.0,
                WatchEvent::Registers(rip, registers),
                stop,
                config,
                tid,
            );
            let s3 = watch_next(s2.0, cleared, stop, config, tid);
            let s4 = watch_next(s3.0, WatchEvent::Text(text), stop, config, tid);
            &&& s1.1 == WatchActionView::ReadRegisters
            &&& s2.1 == WatchActionView::Poke(888, 0)
            &&& s3.1 == WatchActionView::Disassemble(rip)
            &&& completes(s3.0, WatchEvent::Text(text)) == Some(
                (
                    rip,
                    text::optional(text),
                    if config.capture_registers {
                        Some(registers)
                    } else {
                        None
                    },
                ),
            )
            &&& s4.1 == WatchActionView::Resume(None)
            &&& watch_next(s4.0, WatchEvent::Done, false, config, tid).1 == WatchActionView::Poll
            &&& watch_next(s4.0, WatchEvent::Done, true, config, tid).1
                == WatchActionView::Interrupt
        }),
{
}

/// While a watch runs, a signal that is not its own is handed on, a thread that is gone ends it,
/// and otherwise it sleeps and looks again; it ends as soon as it is told to. Nothing of that is
/// a hit.
pub proof fn watches_do_not_disturb(event: WatchEvent, stop: bool, config: WatchConfig, tid: u32)
    requires
        !(event is Trap),
    ensures
        ({
            let s = watch_next(WatchStage::Polling, event, stop, config, tid);
            let t = watch_next(s.0, WatchEvent::Done, stop, config, tid);
            &&& completes(WatchStage::Polling, event) is None
            &&& completes(s.0, WatchEvent::Done) is None
            &&& event matches WatchEvent::Signal(n) ==> s.1 == WatchActionView::Resume(Some(n))
            &&& event is Gone ==> s.1 == WatchActionView::Interrupt
            &&& !(event is Signal) && !(event is Gone) ==> s.1 == WatchActionView::Sleep
            &&& !(event is Gone) && stop ==> t.1 == WatchActionView::Interrupt
            &&& !(event is Gone) && !stop ==> t.1 == WatchActionView::Poll
        }),
{
}

/// A watch that cannot be set up ends at once and says why: what the system says of the first
/// step that failed. A thread that did not stop is let alone first.
pub proof fn failed_setups_say_why(
    message: String,
    event: WatchEvent,
    stop: bool,
    config: WatchConfig,
    tid: u32,
)
    requires
        !(event is Stopped),
    ensures
        ({
            let e = WatchEvent::Failed(message);
            let done = WatchStage::Finished;
            &&& watch_next(WatchStage::Seizing, e, stop, config, tid) == (
                done,
                WatchActionView::Abort(WatchFailureView::Seize(tid, message@)),
            )
            &&& watch_next(WatchStage::Interrupting, e, stop, config, tid) == (
                done,
                WatchActionView::Abort(WatchFailureView::Interrupt(message@)),
            )
            &&& watch_next(WatchStage::SettingAddress, e, stop, config, tid) == (
                done,
                WatchActionView::Abort(WatchFailureView::Poke(message@)),
            )
            &&& watch_next(WatchStage::ClearingStatus, e, stop, config, tid) == (
                done,
                WatchActionView::Abort(WatchFailureView::Poke(message@)),
            )
            &&& watch_next(WatchStage::SettingControl, e, stop, config, tid) == (
                done,
                WatchActionView::Abort(WatchFailureView::Poke(message@)),
            )
            &&& watch_next(WatchStage::Resuming, e, stop, config, tid) == (
                done,
                WatchActionView::Abort(WatchFailureView::Resume(message@)),
            )
            &&& watch_next(WatchStage::ReadingRegisters, e, stop, config, tid) == (
                done,
                WatchActionView::Abort(WatchFailureView::Registers(message@)),
            )
            &&& watch_next(WatchStage::ResumingAfterHit, e, stop, config, tid) == (
                done,
                WatchActionView::Abort(WatchFailureView::ResumeAfterHit(message@)),
            )
            &&& watch_next(WatchStage::Stopping, event, stop, config, tid).1 is Abandon
            &&& watch_next(done, event, stop, config, tid) == (done, WatchActionView::Finish)
        }),
{
}

/// A watch begins by seizing and interrupting its thread and waiting until it stops; then it
/// arms the watchpoint, lets the thread go and looks for hits.
pub proof fn watches_are_set_up_in_order(
    events: Seq<WatchEvent>,
    stop: bool,
    config: WatchConfig,
    tid: u32,
)
    requires
        events.len() == 7,
        forall|i: int| 0 <= i < 7 ==> !((#[trigger] events[i]) is Failed),
        events[2] is Stopped,
    ensures
        ({
            let s1 = watch_next(WatchStage::Seizing, events[0], stop, config, tid);
            let s2 = watch_next(s1.0, events[1], stop, config, tid);
            let s3 = watch_next(s2.0, events[2], stop, config, tid);
            let s4 = watch_next(s3.0, events[3], stop, config, tid);
            let s5 = watch_next(s4.0, events[4], stop, config, tid);
            let s6 = watch_next(s5.0, events[5], stop, config, tid);
            let s7 = watch_next(s6.0, events[6], stop, config, tid);
            &&& s1.1 == WatchActionView::Interrupt
            &&& s2.1 == WatchActionView::AwaitStop
            &&& s3.1 == WatchActionView::Poke(848, config.address)
            &&& s4.1 == WatchActionView::Poke(888, 0)
            &&& s5.1 == WatchActionView::Poke(896, dr7(config.mode, config.size) as u64)
            &&& s6.1 == WatchActionView::Resume(None)
            &&& s7.1 == if stop {
                WatchActionView::Interrupt
            } else {
                WatchActionView::Poll
            }
        }),
{
    assert(!(events[0] is Failed) && !(events[1] is Failed) && !(events[3] is Failed) && !(
    events[4] is Failed) && !(events[5] is Failed) && !(events[6] is Failed));
}

/// A watch is listed with what it was set on, and with the number of all hits that it caught, as
/// far as a counter goes.
pub proof fn watches_are_listed_with_their_settings(
    shown: WatchEntryJson,
    id: Seq<char>,
    w: WatchView,
)
    requires
        shown.shows(id, w),
    ensures
        shown.watch_id@ == id,
        shown.pid == w.config.pid,
        shown.address@ == "0x"@ + text::numeral(w.config.address as nat, 16),
        shown.mode@ == if w.config.mode == WatchMode::Write {
            "write"@
        } else {
            "access"@
        },
        shown.size == 1 <==> w.config.size == WatchSize::Byte1,
        shown.size == 2 <==> w.config.size == WatchSize::Byte2,
        shown.size == 4 <==> w.config.size == WatchSize::Byte4,
        shown.size == 8 <==> w.config.size == WatchSize::Byte8,
        shown.active == w.active,
        w.hits.len() == 0 ==> shown.hit_count == 0,
        w.hits.len() == 1 ==> shown.hit_count == w.hits[0].hit_count,
        shown.hit_count < u64::MAX ==> shown.hit_count == total_hits(w.hits),
{
    if w.hits.len() == 1 {
        assert(w.hits.drop_last().len() == 0);
        assert(total_hits(w.hits.drop_last()) == 0);
    }
}

/// A hit that is caught once more counts one more, and nothing else does.
pub proof fn totals_count_every_hit(hits: Seq<HitView>, h: HitView)
    ensures
        total_hits(hits.push(h)) == total_hits(hits) + h.hit_count,
        total_hits(Seq::<HitView>::empty()) == 0,
{
    assert(hits.push(h).drop_last() =~= hits);
}

/// A hit is described by the first instruction that was decoded, by name and operands; where
/// none was, it is not described.
pub proof fn hits_are_described_by_their_instruction(
    decoded: Result<Seq<disassemble::DecodedView>, disassemble::DisasmErrorView>,
    mnemonic: Seq<char>,
    operands: Seq<char>,
)
    ensures
        described(decoded) is Some <==> decoded is Ok && decoded->Ok_0.len() > 0,
        decoded is Ok && decoded->Ok_0.len() > 0 && decoded->Ok_0[0].mnemonic == Some(mnemonic)
            && decoded->Ok_0[0].op_str == Some(operands) ==> described(decoded) == Some(
            mnemonic + " "@ + operands,
        ),
{
}

} // verus!
