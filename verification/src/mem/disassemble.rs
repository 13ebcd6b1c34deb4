//! Disassembly of x86-64 code in a target process.

use crate::mem::access;
use crate::mem::access::{AccessError, MemEvent, MemoryAccess};
use crate::mem::hex;
use crate::mem::hex::hex_encode;
use crate::text;
use crate::text::address_text;
use capstone::prelude::{BuildsCapstone, BuildsCapstoneSyntax};
use vstd::prelude::*;
use vstd::slice::slice_subrange;

verus! {

/// The longest that an instruction can be.
pub const MAX_INSTRUCTION: usize = 15;

/// A disassembled instruction, as it is shown.
#[derive(Clone, Debug)]
pub struct Instruction {
    /// Address in hexadecimal.
    pub address: String,
    /// Bytes in hexadecimal, with spaces between them.
    pub bytes: String,
    /// Name of the operation.
    pub mnemonic: String,
    /// Operands.
    pub op_str: String,
}

/// An instruction as the disassembler gives it.
#[derive(Clone, Debug)]
pub struct Decoded {
    /// Address.
    pub address: u64,
    /// Bytes.
    pub bytes: Vec<u8>,
    /// Name of the operation, where it has one.
    pub mnemonic: Option<String>,
    /// Operands, where it has some.
    pub op_str: Option<String>,
}

/// A [`Decoded`] instruction as a mathematical value.
pub struct DecodedView {
    /// Address.
    pub address: u64,
    /// Bytes.
    pub bytes: Seq<u8>,
    /// Name of the operation, where it has one.
    pub mnemonic: Option<Seq<char>>,
    /// Operands, where it has some.
    pub op_str: Option<Seq<char>>,
}

impl View for Decoded {
    type V = DecodedView;

    open spec fn view(&self) -> DecodedView {
        DecodedView {
            address: self.address,
            bytes: self.bytes@,
            mnemonic: text::optional(self.mnemonic),
            op_str: text::optional(self.op_str),
        }
    }
}

/// The mathematical values of a list of instructions.
pub open spec fn decoded_views(v: Seq<Decoded>) -> Seq<DecodedView> {
    Seq::new(v.len(), |i: int| v[i]@)
}

/// The instructions that the disassembler finds at the start of the code, at most `count`.
pub uninterp spec fn decoding(code: Seq<u8>, address: u64, count: nat) -> Seq<DecodedView>;

/// `Capstone::disasm_count` in 64-bit mode with Intel syntax and without details. What it
/// gives is named; that depends on the code, the address and the count alone. It fails on a
/// count of zero, and where the library cannot be set up or runs out of memory.
#[verifier::external_body]
fn decode(code: &[u8], address: u64, count: usize) -> (r: Result<Vec<Decoded>, String>)
    ensures
        r matches Ok(v) ==> decoded_views(v@) == decoding(code@, address, count as nat),
        count == 0 ==> r is Err,
{
    let cs = capstone::Capstone::new().x86().mode(capstone::arch::x86::ArchMode::Mode64)
        .syntax(capstone::arch::x86::ArchSyntax::Intel).detail(false).build()
        .map_err(|e| format!("capstone init failed: {e}"))?;
    let insns = cs.disasm_count(code, address, count).map_err(|e| format!("disassembly failed: {e}"))?;
    Ok(insns.iter().map(|i| Decoded {
        address: i.address(),
        bytes: i.bytes().to_vec(),
        mnemonic: i.mnemonic().map(|s| s.to_string()),
        op_str: i.op_str().map(|s| s.to_string()),
    }).collect())
}

/// Why code could not be disassembled.
#[derive(Clone, Debug)]
pub enum DisasmError {
    /// The code could not be read.
    Read(AccessError),
    /// The disassembler failed.
    Decode(String),
}

/// A [`DisasmError`] as a mathematical value.
pub enum DisasmErrorView {
    /// The code could not be read.
    Read(Seq<char>),
    /// The disassembler failed.
    Decode(Seq<char>),
}

impl View for DisasmError {
    type V = DisasmErrorView;

    open spec fn view(&self) -> DisasmErrorView {
        match self {
            DisasmError::Read(e) => DisasmErrorView::Read(e@),
            DisasmError::Decode(s) => DisasmErrorView::Decode(s@),
        }
    }
}

impl DisasmErrorView {
    /// What the error says.
    pub open spec fn says(self) -> Seq<char> {
        match self {
            DisasmErrorView::Read(s) => s,
            DisasmErrorView::Decode(s) => s,
        }
    }
}

impl DisasmError {
    /// What the error says.
    pub fn message(&self) -> (r: String)
        ensures
            r@ == self@.says(),
    {
        match self {
            DisasmError::Read(e) => e.message.clone(),
            DisasmError::Decode(s) => s.clone(),
        }
    }
}

/// What reading and decoding code did and came to. The code is read in one go, as much as the
/// instructions can take at most; what came is decoded.
pub open spec fn decode_ran(
    events: Seq<MemEvent>,
    pid: u32,
    address: u64,
    count: nat,
    result: Result<Seq<DecodedView>, DisasmErrorView>,
) -> bool {
    &&& events.len() == 1
    &&& events[0] is Read
    &&& events[0]->Read_pid == pid
    &&& events[0]->Read_address == address
    &&& events[0]->wanted == count * MAX_INSTRUCTION
    &&& access::fills(events[0])
    &&& match events[0]->Read_outcome {
        Err(e) => result == Err::<Seq<DecodedView>, _>(DisasmErrorView::Read(e)),
        Ok((n, buffer)) => match result {
            Ok(v) => count > 0 && v == decoding(buffer.take(n as int), address, count),
            Err(e) => e is Decode,
        },
    }
}

/// What decoding came to.
pub open spec fn decoded_outcome(r: Result<Vec<Decoded>, DisasmError>) -> Result<
    Seq<DecodedView>,
    DisasmErrorView,
> {
    match r {
        Ok(v) => Ok(decoded_views(v@)),
        Err(e) => Err(e@),
    }
}

/// Reads code of a process and decodes it.
pub fn decode_at<M: MemoryAccess>(
    mem: &mut M,
    pid: u32,
    address: u64,
    num_instructions: usize,
) -> (r: Result<Vec<Decoded>, DisasmError>)
    requires
        num_instructions * MAX_INSTRUCTION <= usize::MAX,
    ensures
        access::follows(*final(mem), *old(mem)),
        decode_ran(
            access::since(final(mem).trace(), old(mem).trace()),
            pid,
            address,
            num_instructions as nat,
            decoded_outcome(r),
        ),
{
    let ghost start = mem.trace();
    let size: usize = num_instructions * MAX_INSTRUCTION;
    let mut buffer: Vec<u8> = vec![0u8; size];
    let result = mem.read(pid, address, buffer.as_mut_slice());
    let ghost event = mem.trace().last();
    assert(access::since(mem.trace(), start) =~= seq![event]);
    match result {
        Err(e) => Err(DisasmError::Read(e)),
        Ok(n) => {
            let code = slice_subrange(buffer.as_slice(), 0, n);
            assert(code@ =~= buffer@.take(n as int));
            match decode(code, address, num_instructions) {
                Ok(v) => Ok(v),
                Err(e) => Err(DisasmError::Decode(e)),
            }
        },
    }
}

impl Instruction {
    /// This is how a decoded instruction is shown. One without a name is shown as `???`.
    pub open spec fn shows(self, d: DecodedView) -> bool {
        &&& self.address@ == text::address(d.address)
        &&& self.bytes@ == hex::hex_text(d.bytes)
        &&& self.mnemonic@ == match d.mnemonic {
            Some(s) => s,
            None => "???"@,
        }
        &&& self.op_str@ == match d.op_str {
            Some(s) => s,
            None => Seq::empty(),
        }
    }
}

/// Each decoded instruction is shown, in order.
pub open spec fn shows_all(v: Seq<Instruction>, d: Seq<DecodedView>) -> bool {
    v.len() == d.len() && forall|i: int| 0 <= i < v.len() ==> (#[trigger] v[i]).shows(d[i])
}

/// Decoded instructions as they are shown.
pub fn show_instructions(decoded: &Vec<Decoded>) -> (r: Vec<Instruction>)
    ensures
        shows_all(r@, decoded_views(decoded@)),
{
    let mut r: Vec<Instruction> = Vec::new();
    let mut i: usize = 0;
    while i < decoded.len()
        invariant
            i <= decoded@.len(),
            r@.len() == i,
            forall|k: int| 0 <= k < i ==> (#[trigger] r@[k]).shows(decoded@[k]@),
        decreases decoded@.len() - i,
    {
        let d = &decoded[i];
        let mnemonic = match &d.mnemonic {
            Some(s) => s.clone(),
            None => "???".to_string(),
        };
        let op_str = match &d.op_str {
            Some(s) => s.clone(),
            None => String::new(),
        };
        assert(d.op_str is None ==> op_str@ =~= Seq::empty());
        r.push(
            Instruction {
                address: address_text(d.address),
                bytes: hex_encode(d.bytes.as_slice()),
                mnemonic,
                op_str,
            },
        );
        i += 1;
    }
    r
}

/// What disassembling came to, given what decoding came to.
pub open spec fn disassembled(
    r: Result<Vec<Instruction>, DisasmError>,
    decoded: Result<Seq<DecodedView>, DisasmErrorView>,
) -> bool {
    match decoded {
        Ok(d) => r matches Ok(v) && shows_all(v@, d),
        Err(e) => r matches Err(f) && f@ == e,
    }
}

/// Reads code of a process and shows its instructions.
pub fn disassemble_at<M: MemoryAccess>(
    mem: &mut M,
    pid: u32,
    address: u64,
    num_instructions: usize,
) -> (r: Result<Vec<Instruction>, DisasmError>)
    requires
        num_instructions * MAX_INSTRUCTION <= usize::MAX,
    ensures
        access::follows(*final(mem), *old(mem)),
        exists|d: Result<Seq<DecodedView>, DisasmErrorView>| #[trigger]
            decode_ran(
                access::since(final(mem).trace(), old(mem).trace()),
                pid,
                address,
                num_instructions as nat,
                d,
            ) && disassembled(r, d),
{
    let result = decode_at(mem, pid, address, num_instructions);
    let ghost d = decoded_outcome(result);
    let r = match result {
        Ok(v) => Ok(show_instructions(&v)),
        Err(e) => Err(e),
    };
    assert(disassembled(r, d));
    r
}

/// The first instruction as one line: its name and its operands.
pub fn first_line(decoded: &Vec<Decoded>) -> (r: Option<String>)
    ensures
        match r {
            None => decoded@.len() == 0,
            Some(s) => decoded@.len() > 0 && s@ == match decoded@[0]@.mnemonic {
                Some(m) => m,
                None => "???"@,
            } + " "@ + match decoded@[0]@.op_str {
                Some(o) => o,
                None => Seq::empty(),
            },
        },
{
    if decoded.len() == 0 {
        return None;
    }
    let shown = show_instructions(decoded);
    assert(shown@[0].shows(decoded_views(decoded@)[0]));
    let mut s = shown[0].mnemonic.clone();
    s.append(" ");
    s.append(shown[0].op_str.as_str());
    Some(s)
}

/// Code is decoded from one read at the address, of fifteen bytes for each instruction, and from
/// no more than that read gave; a read that fails is what the error says.
pub proof fn code_is_read_at_the_address(
    events: Seq<MemEvent>,
    pid: u32,
    address: u64,
    count: nat,
    result: Result<Seq<DecodedView>, DisasmErrorView>,
)
    requires
        decode_ran(events, pid, address, count, result),
    ensures
        events.len() == 1,
        events[0] is Read,
        events[0]->Read_pid == pid,
        events[0]->Read_address == address,
        events[0]->wanted == 15 * count,
        events[0]->Read_outcome matches Err(e) ==> result == Err::<Seq<DecodedView>, _>(
            DisasmErrorView::Read(e),
        ),
        result matches Ok(v) ==> (events[0]->Read_outcome matches Ok((n, buffer)) && v == decoding(
            buffer.take(n as int),
            address,
            count,
        )),
{
}

/// An instruction is shown with its address, its bytes, its name and its operands; `???` stands
/// for a name that there is none of, and nothing for missing operands.
pub proof fn instructions_are_shown_whole(i: Instruction, d: DecodedView)
    requires
        i.shows(d),
    ensures
        i.address@ == text::address(d.address),
        hex::text_bytes(i.bytes@) == Ok::<_, (Seq<char>, text::IntError)>(d.bytes),
        d.mnemonic matches Some(s) ==> i.mnemonic@ == s,
        d.mnemonic is None ==> i.mnemonic@ == "???"@,
        d.op_str matches Some(s) ==> i.op_str@ == s,
        d.op_str is None ==> i.op_str@.len() == 0,
{
    hex::hex_round_trip(d.bytes);
}

} // verus!
