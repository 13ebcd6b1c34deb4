//! What the command line shows of replies.

use crate::mem::hex;
use crate::scan::pointer::PointerLink;
use crate::text;
use crate::text::{
    join, parse_number, part, push_address, push_byte_hex, push_padded_hex, to_chars,
};
use vstd::prelude::*;

verus! {

// ─── Hex dump ───────────────────────────────────────────────────────────────

/// How many bytes a line of a dump shows.
pub const DUMP_WIDTH: usize = 16;

/// What stands for byte `j` in a line of a dump: its digits or blanks, with a gap in the
/// middle of the line.
pub open spec fn cell(chunk: Seq<u8>, j: int) -> Seq<char> {
    let gap = if j == 8 {
        " "@
    } else {
        Seq::empty()
    };
    gap + if j < chunk.len() {
        text::byte_hex(chunk[j]) + " "@
    } else {
        "   "@
    }
}

/// The first `n` cells of a line.
pub open spec fn cells(chunk: Seq<u8>, n: nat) -> Seq<char>
    decreases n,
{
    if n == 0 {
        Seq::empty()
    } else {
        cells(chunk, (n - 1) as nat) + cell(chunk, n - 1)
    }
}

/// The character that a byte stands for; a dot where it is not printable.
pub open spec fn glyph(b: u8) -> char {
    if 0x20 <= b <= 0x7e {
        b as char
    } else {
        '.'
    }
}

/// The characters that bytes stand for.
pub open spec fn glyphs(chunk: Seq<u8>) -> Seq<char> {
    Seq::new(chunk.len(), |i: int| glyph(chunk[i]))
}

/// A line of a dump: address, bytes and characters.
pub open spec fn dump_line(address: nat, chunk: Seq<u8>) -> Seq<char> {
    text::padded_hex(address, 16) + "  "@ + cells(chunk, DUMP_WIDTH as nat) + " |"@ + glyphs(chunk)
        + "|\n"@
}

/// The bytes of line `i` of a dump.
pub open spec fn dump_chunk(data: Seq<u8>, i: int) -> Seq<u8> {
    data.subrange(
        i * DUMP_WIDTH,
        if (i + 1) * DUMP_WIDTH <= data.len() {
            (i + 1) * DUMP_WIDTH
        } else {
            data.len() as int
        },
    )
}

/// The first `n` lines of a dump.
pub open spec fn dump_lines(base: u64, data: Seq<u8>, n: nat) -> Seq<char>
    decreases n,
{
    if n == 0 {
        Seq::empty()
    } else {
        dump_lines(base, data, (n - 1) as nat) + dump_line(
            (base + (n - 1) * DUMP_WIDTH) as nat,
            dump_chunk(data, n - 1),
        )
    }
}

/// How many lines a dump has.
pub open spec fn dump_height(len: nat) -> nat {
    (len + DUMP_WIDTH - 1) as nat / DUMP_WIDTH as nat
}

fn push_cells(out: &mut String, chunk: &[u8])
    ensures
        final(out)@ == old(out)@ + cells(chunk@, DUMP_WIDTH as nat),
{
    let ghost start = out@;
    let mut j: usize = 0;
    assert(start + cells(chunk@, 0) =~= start);
    while j < DUMP_WIDTH
        invariant
            j <= DUMP_WIDTH,
            out@ == start + cells(chunk@, j as nat),
        decreases DUMP_WIDTH - j,
    {
        let ghost before = out@;
        if j == 8 {
            out.append(" ");
        } else {
            assert(before + Seq::empty() =~= before);
        }
        if j < chunk.len() {
            push_byte_hex(out, chunk[j]);
            out.append(" ");
        } else {
            out.append("   ");
        }
        j += 1;
        assert(out@ =~= before + cell(chunk@, j - 1));
        assert(out@ =~= start + cells(chunk@, j as nat));
    }
}

fn push_glyphs(out: &mut String, chunk: &[u8])
    ensures
        final(out)@ == old(out)@ + glyphs(chunk@),
{
    let ghost start = out@;
    let mut i: usize = 0;
    assert(start + glyphs(chunk@).take(0) =~= start);
    while i < chunk.len()
        invariant
            i <= chunk@.len(),
            out@ == start + glyphs(chunk@).take(i as int),
        decreases chunk@.len() - i,
    {
        let b: u8 = chunk[i];
        let c = if 0x20 <= b && b <= 0x7e {
            b as char
        } else {
            '.'
        };
        out.push(c);
        i += 1;
        assert(out@ =~= start + glyphs(chunk@).take(i as int));
    }
    assert(glyphs(chunk@).take(chunk@.len() as int) =~= glyphs(chunk@));
}

/// A dump of memory: lines of 16 bytes, each with its address, its bytes in hexadecimal and
/// its characters.
pub fn hex_dump(base_addr: u64, data: &[u8]) -> (r: String)
    requires
        data@.len() > 0 ==> base_addr + (dump_height(data@.len()) - 1) * DUMP_WIDTH <= u64::MAX,
    ensures
        r@ == dump_lines(base_addr, data@, dump_height(data@.len())),
{
    let mut out = String::new();
    let mut at: usize = 0;
    let ghost mut n: nat = 0;
    assert(out@ =~= dump_lines(base_addr, data@, 0));
    assert(data@.len() == 0 ==> dump_height(data@.len()) == 0);
    while at < data.len()
        invariant
            base_addr + (dump_height(data@.len()) - 1) * DUMP_WIDTH <= u64::MAX,
            at <= data@.len(),
            at == if n * DUMP_WIDTH <= data@.len() {
                n * DUMP_WIDTH
            } else {
                data@.len() as int
            },
            at < data@.len() ==> at == n * DUMP_WIDTH,
            (n - 1) * DUMP_WIDTH < data@.len() || n == 0,
            out@ == dump_lines(base_addr, data@, n),
        decreases data@.len() - at,
    {
        let to: usize = if data.len() - at <= DUMP_WIDTH {
            data.len()
        } else {
            at + DUMP_WIDTH
        };
        let chunk = vstd::slice::slice_subrange(data, at, to);
        let ghost before = out@;
        proof {
            assert((n + 1) * DUMP_WIDTH == n * DUMP_WIDTH + DUMP_WIDTH) by (nonlinear_arith);
            assert(chunk@ =~= dump_chunk(data@, n as int));
            assert(n <= dump_height(data@.len()) - 1);
            assert(at <= (dump_height(data@.len()) - 1) * DUMP_WIDTH);
        }
        push_padded_hex(&mut out, base_addr + at as u64, 16);
        out.append("  ");
        push_cells(&mut out, chunk);
        out.append(" |");
        push_glyphs(&mut out, chunk);
        out.append("|\n");
        proof {
            assert(out@ =~= before + dump_line((base_addr + n * DUMP_WIDTH) as nat, chunk@));
            n = n + 1;
        }
        at = to;
    }
    proof {
        assert(n == dump_height(data@.len())) by {
            let w = DUMP_WIDTH as int;
            let len = data@.len() as int;
            assert(n * w >= len);
            assert(n == 0 || (n - 1) * w < len);
            assert(n == (len + w - 1) / w) by (nonlinear_arith)
                requires
                    w == 16,
                    n * w >= len,
                    n == 0 || (n - 1) * w < len,
                    n >= 0,
                    len >= 0,
            ;
        }
    }
    out
}

// ─── Fields of replies ──────────────────────────────────────────────────────

/// The names of types as one text, with bars between them; a question mark where there are
/// none to read.
pub fn format_types(types: &Option<Vec<String>>) -> (r: String)
    ensures
        r@ == match types {
            Some(v) => text::joined(text::texts(v@), "|"@),
            None => "?"@,
        },
{
    match types {
        Some(v) => join(v, "|"),
        None => "?".to_string(),
    }
}

/// A text without the `0x` before it, however often it stands there.
pub open spec fn bare(s: Seq<char>) -> Seq<char>
    decreases s.len(),
{
    if s.len() >= 2 && s[0] == '0' && s[1] == 'x' {
        bare(s.skip(2))
    } else {
        s
    }
}

/// The address in a reply; 0 where it is none.
pub fn reply_address(s: &str) -> (r: u64)
    ensures
        r == match text::number(bare(s@), 16, u64::MAX as nat) {
            Ok(n) => n as u64,
            Err(_) => 0,
        },
{
    let chars = to_chars(s);
    let mut from: usize = 0;
    assert(chars@.skip(0) =~= chars@);
    while chars.len() - from >= 2 && chars[from] == '0' && chars[from + 1] == 'x'
        invariant
            from <= chars@.len(),
            bare(chars@) == bare(chars@.skip(from as int)),
        decreases chars@.len() - from,
    {
        assert(chars@.skip(from as int).skip(2) =~= chars@.skip(from + 2));
        from += 2;
    }
    let rest = part(chars.as_slice(), from, chars.len());
    assert(rest@ =~= chars@.skip(from as int));
    match parse_number(rest.as_slice(), 16, u64::MAX) {
        Ok(n) => n,
        Err(_) => 0,
    }
}

/// The bytes that pairs of digits stand for; pairs that are none are passed over.
pub open spec fn pair_bytes(s: Seq<char>) -> Seq<u8>
    decreases s.len(),
{
    if s.len() < 2 {
        Seq::empty()
    } else {
        let before = pair_bytes(s.take(s.len() - 2));
        match text::number(s.skip(s.len() - 2), 16, 255) {
            Ok(n) => before.push(n as u8),
            Err(_) => before,
        }
    }
}

/// The bytes in a reply, two digits each.
pub fn reply_bytes(hex: &str) -> (r: Vec<u8>)
    requires
        hex@.len() % 2 == 0,
    ensures
        r@ == pair_bytes(hex@),
{
    let chars = to_chars(hex);
    let mut out: Vec<u8> = Vec::new();
    let mut i: usize = 0;
    assert(out@ =~= pair_bytes(chars@.take(0)));
    while i < chars.len()
        invariant
            i <= chars@.len(),
            i % 2 == 0,
            chars@.len() % 2 == 0,
            out@ == pair_bytes(chars@.take(i as int)),
        decreases chars@.len() - i,
    {
        let pair = part(chars.as_slice(), i, i + 2);
        proof {
            let sofar = chars@.take(i + 2);
            assert(sofar.take(sofar.len() - 2) =~= chars@.take(i as int));
            assert(sofar.skip(sofar.len() - 2) =~= pair@);
        }
        if let Ok(n) = parse_number(pair.as_slice(), 16, 255) {
            out.push(n as u8);
        }
        i += 2;
    }
    assert(chars@.take(chars@.len() as int) =~= chars@);
    out
}

/// The steps of a chain as text. A negative offset is shown by its bits.
pub open spec fn steps_text(links: Seq<PointerLink>) -> Seq<char>
    decreases links.len(),
{
    if links.len() == 0 {
        Seq::empty()
    } else {
        steps_text(links.drop_last()) + " -> [+"@ + text::address(bits_of(links.last().offset))
            + "]"@
    }
}

/// The bits of a signed number.
pub open spec fn bits_of(n: i64) -> u64 {
    if n < 0 {
        (n + 0x1_0000_0000_0000_0000) as u64
    } else {
        n as u64
    }
}

/// A pointer chain as text: module, offset and steps.
pub fn chain_text(module: &str, offset: u64, links: &Vec<PointerLink>) -> (r: String)
    ensures
        r@ == module@ + "+"@ + text::address(offset) + steps_text(links@),
{
    let mut out = module.to_string();
    out.append("+");
    push_address(&mut out, offset);
    let ghost start = out@;
    let mut i: usize = 0;
    assert(start + steps_text(links@.take(0)) =~= start);
    while i < links.len()
        invariant
            i <= links@.len(),
            out@ == start + steps_text(links@.take(i as int)),
        decreases links@.len() - i,
    {
        let ghost before = out@;
        let n: i64 = links[i].offset;
        let bits: u64 = if n < 0 {
            (n as i128 + 0x1_0000_0000_0000_0000) as u64
        } else {
            n as u64
        };
        out.append(" -> [+");
        push_address(&mut out, bits);
        out.append("]");
        proof {
            assert(links@.take(i + 1).drop_last() =~= links@.take(i as int));
            assert(links@.take(i + 1).last() == links@[i as int]);
            assert(out@ =~= start + steps_text(links@.take(i + 1)));
        }
        i += 1;
    }
    assert(links@.take(links@.len() as int) =~= links@);
    out
}

// ─── Laws ───────────────────────────────────────────────────────────────────

/// Where the digits of byte `j` stand among the cells of a line: three places for each byte
/// before it, and one more from the middle on.
pub open spec fn cell_place(j: int) -> int {
    if j < 8 {
        3 * j
    } else {
        3 * j + 1
    }
}

proof fn lemma_cells(chunk: Seq<u8>, n: nat, j: int)
    requires
        j < n,
        0 <= j < chunk.len(),
    ensures
        cells(chunk, n).len() == if n <= 8 {
            3 * n
        } else {
            3 * n + 1
        },
        cells(chunk, n)[cell_place(j)] == text::byte_hex(chunk[j])[0],
        cells(chunk, n)[cell_place(j) + 1] == text::byte_hex(chunk[j])[1],
        cells(chunk, n)[cell_place(j) + 2] == ' ',
    decreases n,
{
    reveal_strlit(" ");
    reveal_strlit("   ");
    let before = cells(chunk, (n - 1) as nat);
    lemma_cells_len(chunk, (n - 1) as nat);
    if j < n - 1 {
        lemma_cells(chunk, (n - 1) as nat, j);
        assert(cells(chunk, n)[cell_place(j)] == before[cell_place(j)]);
        assert(cells(chunk, n)[cell_place(j) + 1] == before[cell_place(j) + 1]);
        assert(cells(chunk, n)[cell_place(j) + 2] == before[cell_place(j) + 2]);
    } else {
        let last = cell(chunk, j);
        let at = cell_place(j) - before.len();
        assert(last[at] == text::byte_hex(chunk[j])[0]);
        assert(cells(chunk, n)[cell_place(j)] == last[at]);
        assert(cells(chunk, n)[cell_place(j) + 1] == last[at + 1]);
        assert(cells(chunk, n)[cell_place(j) + 2] == last[at + 2]);
    }
}

proof fn lemma_cells_len(chunk: Seq<u8>, n: nat)
    ensures
        cells(chunk, n).len() == if n <= 8 {
            3 * n
        } else {
            3 * n + 1
        },
    decreases n,
{
    reveal_strlit(" ");
    reveal_strlit("   ");
    if n > 0 {
        lemma_cells_len(chunk, (n - 1) as nat);
    }
}

/// A line of a dump shows sixteen digits of the address, then the two digits of each byte in its
/// place, and then each byte once more as the character that it is, or as a dot.
pub proof fn dump_lines_show_each_byte(address: nat, chunk: Seq<u8>, j: int)
    requires
        0 <= j < chunk.len() <= 16,
    ensures
        ({
            let line = dump_line(address, chunk);
            &&& line.take(16) == text::padded_hex(address, 16)
            &&& line[18 + cell_place(j)] == "0123456789abcdef"@[chunk[j] as int / 16]
            &&& line[18 + cell_place(j) + 1] == "0123456789abcdef"@[chunk[j] as int % 16]
            &&& line.len() == 18 + 49 + 2 + chunk.len() + 2
            &&& line[69 + j] == if 0x20 <= chunk[j] <= 0x7e {
                chunk[j] as char
            } else {
                '.'
            }
            &&& line.last() == '\n'
        }),
{
    reveal_strlit("  ");
    reveal_strlit(" |");
    reveal_strlit("|\n");
    lemma_cells(chunk, 16, j);
    lemma_padded_len(address, 16);
    text::bytes_have_two_digits(chunk[j]);
    let line = dump_line(address, chunk);
    assert(line.take(16) =~= text::padded_hex(address, 16));
    assert(line[18 + cell_place(j)] == cells(chunk, 16)[cell_place(j)]);
    assert(line[18 + cell_place(j) + 1] == cells(chunk, 16)[cell_place(j) + 1]);
    assert(line[69 + j] == glyphs(chunk)[j]);
}

proof fn lemma_padded_len(n: nat, width: nat)
    ensures
        text::padded_hex(n, width).len() == width,
    decreases width,
{
    if width > 0 {
        lemma_padded_len(n / 16, (width - 1) as nat);
    }
}

/// A dump has a line for every sixteen bytes, and byte `i` stands in line `i / 16` at place
/// `i % 16`.
pub proof fn dumps_leave_no_byte_out(data: Seq<u8>, i: int)
    requires
        0 <= i < data.len(),
    ensures
        i / 16 < dump_height(data.len()),
        i % 16 < dump_chunk(data, i / 16).len() <= 16,
        dump_chunk(data, i / 16)[i % 16] == data[i],
        16 * (dump_height(data.len()) - 1) < data.len() <= 16 * dump_height(data.len()),
{
    let k = i / 16;
    assert(k * DUMP_WIDTH == 16 * k);
    assert((k + 1) * DUMP_WIDTH == 16 * k + 16);
}

/// Line `i` of a dump stands behind the lines before it and begins at the address of its first
/// byte.
pub proof fn dump_lines_follow_each_other(base: u64, data: Seq<u8>, i: nat)
    ensures
        dump_lines(base, data, i + 1) == dump_lines(base, data, i) + dump_line(
            base as nat + 16 * i,
            dump_chunk(data, i as int),
        ),
{
    assert(((i + 1) - 1) * DUMP_WIDTH == 16 * i);
}

/// An address that a reply shows is read back.
pub proof fn reply_addresses_are_read_back(n: u64)
    ensures
        text::number(bare(text::address(n)), 16, u64::MAX as nat) == Ok::<nat, text::IntError>(
            n as nat,
        ),
{
    reveal_strlit("0x");
    let s = text::address(n);
    let digits = text::numeral(n as nat, 16);
    text::numerals_are_read_back(n as nat, 16, u64::MAX as nat);
    crate::rpc::params::lemma_no_prefix_in_digits(n as nat);
    assert(s[0] == '0' && s[1] == 'x');
    assert(s.skip(2) =~= digits);
    assert(bare(digits) == digits) by {
        if digits.len() >= 2 {
            assert(digits[1] != 'x');
        }
    }
    assert(bare(s) == bare(s.skip(2)));
}

/// Bytes that a reply shows as a run of digits are read back.
pub proof fn reply_bytes_are_read_back(bytes: Seq<u8>)
    ensures
        pair_bytes(hex::hex_run(bytes)) == bytes,
    decreases bytes.len(),
{
    let s = hex::hex_run(bytes);
    if bytes.len() > 0 {
        let rest = bytes.drop_last();
        let b = bytes.last();
        reply_bytes_are_read_back(rest);
        assert(s.take(s.len() - 2) =~= hex::hex_run(rest));
        assert(s.skip(s.len() - 2) =~= text::byte_hex(b));
        hex::lemma_byte_is_number(b);
        assert(rest.push(b) =~= bytes);
    }
}

/// A step shows its offset in 64 bits: a negative one by what is added to it modulo 2^64.
pub proof fn steps_show_offsets_in_64_bits(links: Seq<PointerLink>, link: PointerLink)
    ensures
        steps_text(links.push(link)) == steps_text(links) + " -> [+0x"@ + text::numeral(
            (link.offset as int % 0x1_0000_0000_0000_0000) as nat,
            16,
        ) + "]"@,
{
    reveal_strlit(" -> [+0x");
    reveal_strlit(" -> [+");
    reveal_strlit("0x");
    assert(links.push(link).drop_last() =~= links);
    assert(" -> [+0x"@ =~= " -> [+"@ + "0x"@);
    let digits = text::numeral((link.offset as int % 0x1_0000_0000_0000_0000) as nat, 16);
    assert(steps_text(links.push(link)) =~= steps_text(links) + " -> [+0x"@ + digits + "]"@);
}

} // verus!
