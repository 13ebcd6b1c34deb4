//! Parsing of `/proc/[pid]/maps` and the safety class of each region.
//!
//! The class decides what may be done with a region. Only a [`RegionSafety::Safe`] region is
//! ever written; a [`RegionSafety::NeverTouch`] one is not even read.

use crate::text;
use crate::text::{
    begins, drop_empty, ends, find, from_chars, is, lines, mentions, parse_number, part,
    split_at_most, to_chars, to_lower, trim, Separator,
};
use vstd::prelude::*;

verus! {

/// What may be done with a memory region.
#[derive(Clone, Copy, Debug, PartialEq, Eq, Hash, Structural)]
pub enum RegionSafety {
    /// Windows heap and data sections: may be scanned and written.
    Safe,
    /// Code and read-only data: may be scanned.
    ReadOnly,
    /// Heaps of the graphics translation layers and driver data: may be scanned, with low
    /// confidence.
    Risky,
    /// Device mappings and shared memory: left alone.
    NeverTouch,
}

impl RegionSafety {
    /// The class's name.
    pub open spec fn says(self) -> Seq<char> {
        match self {
            RegionSafety::Safe => "Safe"@,
            RegionSafety::ReadOnly => "ReadOnly"@,
            RegionSafety::Risky => "Risky"@,
            RegionSafety::NeverTouch => "NeverTouch"@,
        }
    }

    /// Whether such a region may be scanned.
    #[must_use]
    pub fn can_scan(self) -> (r: bool)
        ensures
            r == (self != RegionSafety::NeverTouch),
    {
        matches!(self, RegionSafety::Safe | RegionSafety::ReadOnly | RegionSafety::Risky)
    }

    /// Whether such a region may be written.
    #[must_use]
    pub fn can_write(self) -> (r: bool)
        ensures
            r == (self == RegionSafety::Safe),
    {
        matches!(self, RegionSafety::Safe)
    }

    /// The class's name.
    pub fn name(self) -> (r: String)
        ensures
            r@ == self.says(),
    {
        match self {
            RegionSafety::Safe => "Safe".to_string(),
            RegionSafety::ReadOnly => "ReadOnly".to_string(),
            RegionSafety::Risky => "Risky".to_string(),
            RegionSafety::NeverTouch => "NeverTouch".to_string(),
        }
    }
}

/// The permissions of a region.
#[derive(Clone, Copy, Debug, PartialEq, Eq, Structural)]
pub struct Permissions {
    /// May be read.
    pub read: bool,
    /// May be written.
    pub write: bool,
    /// May be executed.
    pub execute: bool,
    /// Shared (`s`) rather than private (`p`).
    pub shared: bool,
}

/// The permissions that a text of at least four bytes spells.
pub open spec fn permissions_of(s: Seq<char>) -> Permissions {
    let b = vstd::utf8::encode_utf8(s);
    Permissions {
        read: b[0] == 0x72,
        write: b[1] == 0x77,
        execute: b[2] == 0x78,
        shared: b[3] == 0x73,
    }
}

impl Permissions {
    /// The four letters that the permissions are shown as.
    pub open spec fn letters(self) -> Seq<char> {
        seq![
            if self.read { 'r' } else { '-' },
            if self.write { 'w' } else { '-' },
            if self.execute { 'x' } else { '-' },
            if self.shared { 's' } else { 'p' },
        ]
    }

    /// Reads permissions like `rw-p`. What follows the fourth byte is ignored.
    pub fn parse(s: &str) -> (r: Result<Permissions, MapsError>)
        ensures
            match r {
                Ok(p) => vstd::utf8::encode_utf8(s@).len() >= 4 && p == permissions_of(s@),
                Err(e) => vstd::utf8::encode_utf8(s@).len() < 4 && e@ == (
                    MapsProblem::ShortPermissions,
                    s@,
                ),
            },
    {
        let b = s.as_bytes();
        if b.len() < 4 {
            return Err(
                MapsError { problem: MapsProblem::ShortPermissions, text: s.to_string() },
            );
        }
        Ok(
            Permissions {
                read: b[0] == 0x72,
                write: b[1] == 0x77,
                execute: b[2] == 0x78,
                shared: b[3] == 0x73,
            },
        )
    }

    /// The permissions as text like `rw-p`.
    #[must_use]
    pub fn as_str(&self) -> (r: String)
        ensures
            r@ == self.letters(),
    {
        let mut r = String::new();
        r.push(if self.read { 'r' } else { '-' });
        r.push(if self.write { 'w' } else { '-' });
        r.push(if self.execute { 'x' } else { '-' });
        r.push(if self.shared { 's' } else { 'p' });
        assert(r@ =~= self.letters());
        r
    }
}

/// Permissions that were shown are read back as they were.
pub proof fn permissions_are_read_back(p: Permissions)
    ensures
        vstd::utf8::encode_utf8(p.letters()).len() == 4,
        permissions_of(p.letters()) == p,
{
    let s = p.letters();
    assert(vstd::utf8::is_ascii_chars(s));
    vstd::utf8::is_ascii_chars_encode_utf8(s);
    assert(s[0] as u8 == vstd::utf8::encode_utf8(s)[0]);
    assert(s[1] as u8 == vstd::utf8::encode_utf8(s)[1]);
    assert(s[2] as u8 == vstd::utf8::encode_utf8(s)[2]);
    assert(s[3] as u8 == vstd::utf8::encode_utf8(s)[3]);
}

/// What is wrong with a line of a memory map.
#[derive(Clone, Copy, Debug, PartialEq, Eq, Structural)]
pub enum MapsProblem {
    /// Fewer than five fields.
    Malformed,
    /// The first field has no `-`.
    MissingDash,
    /// The start address is not a hexadecimal number.
    InvalidStart,
    /// The end address is not a hexadecimal number.
    InvalidEnd,
    /// The permissions are too short.
    ShortPermissions,
    /// The offset is not a hexadecimal number.
    InvalidOffset,
    /// The inode is not a decimal number.
    InvalidInode,
    /// The region ends before it starts.
    Inverted,
}

/// A line of a memory map that could not be read.
#[derive(Clone, Debug)]
pub struct MapsError {
    /// What is wrong.
    pub problem: MapsProblem,
    /// The text that is at fault.
    pub text: String,
}

impl View for MapsError {
    type V = (MapsProblem, Seq<char>);

    open spec fn view(&self) -> (MapsProblem, Seq<char>) {
        (self.problem, self.text@)
    }
}

/// What a maps error says.
pub open spec fn maps_message(e: (MapsProblem, Seq<char>)) -> Seq<char> {
    match e.0 {
        MapsProblem::Malformed => "malformed maps line: '"@ + e.1 + "'"@,
        MapsProblem::MissingDash => "missing '-' in address range"@,
        MapsProblem::InvalidStart => "invalid start address: '"@ + e.1 + "'"@,
        MapsProblem::InvalidEnd => "invalid end address: '"@ + e.1 + "'"@,
        MapsProblem::ShortPermissions => "permissions string too short: '"@ + e.1 + "'"@,
        MapsProblem::InvalidOffset => "invalid offset: '"@ + e.1 + "'"@,
        MapsProblem::InvalidInode => "invalid inode: '"@ + e.1 + "'"@,
        MapsProblem::Inverted => "region ends before it starts: '"@ + e.1 + "'"@,
    }
}

fn quoted(before: &str, s: &str) -> (r: String)
    ensures
        r@ == before@ + s@ + "'"@,
{
    let mut r = before.to_string();
    r.append(s);
    r.append("'");
    r
}

impl MapsError {
    /// What the error says.
    pub fn message(&self) -> (r: String)
        ensures
            r@ == maps_message(self@),
    {
        let s = self.text.as_str();
        match self.problem {
            MapsProblem::Malformed => quoted("malformed maps line: '", s),
            MapsProblem::MissingDash => "missing '-' in address range".to_string(),
            MapsProblem::InvalidStart => quoted("invalid start address: '", s),
            MapsProblem::InvalidEnd => quoted("invalid end address: '", s),
            MapsProblem::ShortPermissions => quoted("permissions string too short: '", s),
            MapsProblem::InvalidOffset => quoted("invalid offset: '", s),
            MapsProblem::InvalidInode => quoted("invalid inode: '", s),
            MapsProblem::Inverted => quoted("region ends before it starts: '", s),
        }
    }
}

/// A region of a process's memory map.
#[derive(Clone, Debug, PartialEq, Eq)]
pub struct MapRegion {
    /// First address.
    pub start: u64,
    /// First address after the region.
    pub end: u64,
    /// Permissions.
    pub permissions: Permissions,
    /// Offset in the backing file.
    pub offset: u64,
    /// Device of the backing file.
    pub device: String,
    /// Inode of the backing file.
    pub inode: u64,
    /// Path of the backing file, a label in square brackets, or nothing.
    pub pathname: String,
    /// Safety class.
    pub safety: RegionSafety,
}

/// A [`MapRegion`] as a mathematical value.
pub struct RegionView {
    /// First address.
    pub start: u64,
    /// First address after the region.
    pub end: u64,
    /// Permissions.
    pub permissions: Permissions,
    /// Offset in the backing file.
    pub offset: u64,
    /// Device of the backing file.
    pub device: Seq<char>,
    /// Inode of the backing file.
    pub inode: u64,
    /// Path of the backing file, a label in square brackets, or nothing.
    pub pathname: Seq<char>,
    /// Safety class.
    pub safety: RegionSafety,
}

impl View for MapRegion {
    type V = RegionView;

    open spec fn view(&self) -> RegionView {
        RegionView {
            start: self.start,
            end: self.end,
            permissions: self.permissions,
            offset: self.offset,
            device: self.device@,
            inode: self.inode,
            pathname: self.pathname@,
            safety: self.safety,
        }
    }
}

/// The mathematical values of a list of regions.
pub open spec fn region_views(v: Seq<MapRegion>) -> Seq<RegionView> {
    Seq::new(v.len(), |i: int| v[i]@)
}

impl RegionView {
    /// How many bytes the region spans; 0 where it ends before it starts.
    pub open spec fn span(self) -> nat {
        if self.start <= self.end {
            (self.end - self.start) as nat
        } else {
            0
        }
    }
}

impl MapRegion {
    /// How many bytes the region spans.
    #[must_use]
    pub fn size(&self) -> (r: u64)
        requires
            self.start <= self.end,
        ensures
            r == self.end - self.start,
    {
        self.end - self.start
    }

    /// Whether no file backs the region.
    #[must_use]
    pub fn is_anonymous(&self) -> (r: bool)
        ensures
            r == (self.pathname@.len() == 0),
    {
        let name = to_chars(self.pathname.as_str());
        name.len() == 0
    }

    /// A copy of the region.
    pub fn copy(&self) -> (r: MapRegion)
        ensures
            r@ == self@,
    {
        MapRegion {
            start: self.start,
            end: self.end,
            permissions: self.permissions,
            offset: self.offset,
            device: self.device.clone(),
            inode: self.inode,
            pathname: self.pathname.clone(),
            safety: self.safety,
        }
    }
}

// ─── Classification ─────────────────────────────────────────────────────────

/// The path of one of the layers that turn Direct3D into Vulkan.
pub open spec fn translation_layer(lower: Seq<char>) -> bool {
    ||| text::occurs(lower, "dxvk"@)
    ||| text::occurs(lower, "vkd3d"@)
    ||| text::occurs(lower, "d3d9"@)
    ||| text::occurs(lower, "d3d10"@)
    ||| text::occurs(lower, "d3d11"@)
    ||| text::occurs(lower, "d3d12"@)
    ||| text::occurs(lower, "dxgi"@)
}

/// The path of a shared library of a graphics driver.
pub open spec fn driver_library(lower: Seq<char>) -> bool {
    &&& ".so"@.is_suffix_of(lower) || text::occurs(lower, ".so."@)
    &&& {
        ||| text::occurs(lower, "vulkan"@)
        ||| text::occurs(lower, "mesa"@)
        ||| text::occurs(lower, "radeonsi"@)
        ||| text::occurs(lower, "amdgpu"@)
        ||| text::occurs(lower, "nvidia"@)
        ||| text::occurs(lower, "libvulkan"@)
    }
}

/// The path of one of Wine's own libraries.
pub open spec fn wine_library(lower: Seq<char>) -> bool {
    ||| text::occurs(lower, "ntdll.dll"@)
    ||| text::occurs(lower, "kernel32.dll"@)
    ||| text::occurs(lower, "kernelbase.dll"@)
    ||| text::occurs(lower, "user32.dll"@)
    ||| text::occurs(lower, "gdi32.dll"@)
    ||| text::occurs(lower, "advapi32.dll"@)
    ||| text::occurs(lower, "msvcrt.dll"@)
    ||| text::occurs(lower, "ucrtbase.dll"@)
    ||| text::occurs(lower, "ws2_32.dll"@)
    ||| text::occurs(lower, "ole32.dll"@)
    ||| text::occurs(lower, "oleaut32.dll"@)
    ||| text::occurs(lower, "rpcrt4.dll"@)
    ||| text::occurs(lower, "combase.dll"@)
    ||| text::occurs(lower, "sechost.dll"@)
    ||| text::occurs(lower, "bcrypt.dll"@)
    ||| text::occurs(lower, "crypt32.dll"@)
    ||| text::occurs(lower, "setupapi.dll"@)
    ||| text::occurs(lower, "version.dll"@)
    ||| text::occurs(lower, "imm32.dll"@)
    ||| text::occurs(lower, "winmm.dll"@)
    ||| text::occurs(lower, "dbghelp.dll"@)
    ||| text::occurs(lower, "xinput"@)
    ||| text::occurs(lower, "xaudio"@)
    ||| text::occurs(lower, "wined3d"@)
    ||| text::occurs(lower, "winevulkan"@)
    ||| text::occurs(lower, "winex11"@)
    ||| text::occurs(lower, "winewayland"@)
}

/// The class of a private writable region without a file.
pub open spec fn anonymous_class(label: Seq<char>, size: u64) -> RegionSafety {
    if "[stack"@.is_prefix_of(label) {
        RegionSafety::Risky
    } else if label == "[vdso]"@ || label == "[vvar]"@ || label == "[vsyscall]"@ {
        RegionSafety::ReadOnly
    } else if label == "[heap]"@ {
        RegionSafety::Safe
    } else if size < 4096 || size > 1_073_741_824 {
        RegionSafety::Risky
    } else {
        RegionSafety::Safe
    }
}

/// The class of a region; the first rule that applies decides.
pub open spec fn class_of(perms: Permissions, path: Seq<char>, size: u64) -> RegionSafety {
    let lower = text::lower_all(path);
    if perms.shared || "/dev/"@.is_prefix_of(path) || text::occurs(lower, "wineserver"@) {
        RegionSafety::NeverTouch
    } else if !perms.write {
        RegionSafety::ReadOnly
    } else if translation_layer(lower) || driver_library(lower) || wine_library(lower) {
        RegionSafety::Risky
    } else if path.len() == 0 || path[0] == '[' {
        anonymous_class(path, size)
    } else {
        RegionSafety::Safe
    }
}

/// A shared mapping is never touched, whatever its path.
pub proof fn shared_is_never_touched(perms: Permissions, path: Seq<char>, size: u64)
    requires
        perms.shared,
    ensures
        class_of(perms, path, size) == RegionSafety::NeverTouch,
{
}

/// A device mapping is never touched, whatever its permissions.
pub proof fn device_is_never_touched(perms: Permissions, path: Seq<char>, size: u64)
    requires
        "/dev/"@.is_prefix_of(path),
    ensures
        class_of(perms, path, size) == RegionSafety::NeverTouch,
{
}

/// A mapping of the wineserver is never touched, whatever its permissions.
pub proof fn wineserver_is_never_touched(perms: Permissions, path: Seq<char>, size: u64)
    requires
        text::occurs(text::lower_all(path), "wineserver"@),
    ensures
        class_of(perms, path, size) == RegionSafety::NeverTouch,
{
}

/// What cannot be written is read at most: it is never safe nor risky.
pub proof fn unwritable_is_read_at_most(perms: Permissions, path: Seq<char>, size: u64)
    requires
        !perms.write,
    ensures
        class_of(perms, path, size) == RegionSafety::ReadOnly || class_of(perms, path, size)
            == RegionSafety::NeverTouch,
{
}

/// A safe region is private and writable, no device, and belongs neither to the wineserver
/// nor to a graphics layer or driver nor to Wine itself.
pub proof fn safe_is_the_games_own(perms: Permissions, path: Seq<char>, size: u64)
    requires
        class_of(perms, path, size) == RegionSafety::Safe,
    ensures
        perms.write,
        !perms.shared,
        !"/dev/"@.is_prefix_of(path),
        !text::occurs(text::lower_all(path), "wineserver"@),
        !translation_layer(text::lower_all(path)),
        !driver_library(text::lower_all(path)),
        !wine_library(text::lower_all(path)),
{
}

/// A region whose path mentions a graphics translation layer or one of Wine's own libraries, in
/// any case, is never safe: it is risky, unless it may not be touched or written at all.
pub proof fn layers_and_wine_are_never_safe(
    perms: Permissions,
    path: Seq<char>,
    size: u64,
    word: Seq<char>,
)
    requires
        text::occurs(text::lower_all(path), word),
        ({
            ||| word == "dxvk"@
            ||| word == "vkd3d"@
            ||| word == "d3d9"@
            ||| word == "d3d10"@
            ||| word == "d3d11"@
            ||| word == "d3d12"@
            ||| word == "dxgi"@
            ||| word == "ntdll.dll"@
            ||| word == "kernel32.dll"@
            ||| word == "kernelbase.dll"@
            ||| word == "user32.dll"@
            ||| word == "gdi32.dll"@
            ||| word == "advapi32.dll"@
            ||| word == "msvcrt.dll"@
            ||| word == "ucrtbase.dll"@
            ||| word == "ws2_32.dll"@
            ||| word == "ole32.dll"@
            ||| word == "oleaut32.dll"@
            ||| word == "rpcrt4.dll"@
            ||| word == "combase.dll"@
            ||| word == "sechost.dll"@
            ||| word == "bcrypt.dll"@
            ||| word == "crypt32.dll"@
            ||| word == "setupapi.dll"@
            ||| word == "version.dll"@
            ||| word == "imm32.dll"@
            ||| word == "winmm.dll"@
            ||| word == "dbghelp.dll"@
            ||| word == "xinput"@
            ||| word == "xaudio"@
            ||| word == "wined3d"@
            ||| word == "winevulkan"@
            ||| word == "winex11"@
            ||| word == "winewayland"@
        }),
    ensures
        class_of(perms, path, size) != RegionSafety::Safe,
        perms.write && !perms.shared && !"/dev/"@.is_prefix_of(path) && !text::occurs(
            text::lower_all(path),
            "wineserver"@,
        ) ==> class_of(perms, path, size) == RegionSafety::Risky,
{
}

/// A region of a shared library whose path mentions a graphics driver, in any case, is never
/// safe: it is risky, unless it may not be touched or written at all.
pub proof fn drivers_are_never_safe(
    perms: Permissions,
    path: Seq<char>,
    size: u64,
    word: Seq<char>,
)
    requires
        ".so"@.is_suffix_of(text::lower_all(path)) || text::occurs(text::lower_all(path), ".so."@),
        text::occurs(text::lower_all(path), word),
        ({
            ||| word == "vulkan"@
            ||| word == "mesa"@
            ||| word == "radeonsi"@
            ||| word == "amdgpu"@
            ||| word == "nvidia"@
        }),
    ensures
        class_of(perms, path, size) != RegionSafety::Safe,
        perms.write && !perms.shared && !"/dev/"@.is_prefix_of(path) && !text::occurs(
            text::lower_all(path),
            "wineserver"@,
        ) ==> class_of(perms, path, size) == RegionSafety::Risky,
{
}

/// A private writable region of any other file is safe, whatever its size.
pub proof fn other_files_are_safe(perms: Permissions, path: Seq<char>, size: u64)
    requires
        perms.write,
        !perms.shared,
        path.len() > 0,
        path[0] != '[',
        !"/dev/"@.is_prefix_of(path),
        !text::occurs(text::lower_all(path), "wineserver"@),
        !text::occurs(text::lower_all(path), "dxvk"@),
        !text::occurs(text::lower_all(path), "vkd3d"@),
        !text::occurs(text::lower_all(path), "d3d9"@),
        !text::occurs(text::lower_all(path), "d3d10"@),
        !text::occurs(text::lower_all(path), "d3d11"@),
        !text::occurs(text::lower_all(path), "d3d12"@),
        !text::occurs(text::lower_all(path), "dxgi"@),
        !text::occurs(text::lower_all(path), "ntdll.dll"@),
        !text::occurs(text::lower_all(path), "kernel32.dll"@),
        !text::occurs(text::lower_all(path), "kernelbase.dll"@),
        !text::occurs(text::lower_all(path), "user32.dll"@),
        !text::occurs(text::lower_all(path), "gdi32.dll"@),
        !text::occurs(text::lower_all(path), "advapi32.dll"@),
        !text::occurs(text::lower_all(path), "msvcrt.dll"@),
        !text::occurs(text::lower_all(path), "ucrtbase.dll"@),
        !text::occurs(text::lower_all(path), "ws2_32.dll"@),
        !text::occurs(text::lower_all(path), "ole32.dll"@),
        !text::occurs(text::lower_all(path), "oleaut32.dll"@),
        !text::occurs(text::lower_all(path), "rpcrt4.dll"@),
        !text::occurs(text::lower_all(path), "combase.dll"@),
        !text::occurs(text::lower_all(path), "sechost.dll"@),
        !text::occurs(text::lower_all(path), "bcrypt.dll"@),
        !text::occurs(text::lower_all(path), "crypt32.dll"@),
        !text::occurs(text::lower_all(path), "setupapi.dll"@),
        !text::occurs(text::lower_all(path), "version.dll"@),
        !text::occurs(text::lower_all(path), "imm32.dll"@),
        !text::occurs(text::lower_all(path), "winmm.dll"@),
        !text::occurs(text::lower_all(path), "dbghelp.dll"@),
        !text::occurs(text::lower_all(path), "xinput"@),
        !text::occurs(text::lower_all(path), "xaudio"@),
        !text::occurs(text::lower_all(path), "wined3d"@),
        !text::occurs(text::lower_all(path), "winevulkan"@),
        !text::occurs(text::lower_all(path), "winex11"@),
        !text::occurs(text::lower_all(path), "winewayland"@),
        ".so"@.is_suffix_of(text::lower_all(path)) || text::occurs(text::lower_all(path), ".so."@)
            ==> {
            &&& !text::occurs(text::lower_all(path), "vulkan"@)
            &&& !text::occurs(text::lower_all(path), "mesa"@)
            &&& !text::occurs(text::lower_all(path), "radeonsi"@)
            &&& !text::occurs(text::lower_all(path), "amdgpu"@)
            &&& !text::occurs(text::lower_all(path), "nvidia"@)
        },
    ensures
        class_of(perms, path, size) == RegionSafety::Safe,
{
    if text::occurs(text::lower_all(path), "libvulkan"@) {
        reveal_strlit("libvulkan");
        reveal_strlit("vulkan");
        let lower = text::lower_all(path);
        let at = choose|at: int| text::occurs_at(lower, "libvulkan"@, at);
        assert(lower.subrange(at + 3, at + 9) =~= "vulkan"@) by {
            assert forall|i: int| 0 <= i < 6 implies lower.subrange(at + 3, at + 9)[i]
                == "vulkan"@[i] by {
                assert(lower.subrange(at, at + 9)[i + 3] == "libvulkan"@[i + 3]);
            }
        }
        assert(text::occurs_at(lower, "vulkan"@, at + 3));
    }
}

/// A private writable region without a file or a label is safe between a page and a gigabyte,
/// and risky where it is smaller or larger.
pub proof fn unnamed_memory_goes_by_size(perms: Permissions, path: Seq<char>, size: u64)
    requires
        perms.write,
        !perms.shared,
        path.len() == 0,
    ensures
        class_of(perms, path, size) == if 4096 <= size <= 1024 * 1024 * 1024 {
            RegionSafety::Safe
        } else {
            RegionSafety::Risky
        },
{
    let lower = text::lower_all(path);
    reveal_strlit("/dev/");
    reveal_strlit("[stack");
    reveal_strlit("[vdso]");
    reveal_strlit("[vvar]");
    reveal_strlit("[vsyscall]");
    reveal_strlit("[heap]");
    reveal_strlit(".so");
    reveal_strlit(".so.");
    reveal_strlit("wineserver");
    reveal_strlit("dxvk");
    reveal_strlit("vkd3d");
    reveal_strlit("d3d9");
    reveal_strlit("d3d10");
    reveal_strlit("d3d11");
    reveal_strlit("d3d12");
    reveal_strlit("dxgi");
    reveal_strlit("ntdll.dll");
    reveal_strlit("kernel32.dll");
    reveal_strlit("kernelbase.dll");
    reveal_strlit("user32.dll");
    reveal_strlit("gdi32.dll");
    reveal_strlit("advapi32.dll");
    reveal_strlit("msvcrt.dll");
    reveal_strlit("ucrtbase.dll");
    reveal_strlit("ws2_32.dll");
    reveal_strlit("ole32.dll");
    reveal_strlit("oleaut32.dll");
    reveal_strlit("rpcrt4.dll");
    reveal_strlit("combase.dll");
    reveal_strlit("sechost.dll");
    reveal_strlit("bcrypt.dll");
    reveal_strlit("crypt32.dll");
    reveal_strlit("setupapi.dll");
    reveal_strlit("version.dll");
    reveal_strlit("imm32.dll");
    reveal_strlit("winmm.dll");
    reveal_strlit("dbghelp.dll");
    reveal_strlit("xinput");
    reveal_strlit("xaudio");
    reveal_strlit("wined3d");
    reveal_strlit("winevulkan");
    reveal_strlit("winex11");
    reveal_strlit("winewayland");
    assert forall|w: Seq<char>| w.len() > 0 implies !#[trigger] text::occurs(lower, w) by {}
}

/// A private writable region with a label goes by it: the heap is safe whatever its size, a
/// stack is risky, and what the kernel provides is read only. Any other label that mentions no
/// layer, driver or library goes by its size.
pub proof fn labelled_memory_goes_by_its_label(perms: Permissions, path: Seq<char>, size: u64)
    requires
        perms.write,
        !perms.shared,
        path.len() > 0,
        path[0] == '[',
        !text::occurs(text::lower_all(path), "wineserver"@),
        !text::occurs(text::lower_all(path), "dxvk"@),
        !text::occurs(text::lower_all(path), "vkd3d"@),
        !text::occurs(text::lower_all(path), "d3d9"@),
        !text::occurs(text::lower_all(path), "d3d10"@),
        !text::occurs(text::lower_all(path), "d3d11"@),
        !text::occurs(text::lower_all(path), "d3d12"@),
        !text::occurs(text::lower_all(path), "dxgi"@),
        !text::occurs(text::lower_all(path), "ntdll.dll"@),
        !text::occurs(text::lower_all(path), "kernel32.dll"@),
        !text::occurs(text::lower_all(path), "kernelbase.dll"@),
        !text::occurs(text::lower_all(path), "user32.dll"@),
        !text::occurs(text::lower_all(path), "gdi32.dll"@),
        !text::occurs(text::lower_all(path), "advapi32.dll"@),
        !text::occurs(text::lower_all(path), "msvcrt.dll"@),
        !text::occurs(text::lower_all(path), "ucrtbase.dll"@),
        !text::occurs(text::lower_all(path), "ws2_32.dll"@),
        !text::occurs(text::lower_all(path), "ole32.dll"@),
        !text::occurs(text::lower_all(path), "oleaut32.dll"@),
        !text::occurs(text::lower_all(path), "rpcrt4.dll"@),
        !text::occurs(text::lower_all(path), "combase.dll"@),
        !text::occurs(text::lower_all(path), "sechost.dll"@),
        !text::occurs(text::lower_all(path), "bcrypt.dll"@),
        !text::occurs(text::lower_all(path), "crypt32.dll"@),
        !text::occurs(text::lower_all(path), "setupapi.dll"@),
        !text::occurs(text::lower_all(path), "version.dll"@),
        !text::occurs(text::lower_all(path), "imm32.dll"@),
        !text::occurs(text::lower_all(path), "winmm.dll"@),
        !text::occurs(text::lower_all(path), "dbghelp.dll"@),
        !text::occurs(text::lower_all(path), "xinput"@),
        !text::occurs(text::lower_all(path), "xaudio"@),
        !text::occurs(text::lower_all(path), "wined3d"@),
        !text::occurs(text::lower_all(path), "winevulkan"@),
        !text::occurs(text::lower_all(path), "winex11"@),
        !text::occurs(text::lower_all(path), "winewayland"@),
        !".so"@.is_suffix_of(text::lower_all(path)),
        !text::occurs(text::lower_all(path), ".so."@),
    ensures
        class_of(perms, path, size) == if path.len() >= 6 && path.take(6) == "[stack"@ {
            RegionSafety::Risky
        } else if path == "[vdso]"@ || path == "[vvar]"@ || path == "[vsyscall]"@ {
            RegionSafety::ReadOnly
        } else if path == "[heap]"@ || 4096 <= size <= 1024 * 1024 * 1024 {
            RegionSafety::Safe
        } else {
            RegionSafety::Risky
        },
{
    reveal_strlit("/dev/");
    reveal_strlit("[stack");
    if "[stack"@.is_prefix_of(path) {
        assert(path.take(6) =~= "[stack"@);
    }
    if "/dev/"@.is_prefix_of(path) {
        assert(path.take(5)[0] == "/dev/"@[0]);
    }
}

/// Whether the lower-case path is that of a Direct3D translation layer.
pub fn is_dxvk_or_d3d_path(path_lower: &[char]) -> (r: bool)
    ensures
        r == translation_layer(path_lower@),
{
    mentions(path_lower, "dxvk") || mentions(path_lower, "vkd3d") || mentions(path_lower, "d3d9")
        || mentions(path_lower, "d3d10") || mentions(path_lower, "d3d11") || mentions(
        path_lower,
        "d3d12",
    ) || mentions(path_lower, "dxgi")
}

/// Whether the lower-case path is that of a graphics driver's shared library.
pub fn is_gpu_driver_lib(path_lower: &[char]) -> (r: bool)
    ensures
        r == driver_library(path_lower@),
{
    let shared_library = ends(path_lower, ".so") || mentions(path_lower, ".so.");
    shared_library && (mentions(path_lower, "vulkan") || mentions(path_lower, "mesa") || mentions(
        path_lower,
        "radeonsi",
    ) || mentions(path_lower, "amdgpu") || mentions(path_lower, "nvidia") || mentions(
        path_lower,
        "libvulkan",
    ))
}

/// Whether the lower-case path is that of one of Wine's own libraries.
pub fn is_wine_system_dll(path_lower: &[char]) -> (r: bool)
    ensures
        r == wine_library(path_lower@),
{
    mentions(path_lower, "ntdll.dll") || mentions(path_lower, "kernel32.dll") || mentions(
        path_lower,
        "kernelbase.dll",
    ) || mentions(path_lower, "user32.dll") || mentions(path_lower, "gdi32.dll") || mentions(
        path_lower,
        "advapi32.dll",
    ) || mentions(path_lower, "msvcrt.dll") || mentions(path_lower, "ucrtbase.dll") || mentions(
        path_lower,
        "ws2_32.dll",
    ) || mentions(path_lower, "ole32.dll") || mentions(path_lower, "oleaut32.dll") || mentions(
        path_lower,
        "rpcrt4.dll",
    ) || mentions(path_lower, "combase.dll") || mentions(path_lower, "sechost.dll") || mentions(
        path_lower,
        "bcrypt.dll",
    ) || mentions(path_lower, "crypt32.dll") || mentions(path_lower, "setupapi.dll") || mentions(
        path_lower,
        "version.dll",
    ) || mentions(path_lower, "imm32.dll") || mentions(path_lower, "winmm.dll") || mentions(
        path_lower,
        "dbghelp.dll",
    ) || mentions(path_lower, "xinput") || mentions(path_lower, "xaudio") || mentions(
        path_lower,
        "wined3d",
    ) || mentions(path_lower, "winevulkan") || mentions(path_lower, "winex11") || mentions(
        path_lower,
        "winewayland",
    )
}

/// The class of a private writable region without a file, by its label and size.
pub fn classify_anonymous_region(label: &[char], size: u64) -> (r: RegionSafety)
    ensures
        r == anonymous_class(label@, size),
{
    if begins(label, "[stack") {
        return RegionSafety::Risky;
    }
    if is(label, "[vdso]") || is(label, "[vvar]") || is(label, "[vsyscall]") {
        return RegionSafety::ReadOnly;
    }
    if is(label, "[heap]") {
        return RegionSafety::Safe;
    }
    if size < 4096 || size > 1_073_741_824 {
        return RegionSafety::Risky;
    }
    RegionSafety::Safe
}

/// The safety class of a region, by its permissions, path and size.
pub fn classify_region(perms: &Permissions, path: &str, size: u64) -> (r: RegionSafety)
    ensures
        r == class_of(*perms, path@, size),
{
    let path = to_chars(path);
    let lower = to_lower(path.as_slice());
    if perms.shared || begins(path.as_slice(), "/dev/") || mentions(
        lower.as_slice(),
        "wineserver",
    ) {
        return RegionSafety::NeverTouch;
    }
    if !perms.write {
        return RegionSafety::ReadOnly;
    }
    if is_dxvk_or_d3d_path(lower.as_slice()) || is_gpu_driver_lib(lower.as_slice())
        || is_wine_system_dll(lower.as_slice()) {
        return RegionSafety::Risky;
    }
    if path.len() == 0 || path[0] == '[' {
        return classify_anonymous_region(path.as_slice(), size);
    }
    RegionSafety::Safe
}

// ─── Parsing ────────────────────────────────────────────────────────────────

/// The hexadecimal address that `s` spells.
pub open spec fn hex(s: Seq<char>) -> Option<u64> {
    match text::number(s, 16, u64::MAX as nat) {
        Ok(n) => Some(n as u64),
        Err(_) => None,
    }
}

/// The region that a line describes: start and end, permissions, offset, device, inode, and
/// what follows as its path. The first field that cannot be read says what is wrong.
pub open spec fn line_region(line: Seq<char>) -> Result<RegionView, (MapsProblem, Seq<char>)> {
    let fields = text::split_n(line, Separator::One(' '), 6);
    let dash = text::first(fields[0], '-');
    let from = fields[0].take(dash);
    let to = fields[0].skip(dash + 1);
    let inode = text::trimmed(fields[4]);
    let path = if fields.len() > 5 {
        text::trimmed(fields[5])
    } else {
        Seq::empty()
    };
    if fields.len() < 5 {
        Err((MapsProblem::Malformed, line))
    } else if dash == fields[0].len() {
        Err((MapsProblem::MissingDash, Seq::empty()))
    } else if hex(from) is None {
        Err((MapsProblem::InvalidStart, from))
    } else if hex(to) is None {
        Err((MapsProblem::InvalidEnd, to))
    } else if vstd::utf8::encode_utf8(fields[1]).len() < 4 {
        Err((MapsProblem::ShortPermissions, fields[1]))
    } else if hex(fields[2]) is None {
        Err((MapsProblem::InvalidOffset, fields[2]))
    } else if text::number(inode, 10, u64::MAX as nat) is Err {
        Err((MapsProblem::InvalidInode, inode))
    } else if hex(from)->0 > hex(to)->0 {
        Err((MapsProblem::Inverted, line))
    } else {
        let start = hex(from)->0;
        let end = hex(to)->0;
        let permissions = permissions_of(fields[1]);
        Ok(
            RegionView {
                start,
                end,
                permissions,
                offset: hex(fields[2])->0,
                device: fields[3],
                inode: text::number(inode, 10, u64::MAX as nat)->Ok_0 as u64,
                pathname: path,
                safety: class_of(permissions, path, (end - start) as u64),
            },
        )
    }
}

/// The regions of a list of lines; the first bad line says what is wrong.
pub open spec fn lines_regions(lines: Seq<Seq<char>>) -> Result<
    Seq<RegionView>,
    (MapsProblem, Seq<char>),
>
    decreases lines.len(),
{
    if lines.len() == 0 {
        Ok(Seq::empty())
    } else {
        match lines_regions(lines.drop_last()) {
            Err(e) => Err(e),
            Ok(rs) => match line_region(lines.last()) {
                Err(e) => Err(e),
                Ok(r) => Ok(rs.push(r)),
            },
        }
    }
}

/// The regions that a memory map describes, one for each line that is not empty.
pub open spec fn map_regions(content: Seq<char>) -> Result<
    Seq<RegionView>,
    (MapsProblem, Seq<char>),
> {
    lines_regions(text::not_empty(text::lines_of(content)))
}

fn refuse(problem: MapsProblem, text: &[char]) -> (r: Result<MapRegion, MapsError>)
    ensures
        r matches Err(e) && e@ == (problem, text@),
{
    Err(MapsError { problem, text: from_chars(text) })
}

fn parse_hex(s: &[char]) -> (r: Option<u64>)
    ensures
        r == hex(s@),
{
    match parse_number(s, 16, u64::MAX) {
        Ok(v) => Some(v),
        Err(_) => None,
    }
}

/// Reads one line of a memory map.
pub fn parse_maps_line(line: &str) -> (r: Result<MapRegion, MapsError>)
    ensures
        match r {
            Ok(region) => line_region(line@) == Ok::<_, (MapsProblem, Seq<char>)>(region@),
            Err(e) => line_region(line@) == Err::<RegionView, _>(e@),
        },
{
    let chars = to_chars(line);
    let fields = split_at_most(chars.as_slice(), Separator::One(' '), 6);
    let ghost texts = text::split_n(line@, Separator::One(' '), 6);
    assert(forall|i: int| 0 <= i < fields@.len() ==> texts[i] == (#[trigger] fields@[i])@);
    if fields.len() < 5 {
        return refuse(MapsProblem::Malformed, chars.as_slice());
    }
    let range = fields[0].as_slice();
    let dash: usize = find(range, '-');
    if dash == range.len() {
        let r = refuse(MapsProblem::MissingDash, &[]);
        assert(r->Err_0@.1 =~= Seq::<char>::empty());
        return r;
    }
    let from = part(range, 0, dash);
    let to = part(range, dash + 1, range.len());
    proof {
        assert(from@ =~= texts[0].take(dash as int));
        assert(to@ =~= texts[0].skip(dash + 1));
    }
    let start: u64 = match parse_hex(from.as_slice()) {
        Some(v) => v,
        None => {
            return refuse(MapsProblem::InvalidStart, from.as_slice());
        },
    };
    let end: u64 = match parse_hex(to.as_slice()) {
        Some(v) => v,
        None => {
            return refuse(MapsProblem::InvalidEnd, to.as_slice());
        },
    };
    let permissions = match Permissions::parse(from_chars(fields[1].as_slice()).as_str()) {
        Ok(p) => p,
        Err(e) => {
            return Err(e);
        },
    };
    let offset: u64 = match parse_hex(fields[2].as_slice()) {
        Some(v) => v,
        None => {
            return refuse(MapsProblem::InvalidOffset, fields[2].as_slice());
        },
    };
    let inode_text = trim(fields[4].as_slice());
    let inode: u64 = match parse_number(inode_text.as_slice(), 10, u64::MAX) {
        Ok(v) => v,
        Err(_) => {
            return refuse(MapsProblem::InvalidInode, inode_text.as_slice());
        },
    };
    let path = if fields.len() > 5 {
        trim(fields[5].as_slice())
    } else {
        Vec::new()
    };
    assert(fields@.len() <= 5 ==> path@ =~= Seq::<char>::empty());
    if start > end {
        return refuse(MapsProblem::Inverted, chars.as_slice());
    }
    let pathname = from_chars(path.as_slice());
    let safety = classify_region(&permissions, pathname.as_str(), end - start);
    Ok(
        MapRegion {
            start,
            end,
            permissions,
            offset,
            device: from_chars(fields[3].as_slice()),
            inode,
            pathname,
            safety,
        },
    )
}

proof fn lemma_bad_line_stays(lines: Seq<Seq<char>>, k: int)
    requires
        0 <= k <= lines.len(),
        lines_regions(lines.take(k)) is Err,
    ensures
        lines_regions(lines) == lines_regions(lines.take(k)),
    decreases lines.len() - k,
{
    if k < lines.len() {
        assert(lines.take(k + 1).drop_last() =~= lines.take(k));
        lemma_bad_line_stays(lines, k + 1);
    } else {
        assert(lines.take(k) =~= lines);
    }
}

/// Reads a whole memory map.
pub fn parse_maps(content: &str) -> (r: Result<Vec<MapRegion>, MapsError>)
    ensures
        match r {
            Ok(regions) => map_regions(content@) == Ok::<_, (MapsProblem, Seq<char>)>(
                region_views(regions@),
            ),
            Err(e) => map_regions(content@) == Err::<Seq<RegionView>, _>(e@),
        },
{
    let chars = to_chars(content);
    let rows = drop_empty(lines(chars.as_slice()));
    let ghost texts = text::not_empty(text::lines_of(content@));
    let mut regions: Vec<MapRegion> = Vec::new();
    let mut i: usize = 0;
    assert(region_views(regions@) =~= Seq::empty());
    while i < rows.len()
        invariant
            i <= rows@.len(),
            texts == text::views(rows@),
            texts == text::not_empty(text::lines_of(content@)),
            lines_regions(texts.take(i as int)) == Ok::<_, (MapsProblem, Seq<char>)>(
                region_views(regions@),
            ),
        decreases rows@.len() - i,
    {
        proof {
            let t = texts.take(i + 1);
            assert(t.drop_last() =~= texts.take(i as int));
            assert(t.last() == rows@[i as int]@);
        }
        let row = from_chars(rows[i].as_slice());
        match parse_maps_line(row.as_str()) {
            Ok(region) => {
                let ghost before = region_views(regions@);
                regions.push(region);
                assert(region_views(regions@) =~= before.push(region@));
            },
            Err(e) => {
                proof {
                    lemma_bad_line_stays(texts, i + 1);
                }
                return Err(e);
            },
        }
        i += 1;
    }
    assert(texts.take(rows@.len() as int) =~= texts);
    Ok(regions)
}

proof fn lemma_regions_of_both(a: Seq<Seq<char>>, b: Seq<Seq<char>>)
    ensures
        lines_regions(a + b) == match (lines_regions(a), lines_regions(b)) {
            (Err(e), _) => Err(e),
            (_, Err(e)) => Err(e),
            (Ok(x), Ok(y)) => Ok(x + y),
        },
    decreases b.len(),
{
    if b.len() == 0 {
        assert(a + b =~= a);
        if let Ok(x) = lines_regions(a) {
            assert(x + Seq::<RegionView>::empty() =~= x);
        }
    } else {
        lemma_regions_of_both(a, b.drop_last());
        assert((a + b).drop_last() =~= a + b.drop_last());
        assert((a + b).last() == b.last());
        if let (Ok(x), Ok(y)) = (lines_regions(a), lines_regions(b)) {
            let z = lines_regions(b.drop_last())->Ok_0;
            assert(x + y =~= (x + z).push(y.last()));
            assert(y =~= z.push(y.last()));
        }
    }
}

/// A memory map in two parts, with a line feed between them, is read as its parts are: it can
/// be read where both can, and then has the regions of the first and those of the second; the
/// first part that cannot be read says what is wrong. An empty map has no regions. The first
/// part is to end in no carriage return, which the line feed would take with it.
pub proof fn maps_are_read_part_by_part(a: Seq<char>, b: Seq<char>)
    requires
        a.len() > 0 ==> a.last() != '\r',
    ensures
        map_regions(a.push('\n') + b) == match (map_regions(a), map_regions(b)) {
            (Err(e), _) => Err(e),
            (_, Err(e)) => Err(e),
            (Ok(x), Ok(y)) => Ok(x + y),
        },
        map_regions(Seq::empty()) == Ok::<_, (MapsProblem, Seq<char>)>(
            Seq::<RegionView>::empty(),
        ),
{
    text::lines_of_joined(a, b);
    lemma_regions_of_both(
        text::not_empty(text::lines_of(a)),
        text::not_empty(text::lines_of(b)),
    );
    let none = Seq::<char>::empty();
    assert(text::split(none, text::Separator::One('\n')) =~= seq![none]);
    assert(text::lines_of(none) =~= Seq::empty());
}

proof fn lemma_one_region_for_each_line(lines: Seq<Seq<char>>)
    ensures
        lines_regions(lines) is Ok <==> forall|i: int|
            0 <= i < lines.len() ==> line_region(#[trigger] lines[i]) is Ok,
        lines_regions(lines) matches Ok(rs) ==> {
            &&& rs.len() == lines.len()
            &&& forall|i: int|
                0 <= i < lines.len() ==> line_region(#[trigger] lines[i]) == Ok::<
                    _,
                    (MapsProblem, Seq<char>),
                >(rs[i])
        },
    decreases lines.len(),
{
    if lines.len() > 0 {
        let rest = lines.drop_last();
        let n = lines.len() - 1;
        lemma_one_region_for_each_line(rest);
        if lines_regions(lines) is Ok {
            let rs = lines_regions(lines)->Ok_0;
            assert forall|i: int| 0 <= i < lines.len() implies line_region(#[trigger] lines[i])
                == Ok::<_, (MapsProblem, Seq<char>)>(rs[i]) by {
                if i < n {
                    assert(rest[i] == lines[i]);
                }
            }
        } else if forall|i: int| 0 <= i < lines.len() ==> line_region(#[trigger] lines[i]) is Ok {
            assert forall|i: int| 0 <= i < rest.len() implies line_region(#[trigger] rest[i])
                is Ok by {
                assert(line_region(lines[i]) is Ok);
            }
            assert(line_region(lines[n]) is Ok);
        }
    }
}

/// A memory map can be read where each of its lines can, empty ones aside, and then has one
/// region for each of them, in order.
pub proof fn maps_have_one_region_for_each_line(content: Seq<char>)
    ensures
        ({
            let lines = text::not_empty(text::lines_of(content));
            &&& map_regions(content) is Ok <==> forall|i: int|
                0 <= i < lines.len() ==> line_region(#[trigger] lines[i]) is Ok
            &&& map_regions(content) matches Ok(rs) ==> {
                &&& rs.len() == lines.len()
                &&& forall|i: int|
                    0 <= i < lines.len() ==> line_region(#[trigger] lines[i]) == Ok::<
                        _,
                        (MapsProblem, Seq<char>),
                    >(rs[i])
            }
        }),
{
    lemma_one_region_for_each_line(text::not_empty(text::lines_of(content)));
}

/// A line of a memory map: the range, the permissions, the offset, the device and the inode,
/// with spaces between them.
pub open spec fn map_line(
    start: u64,
    end: u64,
    permissions: Permissions,
    offset: u64,
    device: Seq<char>,
    inode: u64,
) -> Seq<char> {
    text::numeral(start as nat, 16) + "-"@ + text::numeral(end as nat, 16) + " "@ + seq![
        if permissions.read { 'r' } else { '-' },
        if permissions.write { 'w' } else { '-' },
        if permissions.execute { 'x' } else { '-' },
        if permissions.shared { 's' } else { 'p' },
    ] + " "@ + text::numeral(offset as nat, 16) + " "@ + device + " "@ + text::numeral(
        inode as nat,
        10,
    )
}

/// A line that was written out is read back: every field is what it was, and what follows the
/// fields, without the white space around it, is the path. The class follows from them.
pub proof fn lines_are_read_back(
    start: u64,
    end: u64,
    permissions: Permissions,
    offset: u64,
    device: Seq<char>,
    inode: u64,
    space: Seq<char>,
    path: Seq<char>,
)
    requires
        start <= end,
        !device.contains(' '),
        forall|i: int| 0 <= i < space.len() ==> #[trigger] space[i] == ' ',
        path.len() > 0,
        !text::is_space(path[0]),
        !text::is_space(path.last()),
    ensures
        ({
            let line = map_line(start, end, permissions, offset, device, inode);
            let region = RegionView {
                start,
                end,
                permissions,
                offset,
                device,
                inode,
                pathname: path,
                safety: class_of(permissions, path, (end - start) as u64),
            };
            let bare = RegionView {
                pathname: Seq::empty(),
                safety: class_of(permissions, Seq::empty(), (end - start) as u64),
                ..region
            };
            &&& line_region(line + " "@ + space + path) == Ok::<_, (MapsProblem, Seq<char>)>(
                region,
            )
            &&& line_region(line) == Ok::<_, (MapsProblem, Seq<char>)>(bare)
        }),
{
    let (at, node) = (text::numeral(offset as nat, 16), text::numeral(inode as nat, 10));
    let letters = permissions.letters();
    let range = text::numeral(start as nat, 16).push('-') + text::numeral(end as nat, 16);
    let tail = space + path;
    let line = map_line(start, end, permissions, offset, device, inode);
    let whole = line + " "@ + space + path;
    let none = Seq::<char>::empty();
    lemma_range(start, end);
    text::numerals_are_digits(offset as nat, 16, ' ');
    text::numerals_are_digits(inode as nat, 10, ' ');
    assert(!letters.contains(' '));
    lemma_line_in_fields(start, end, permissions, offset, device, inode, space, path);
    lemma_five_fields(range, letters, at, device, node);
    lemma_six_fields(range, letters, at, device, node, tail);
    text::trimming_takes_the_space_around(space, path, none);
    assert(space + path + none =~= tail);
    let five = seq![range, letters, at, device, node];
    let six = seq![range, letters, at, device, node, tail];
    lemma_region_of_fields(line, five, start, end, permissions, offset, device, inode);
    lemma_region_of_fields(whole, six, start, end, permissions, offset, device, inode);
}

/// The range of a line has no space, and parts at its dash.
proof fn lemma_range(start: u64, end: u64)
    ensures
        ({
            let (from, to) = (text::numeral(start as nat, 16), text::numeral(end as nat, 16));
            let range = from.push('-') + to;
            &&& !range.contains(' ')
            &&& text::first(range, '-') == from.len()
            &&& range.take(from.len() as int) == from
            &&& range.skip((from.len() + 1) as int) == to
        }),
{
    let (from, to) = (text::numeral(start as nat, 16), text::numeral(end as nat, 16));
    let range = from.push('-') + to;
    text::numerals_are_digits(start as nat, 16, ' ');
    text::numerals_are_digits(start as nat, 16, '-');
    text::numerals_are_digits(end as nat, 16, ' ');
    assert forall|i: int| 0 <= i < range.len() implies range[i] != ' ' by {
        if i < from.len() {
            assert(range[i] == from[i]);
            assert(from.contains(from[i]));
        } else if i > from.len() {
            assert(range[i] == to[i - from.len() - 1]);
            assert(to.contains(to[i - from.len() - 1]));
        }
    }
    text::first_is_the_first(range, '-');
    let dash = text::first(range, '-');
    assert(range[from.len() as int] == '-');
    assert(range.contains(range[from.len() as int]));
    if dash > from.len() {
        assert(range.take(dash)[from.len() as int] == '-');
        assert(range.take(dash).contains(range.take(dash)[from.len() as int]));
    } else if dash < from.len() {
        assert(from[dash] == range[dash]);
        assert(from.contains(from[dash]));
    }
    assert(range.take(from.len() as int) =~= from);
    assert(range.skip((from.len() + 1) as int) =~= to);
}

/// A line is its fields with a space behind each but the last.
proof fn lemma_line_in_fields(
    start: u64,
    end: u64,
    permissions: Permissions,
    offset: u64,
    device: Seq<char>,
    inode: u64,
    space: Seq<char>,
    path: Seq<char>,
)
    ensures
        ({
            let (at, node) = (text::numeral(offset as nat, 16), text::numeral(inode as nat, 10));
            let letters = permissions.letters();
            let range = text::numeral(start as nat, 16).push('-') + text::numeral(end as nat, 16);
            let line = map_line(start, end, permissions, offset, device, inode);
            &&& line == range.push(' ') + (letters.push(' ') + (at.push(' ') + (device.push(' ')
                + node)))
            &&& line + " "@ + space + path == range.push(' ') + (letters.push(' ') + (at.push(' ')
                + (device.push(' ') + (node.push(' ') + (space + path)))))
        }),
{
    reveal_strlit("-");
    reveal_strlit(" ");
    let (from, to) = (text::numeral(start as nat, 16), text::numeral(end as nat, 16));
    let (at, node) = (text::numeral(offset as nat, 16), text::numeral(inode as nat, 10));
    let letters = permissions.letters();
    let range = from.push('-') + to;
    assert(from + "-"@ + to =~= range);
    assert(range + " "@ =~= range.push(' '));
    assert(letters + " "@ =~= letters.push(' '));
    assert(at + " "@ =~= at.push(' '));
    assert(device + " "@ =~= device.push(' '));
    let line = map_line(start, end, permissions, offset, device, inode);
    assert(line =~= range + " "@ + letters + " "@ + at + " "@ + device + " "@ + node);
    assert(line =~= range.push(' ') + (letters.push(' ') + (at.push(' ') + (device.push(' ')
        + node))));
    let front = range.push(' ') + (letters.push(' ') + (at.push(' ') + device.push(' ')));
    assert(line =~= front + node);
    assert(line + " "@ + space + path =~= front + (node.push(' ') + (space + path)));
    let tail = node.push(' ') + (space + path);
    assert(front + tail =~= range.push(' ') + (letters.push(' ') + (at.push(' ') + (device.push(
        ' ',
    ) + tail))));
}

/// What fields that were written out are read as.
proof fn lemma_region_of_fields(
    line: Seq<char>,
    fields: Seq<Seq<char>>,
    start: u64,
    end: u64,
    permissions: Permissions,
    offset: u64,
    device: Seq<char>,
    inode: u64,
)
    requires
        start <= end,
        text::split_n(line, Separator::One(' '), 6) == fields,
        fields.len() == 5 || fields.len() == 6,
        fields[0] == text::numeral(start as nat, 16).push('-') + text::numeral(end as nat, 16),
        fields[1] == permissions.letters(),
        fields[2] == text::numeral(offset as nat, 16),
        fields[3] == device,
        fields[4] == text::numeral(inode as nat, 10),
    ensures
        ({
            let path = if fields.len() == 6 {
                text::trimmed(fields[5])
            } else {
                Seq::empty()
            };
            line_region(line) == Ok::<_, (MapsProblem, Seq<char>)>(
                RegionView {
                    start,
                    end,
                    permissions,
                    offset,
                    device,
                    inode,
                    pathname: path,
                    safety: class_of(permissions, path, (end - start) as u64),
                },
            )
        }),
{
    let node = fields[4];
    let none = Seq::<char>::empty();
    lemma_range(start, end);
    text::numerals_are_digits(inode as nat, 10, ' ');
    text::trimming_takes_the_space_around(none, node, none);
    assert(none + node + none =~= node);
    text::numerals_are_digits(start as nat, 16, '-');
    text::numerals_are_read_back(start as nat, 16, u64::MAX as nat);
    text::numerals_are_read_back(end as nat, 16, u64::MAX as nat);
    text::numerals_are_read_back(offset as nat, 16, u64::MAX as nat);
    text::numerals_are_read_back(inode as nat, 10, u64::MAX as nat);
    permissions_are_read_back(permissions);
}

proof fn lemma_five_fields(
    a: Seq<char>,
    b: Seq<char>,
    c: Seq<char>,
    d: Seq<char>,
    e: Seq<char>,
)
    requires
        !a.contains(' '),
        !b.contains(' '),
        !c.contains(' '),
        !d.contains(' '),
        !e.contains(' '),
    ensures
        text::split_n(
            a.push(' ') + (b.push(' ') + (c.push(' ') + (d.push(' ') + e))),
            Separator::One(' '),
            6,
        ) == seq![a, b, c, d, e],
{
    let s3 = d.push(' ') + e;
    let s2 = c.push(' ') + s3;
    let s1 = b.push(' ') + s2;
    text::pieces_come_off_one_by_one(a, ' ', s1, 6);
    text::pieces_come_off_one_by_one(b, ' ', s2, 5);
    text::pieces_come_off_one_by_one(c, ' ', s3, 4);
    text::pieces_come_off_one_by_one(d, ' ', e, 3);
    text::the_last_piece_is_whole(e, ' ', 2);
    assert(seq![a] + (seq![b] + (seq![c] + (seq![d] + seq![e]))) =~= seq![a, b, c, d, e]);
}

proof fn lemma_six_fields(
    a: Seq<char>,
    b: Seq<char>,
    c: Seq<char>,
    d: Seq<char>,
    e: Seq<char>,
    rest: Seq<char>,
)
    requires
        !a.contains(' '),
        !b.contains(' '),
        !c.contains(' '),
        !d.contains(' '),
        !e.contains(' '),
    ensures
        text::split_n(
            a.push(' ') + (b.push(' ') + (c.push(' ') + (d.push(' ') + (e.push(' ') + rest)))),
            Separator::One(' '),
            6,
        ) == seq![a, b, c, d, e, rest],
{
    let s4 = e.push(' ') + rest;
    let s3 = d.push(' ') + s4;
    let s2 = c.push(' ') + s3;
    let s1 = b.push(' ') + s2;
    text::pieces_come_off_one_by_one(a, ' ', s1, 6);
    text::pieces_come_off_one_by_one(b, ' ', s2, 5);
    text::pieces_come_off_one_by_one(c, ' ', s3, 4);
    text::pieces_come_off_one_by_one(d, ' ', s4, 3);
    text::pieces_come_off_one_by_one(e, ' ', rest, 2);
    text::the_last_piece_is_whole(rest, ' ', 1);
    assert(seq![a] + (seq![b] + (seq![c] + (seq![d] + (seq![e] + seq![rest])))) =~= seq![
        a,
        b,
        c,
        d,
        e,
        rest,
    ]);
}

/// What cannot be written and is neither shared, a device's nor the wineserver's is read only,
/// whatever its path and size.
pub proof fn unwritable_is_read_only(perms: Permissions, path: Seq<char>, size: u64)
    requires
        !perms.write,
        !perms.shared,
        !(path.len() >= 5 && path.take(5) == "/dev/"@),
        !text::occurs(text::lower_all(path), "wineserver"@),
    ensures
        class_of(perms, path, size) == RegionSafety::ReadOnly,
{
    reveal_strlit("/dev/");
    if "/dev/"@.is_prefix_of(path) {
        assert(path.take(5) =~= "/dev/"@);
    }
}

} // verus!
