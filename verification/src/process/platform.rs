//! Whether the system lets one process read another's memory.

use crate::text;
use crate::text::{begins, is, lines, parse_number, part, to_chars, trim};
use vstd::prelude::*;

verus! {

/// What the check came to.
#[derive(Clone, Debug)]
pub struct PlatformCheck {
    /// Memory can be scanned.
    pub can_scan: bool,
    /// What stands in the way, and what to do about it.
    pub warnings: Vec<String>,
}

/// What the system says of itself.
#[derive(Clone, Debug)]
pub struct PlatformFacts {
    /// The content of the file that holds Yama's `ptrace_scope`, where it can be read.
    pub ptrace_scope: Option<String>,
    /// We run as root.
    pub is_root: bool,
    /// The content of our own status file, where it can be read.
    pub status: Option<String>,
    /// The path of our own executable, where it is known.
    pub exe: Option<String>,
    /// The process file system is mounted.
    pub proc_mounted: bool,
}

/// The bit for `CAP_SYS_PTRACE` among the capabilities.
pub const CAP_SYS_PTRACE: u64 = 0x8_0000;

/// The capabilities that a line of the status file gives, where it gives the effective ones.
pub open spec fn line_capabilities(line: Seq<char>) -> Option<nat> {
    if "CapEff:\t"@.is_prefix_of(line) {
        match text::number(text::trimmed(line.skip("CapEff:\t"@.len() as int)), 16, u64::MAX as nat) {
            Ok(n) => Some(n),
            Err(_) => None,
        }
    } else {
        None
    }
}

/// The capabilities that the first such line gives.
pub open spec fn effective(lines: Seq<Seq<char>>) -> Option<nat>
    decreases lines.len(),
{
    if lines.len() == 0 {
        None
    } else if line_capabilities(lines[0]) is Some {
        line_capabilities(lines[0])
    } else {
        effective(lines.drop_first())
    }
}

/// A status file gives `CAP_SYS_PTRACE`: bit 19 is set.
pub open spec fn has_ptrace(status: Option<Seq<char>>) -> bool {
    match status {
        None => false,
        Some(s) => match effective(text::lines_of(s)) {
            Some(n) => n / 0x8_0000 % 2 == 1,
            None => false,
        },
    }
}

/// Whether a status file gives `CAP_SYS_PTRACE`.
pub fn check_cap_sys_ptrace(status: &Option<String>) -> (r: bool)
    ensures
        r == has_ptrace(text::optional(*status)),
{
    let content = match status {
        Some(s) => to_chars(s.as_str()),
        None => return false,
    };
    let all = lines(content.as_slice());
    let ghost views = text::views(all@);
    let key = to_chars("CapEff:\t");
    let mut i: usize = 0;
    assert(views.skip(0) =~= views);
    while i < all.len()
        invariant
            i <= all@.len(),
            views == text::views(all@),
            views == text::lines_of(content@),
            status is Some,
            content@ == status->0@,
            key@ == "CapEff:\t"@,
            effective(views) == effective(views.skip(i as int)),
        decreases all@.len() - i,
    {
        let line = &all[i];
        proof {
            assert(views.skip(i as int)[0] == all@[i as int]@);
            assert(views.skip(i as int).drop_first() =~= views.skip(i + 1));
        }
        if begins(line.as_slice(), "CapEff:\t") {
            let rest = part(line.as_slice(), key.len(), line.len());
            assert(rest@ =~= line@.skip(key@.len() as int));
            if let Ok(caps) = parse_number(trim(rest.as_slice()).as_slice(), 16, u64::MAX) {
                return caps / CAP_SYS_PTRACE % 2 == 1;
            }
        }
        i += 1;
    }
    assert(views.skip(i as int).len() == 0);
    false
}

/// What is said where `ptrace_scope` is 1 and the capability is missing.
pub open spec fn restricted(exe: Seq<char>) -> Seq<char> {
    "ptrace_scope=1 (restricted). pika needs CAP_SYS_PTRACE to scan.\nFix with:  sudo setcap cap_sys_ptrace=eip "@
        + exe + "\nOr:        sudo sysctl kernel.yama.ptrace_scope=0"@
}

/// What is said where `ptrace_scope` is 2 and the capability is missing.
pub open spec fn admin_only() -> Seq<char> {
    "ptrace_scope=2 (admin-only). CAP_SYS_PTRACE is required.\nFix with:  sudo setcap cap_sys_ptrace=eip $(which pika)"@
}

/// What is said where `ptrace_scope` is 3.
pub open spec fn no_attach() -> Seq<char> {
    "ptrace_scope=3 (no-attach). Memory scanning is completely disabled by the kernel. A reboot with a different setting is required."@
}

/// What is said where the process file system is missing.
pub open spec fn not_mounted() -> Seq<char> {
    "/proc is not mounted. pika requires procfs."@
}

/// What `ptrace_scope` stands in the way with. A file that cannot be read is no obstacle:
/// Yama is not loaded.
pub open spec fn scope_warnings(scope: Seq<char>, allowed: bool, exe: Seq<char>) -> Seq<Seq<char>> {
    if scope == "0"@ || scope == "unknown"@ {
        Seq::empty()
    } else if scope == "1"@ {
        if allowed {
            Seq::empty()
        } else {
            seq![restricted(exe)]
        }
    } else if scope == "2"@ {
        if allowed {
            Seq::empty()
        } else {
            seq![admin_only()]
        }
    } else if scope == "3"@ {
        seq![no_attach()]
    } else {
        seq!["unexpected ptrace_scope value: "@ + scope]
    }
}

/// The scope that the facts give: what the file holds, without the white space around it.
pub open spec fn scope_of(f: PlatformFacts) -> Seq<char> {
    match f.ptrace_scope {
        Some(s) => text::trimmed(s@),
        None => "unknown"@,
    }
}

/// What stands in the way.
pub open spec fn obstacles(f: PlatformFacts) -> Seq<Seq<char>> {
    let scope = scope_warnings(
        scope_of(f),
        f.is_root || has_ptrace(text::optional(f.status)),
        match f.exe {
            Some(s) => s@,
            None => "pika"@,
        },
    );
    if f.proc_mounted {
        scope
    } else {
        scope.push(not_mounted())
    }
}

/// Whether memory can be scanned on this system: nothing stands in the way.
pub fn check_platform(facts: &PlatformFacts) -> (r: PlatformCheck)
    ensures
        text::texts(r.warnings@) == obstacles(*facts),
        r.can_scan == (obstacles(*facts).len() == 0),
{
    let mut warnings: Vec<String> = Vec::new();
    let scope = match &facts.ptrace_scope {
        Some(s) => trim(to_chars(s.as_str()).as_slice()),
        None => to_chars("unknown"),
    };
    let allowed = facts.is_root || check_cap_sys_ptrace(&facts.status);
    let known = is(scope.as_slice(), "0") || is(scope.as_slice(), "unknown");
    proof {
        reveal_strlit("0");
        reveal_strlit("1");
        reveal_strlit("2");
        reveal_strlit("3");
        reveal_strlit("unknown");
        assert("0"@[0] != "1"@[0]);
        assert("0"@[0] != "2"@[0]);
        assert("0"@[0] != "3"@[0]);
        assert("1"@[0] != "2"@[0]);
        assert("1"@[0] != "3"@[0]);
        assert("2"@[0] != "3"@[0]);
        assert("unknown"@[0] == 'u');
    }
    if is(scope.as_slice(), "1") {
        if !allowed {
            let mut w = "ptrace_scope=1 (restricted). pika needs CAP_SYS_PTRACE to scan.\nFix with:  sudo setcap cap_sys_ptrace=eip ".to_string();
            match &facts.exe {
                Some(s) => w.append(s.as_str()),
                None => w.append("pika"),
            }
            w.append("\nOr:        sudo sysctl kernel.yama.ptrace_scope=0");
            warnings.push(w);
        }
    } else if is(scope.as_slice(), "2") {
        if !allowed {
            warnings.push("ptrace_scope=2 (admin-only). CAP_SYS_PTRACE is required.\nFix with:  sudo setcap cap_sys_ptrace=eip $(which pika)".to_string());
        }
    } else if is(scope.as_slice(), "3") {
        warnings.push("ptrace_scope=3 (no-attach). Memory scanning is completely disabled by the kernel. A reboot with a different setting is required.".to_string());
    } else if !known {
        let mut w = "unexpected ptrace_scope value: ".to_string();
        let value = text::from_chars(scope.as_slice());
        w.append(value.as_str());
        warnings.push(w);
    }
    let ghost scoped = text::texts(warnings@);
    assert(scoped =~= scope_warnings(
        scope_of(*facts),
        allowed,
        match facts.exe {
            Some(s) => s@,
            None => "pika"@,
        },
    ));
    if !facts.proc_mounted {
        warnings.push("/proc is not mounted. pika requires procfs.".to_string());
        assert(text::texts(warnings@) =~= scoped.push(not_mounted()));
    }
    let can_scan = warnings.len() == 0;
    assert(text::texts(warnings@).len() == warnings@.len());
    PlatformCheck { can_scan, warnings }
}

/// A capability or root lifts the restrictions that can be lifted; `ptrace_scope` 3 cannot.
pub proof fn no_attach_is_final(f: PlatformFacts)
    requires
        scope_of(f) == "3"@,
    ensures
        obstacles(f).len() > 0,
        obstacles(f)[0] == no_attach(),
{
    reveal_strlit("0");
    reveal_strlit("1");
    reveal_strlit("2");
    reveal_strlit("3");
    reveal_strlit("unknown");
    assert("0"@[0] != "3"@[0]);
    assert("1"@[0] != "3"@[0]);
    assert("2"@[0] != "3"@[0]);
    assert("unknown"@[0] != "3"@[0]);
}

proof fn lemma_scopes_differ()
    ensures
        "0"@ != "1"@ && "0"@ != "2"@ && "0"@ != "3"@ && "1"@ != "2"@ && "1"@ != "3"@ && "2"@
            != "3"@,
        "unknown"@ != "1"@ && "unknown"@ != "2"@ && "unknown"@ != "3"@,
{
    reveal_strlit("0");
    reveal_strlit("1");
    reveal_strlit("2");
    reveal_strlit("3");
    reveal_strlit("unknown");
    assert("0"@[0] != "1"@[0]);
    assert("0"@[0] != "2"@[0]);
    assert("0"@[0] != "3"@[0]);
    assert("1"@[0] != "2"@[0]);
    assert("1"@[0] != "3"@[0]);
    assert("2"@[0] != "3"@[0]);
}

/// Memory can be scanned exactly where the process file system is mounted and `ptrace_scope`
/// cannot be read, is 0, or is 1 or 2 and we are root or have the capability. Each obstacle is
/// told of once, and a scope that is not known is named.
pub proof fn scopes_say_who_may_scan(f: PlatformFacts)
    ensures
        ({
            let scope = match f.ptrace_scope {
                Some(s) => text::trimmed(s@),
                None => "unknown"@,
            };
            let allowed = f.is_root || has_ptrace(text::optional(f.status));
            let free = scope == "0"@ || scope == "unknown"@ || ((scope == "1"@ || scope == "2"@)
                && allowed);
            &&& obstacles(f).len() == (if free { 0nat } else { 1 }) + (if f.proc_mounted {
                0nat
            } else {
                1
            })
            &&& !free && scope != "1"@ && scope != "2"@ && scope != "3"@ ==> obstacles(f)[0]
                == "unexpected ptrace_scope value: "@ + scope
            &&& !f.proc_mounted ==> obstacles(f).last()
                == "/proc is not mounted. pika requires procfs."@
        }),
{
    lemma_scopes_differ();
}

/// The effective capabilities are those of the first line that gives them, in hexadecimal; the
/// capability is there exactly where bit 19 of them is set.
pub proof fn capabilities_are_read(before: Seq<Seq<char>>, n: u64, after: Seq<Seq<char>>)
    requires
        forall|i: int| 0 <= i < before.len() ==> !"CapEff:\t"@.is_prefix_of(#[trigger] before[i]),
    ensures
        effective(before.push("CapEff:\t"@ + text::numeral(n as nat, 16)) + after) == Some(
            n as nat,
        ),
        effective(before) is None,
    decreases before.len(),
{
    let line = "CapEff:\t"@ + text::numeral(n as nat, 16);
    let whole = before.push(line) + after;
    let key = "CapEff:\t"@;
    if before.len() > 0 {
        let rest = before.drop_first();
        assert forall|i: int| 0 <= i < rest.len() implies !key.is_prefix_of(#[trigger] rest[i]) by {
            assert(rest[i] == before[i + 1]);
        }
        capabilities_are_read(rest, n, after);
        assert(whole.drop_first() =~= rest.push(line) + after);
        assert(whole[0] == before[0]);
    } else {
        assert(whole[0] == line);
        let digits = text::numeral(n as nat, 16);
        let none = Seq::<char>::empty();
        assert(line.take(key.len() as int) =~= key);
        assert(line.skip(key.len() as int) =~= digits);
        text::numerals_are_digits(n as nat, 16, ' ');
        text::trimming_takes_the_space_around(none, digits, none);
        assert(none + digits + none =~= digits);
        text::numerals_are_read_back(n as nat, 16, u64::MAX as nat);
    }
}

/// A status file gives the capability exactly where its effective capabilities have bit 19.
pub proof fn the_capability_is_bit_nineteen(status: Seq<char>, n: nat)
    requires
        effective(text::lines_of(status)) == Some(n),
    ensures
        has_ptrace(Some(status)) <==> (n / vstd::arithmetic::power2::pow2(19)) % 2 == 1,
        !has_ptrace(None),
{
    vstd::arithmetic::power2::lemma2_to64();
}

} // verus!
