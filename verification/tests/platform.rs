//! What the system lets us do.

use pika::elsewhere;
use pika::process::platform::{check_cap_sys_ptrace, check_platform, PlatformFacts};

fn facts(scope: Option<&str>) -> PlatformFacts {
    PlatformFacts {
        ptrace_scope: scope.map(|s| s.to_string()),
        is_root: false,
        status: None,
        exe: Some("/opt/pika".to_string()),
        proc_mounted: true,
    }
}

#[test]
fn platform_check_returns_result() {
    for scope in [None, Some("0\n"), Some("1\n"), Some("2\n"), Some("3\n"), Some("?\n")] {
        let check = check_platform(&facts(scope));
        // On any platform, the check should run without panicking
        // and return a valid struct
        assert!(!check.warnings.is_empty() || check.can_scan);
    }
}

#[test]
fn cap_sys_ptrace_check_does_not_panic() {
    let _ = check_cap_sys_ptrace(&None);
}

#[test]
fn non_linux_reports_mock_mode() {
    let check = elsewhere::check_platform();
    assert!(!check.can_scan);
    assert!(check.warnings[0].contains("Not running on Linux"));
}

#[test]
fn nothing_is_reached_elsewhere() {
    assert!(elsewhere::list_wine_processes().is_empty());
    assert!(elsewhere::find_process("game").is_empty());
    assert_eq!(
        elsewhere::write_code(1, 0x1000, &[0x90]).unwrap_err().message,
        "code patching requires Linux (/proc/pid/mem)"
    );
}

#[test]
fn capability_is_bit_nineteen() {
    let status = |caps: &str| Some(format!("Name:\tpika\nCapEff:\t{caps}\nSeccomp:\t0\n"));
    assert!(check_cap_sys_ptrace(&status("0000000000080000")));
    assert!(check_cap_sys_ptrace(&status("000001ffffffffff")));
    assert!(!check_cap_sys_ptrace(&status("0000000000040000")));
    assert!(!check_cap_sys_ptrace(&status("0000000000000000")));
    assert!(!check_cap_sys_ptrace(&status("no number")));
    assert!(!check_cap_sys_ptrace(&Some("Name:\tpika\n".to_string())));
}

#[test]
fn scopes_are_told_apart() {
    assert!(check_platform(&facts(None)).can_scan);
    assert!(check_platform(&facts(Some("0\n"))).can_scan);
    let restricted = check_platform(&facts(Some("1\n")));
    assert!(!restricted.can_scan);
    assert_eq!(
        restricted.warnings,
        vec![
            "ptrace_scope=1 (restricted). pika needs CAP_SYS_PTRACE to scan.\n\
             Fix with:  sudo setcap cap_sys_ptrace=eip /opt/pika\n\
             Or:        sudo sysctl kernel.yama.ptrace_scope=0"
        ]
    );
    let mut root = facts(Some("1\n"));
    root.is_root = true;
    assert!(check_platform(&root).can_scan);
    let mut capable = facts(Some("2\n"));
    assert!(check_platform(&capable).warnings[0].starts_with("ptrace_scope=2 (admin-only)"));
    capable.status = Some("CapEff:\t0000000000080000\n".to_string());
    assert!(check_platform(&capable).can_scan);
    let mut closed = facts(Some("3\n"));
    closed.is_root = true;
    assert!(check_platform(&closed).warnings[0].starts_with("ptrace_scope=3 (no-attach)"));
    assert_eq!(
        check_platform(&facts(Some("9\n"))).warnings,
        vec!["unexpected ptrace_scope value: 9"]
    );
    let mut bare = facts(Some("0\n"));
    bare.proc_mounted = false;
    assert_eq!(
        check_platform(&bare).warnings,
        vec!["/proc is not mounted. pika requires procfs."]
    );
    let mut nameless = facts(Some("1\n"));
    nameless.exe = None;
    assert!(check_platform(&nameless).warnings[0].contains("cap_sys_ptrace=eip pika\n"));
}
