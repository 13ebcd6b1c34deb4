//! Games among the processes.

use pika::process::pid::{extract_exe_name, is_wine_binary, is_wine_infrastructure};

// ─── extract_exe_name (argv[0] only) ────────────────────────────────

#[test]
fn extract_from_wine_windows_path() {
    // Wine argv[0] with Windows-style path
    let cmdline = "C:\\Program Files\\Game\\Game.exe\0--fullscreen\0-dx11";
    assert_eq!(extract_exe_name(cmdline), Some("Game.exe".to_string()));
}

#[test]
fn extract_from_wine_unix_path() {
    // Wine argv[0] with Unix path (common in Proton)
    let cmdline = "/home/user/.steam/compatdata/12345/pfx/drive_c/game/Game.exe\0--arg";
    assert_eq!(extract_exe_name(cmdline), Some("Game.exe".to_string()));
}

#[test]
fn extract_from_proton_z_drive() {
    // Proton Z: drive mapping style
    let cmdline = "\\\\?\\Z:\\home\\geist\\.local\\share\\Steam\\xalia.exe\0";
    assert_eq!(extract_exe_name(cmdline), Some("xalia.exe".to_string()));
}

#[test]
fn rejects_launcher_with_exe_in_args() {
    // systemd-inhibit has .exe in args but argv[0] is not an .exe
    let cmdline = "systemd-inhibit\0--why\0game-running\0/path/to/proton\0waitforexitandrun\0/path/to/Game.exe";
    assert_eq!(extract_exe_name(cmdline), None);
}

#[test]
fn rejects_python_proton_launcher() {
    // python3 running the Proton script — .exe is in args, not argv[0]
    let cmdline = "python3\0/path/to/proton\0waitforexitandrun\0/path/to/Game.exe";
    assert_eq!(extract_exe_name(cmdline), None);
}

#[test]
fn rejects_reaper_with_exe_in_args() {
    let cmdline = "/home/user/.steam/ubuntu12_32/reaper\0SteamLaunch\0AppId=12345\0--\0/path/to/Game.exe";
    assert_eq!(extract_exe_name(cmdline), None);
}

#[test]
fn rejects_pressure_vessel() {
    let cmdline = "/path/to/srt-bwrap\0--args\026\0/path/to/pv-adverb\0--\0/path/to/proton\0waitforexitandrun\0/path/to/Game.exe";
    assert_eq!(extract_exe_name(cmdline), None);
}

#[test]
fn extract_none_without_exe() {
    let cmdline = "/usr/bin/wineserver\0--foreground";
    assert_eq!(extract_exe_name(cmdline), None);
}

#[test]
fn extract_case_insensitive() {
    let cmdline = "C:\\GAME\\GAME.EXE\0";
    assert_eq!(extract_exe_name(cmdline), Some("GAME.EXE".to_string()));
}

// ─── is_wine_binary ─────────────────────────────────────────────────

#[test]
fn wine_binary_detection() {
    assert!(is_wine_binary("/usr/bin/wine"));
    assert!(is_wine_binary("/usr/bin/wine64"));
    assert!(is_wine_binary("/path/to/proton/files/bin/wine-preloader"));
    assert!(is_wine_binary("/path/to/proton/files/bin/wine64-preloader"));
    assert!(!is_wine_binary("/usr/bin/python3"));
    assert!(!is_wine_binary("/usr/bin/systemd-inhibit"));
    assert!(!is_wine_binary("/usr/bin/reaper"));
    assert!(!is_wine_binary("/usr/bin/wineserver")); // server, not a hosted process
}

// ─── is_wine_infrastructure ─────────────────────────────────────────

#[test]
fn wine_infrastructure_detection() {
    assert!(is_wine_infrastructure("services.exe"));
    assert!(is_wine_infrastructure("explorer.exe"));
    assert!(is_wine_infrastructure("steam.exe"));
    assert!(is_wine_infrastructure("xalia.exe"));
    assert!(!is_wine_infrastructure("Game.exe"));
    assert!(!is_wine_infrastructure("Avowed-Win64-Shipping.exe"));
}

#[test]
fn only_whole_names_are_infrastructure() {
    assert!(is_wine_infrastructure("C:\\windows\\system32\\Start.exe"));
    assert!(is_wine_infrastructure("/usr/lib/wine/START.EXE"));
    assert!(!is_wine_infrastructure("QuickStart.exe"));
    assert!(!is_wine_infrastructure("MySteam.exe"));
    assert!(!pika::pid::is_wine_infrastructure("QuickStart.exe"));
    assert!(pika::pid::is_wine_infrastructure("Z:\\start.exe"));
}
