//! Games by their command lines.

use pika::pid::{extract_exe_name, is_wine_infrastructure};

#[test]
fn extract_exe_from_wine_cmdline() {
    let cmdline = "C:\\Program Files\\Game\\Game.exe\0--fullscreen\0-dx11";
    assert_eq!(extract_exe_name(cmdline), Some("Game.exe".to_string()));
}

#[test]
fn extract_exe_from_linux_path() {
    let cmdline = "/home/user/.steam/compatdata/12345/pfx/drive_c/game/Game.exe";
    assert_eq!(extract_exe_name(cmdline), Some("Game.exe".to_string()));
}

#[test]
fn extract_exe_none_without_exe() {
    let cmdline = "/usr/bin/wineserver --foreground";
    assert_eq!(extract_exe_name(cmdline), None);
}

#[test]
fn pid_wine_infrastructure_detection() {
    assert!(is_wine_infrastructure("services.exe"));
    assert!(is_wine_infrastructure("C:\\windows\\system32\\services.exe"));
    assert!(is_wine_infrastructure("explorer.exe"));
    assert!(!is_wine_infrastructure("Game.exe"));
    assert!(!is_wine_infrastructure("DarkSouls3.exe"));
}

#[test]
fn extract_exe_case_insensitive() {
    let cmdline = "C:\\GAME\\GAME.EXE";
    assert_eq!(extract_exe_name(cmdline), Some("GAME.EXE".to_string()));
}

#[test]
fn extract_exe_with_spaces_in_path() {
    // NUL-separated cmdline with spaces in path
    let cmdline = "/path/to/Program Files/My Game.exe\0--arg1";
    // The space splits "My" and "Game.exe", so we should find "Game.exe"
    assert_eq!(extract_exe_name(cmdline), Some("Game.exe".to_string()));
}
