//! What the command line and the terminal interface show.

use pika::cli::{chain_text, format_types, hex_dump, reply_address, reply_bytes};
use pika::process::pid::ProcessInfo;
use pika::scan::pointer::PointerLink;
use pika::tui::app::App;

#[test]
fn memory_is_dumped() {
    let mut data: Vec<u8> = (0x41..0x51).collect();
    data.extend_from_slice(&[0, 0x20, 0x7f]);
    assert_eq!(
        hex_dump(0x14000_0000, &data),
        "0000000140000000  41 42 43 44 45 46 47 48  49 4a 4b 4c 4d 4e 4f 50  |ABCDEFGHIJKLMNOP|\n\
         0000000140000010  00 20 7f                                          |. .|\n"
    );
    assert_eq!(hex_dump(0, &[]), "");
}

#[test]
fn types_are_joined() {
    let types = Some(vec!["i32".to_string(), "u32".to_string()]);
    assert_eq!(format_types(&types), "i32|u32");
    assert_eq!(format_types(&None), "?");
    assert_eq!(format_types(&Some(vec![])), "");
}

#[test]
fn reply_fields_are_read() {
    assert_eq!(reply_address("0x140000000"), 0x14000_0000);
    assert_eq!(reply_address("ff"), 0xff);
    assert_eq!(reply_address("?"), 0);
    assert_eq!(reply_bytes("2a00zz10"), vec![0x2a, 0x00, 0x10]);
    assert_eq!(reply_bytes(""), Vec::<u8>::new());
}

#[test]
fn chains_are_spelled_out() {
    let links = vec![
        PointerLink { address: 0x10, offset: 0x20 },
        PointerLink { address: 0x30, offset: -8 },
    ];
    assert_eq!(
        chain_text("Game.exe", 0x100, &links),
        "Game.exe+0x100 -> [+0x20] -> [+0xfffffffffffffff8]"
    );
}

#[test]
fn the_interface_starts_idle() {
    let mut app = App::new();
    assert!(!app.should_quit);
    assert_eq!(app.status_line(), " Ready");
    assert_eq!(app.headline(), "No process selected. Use 'pika ps' to list processes.");
    app.selected_process = Some(ProcessInfo {
        pid: 7,
        name: "Game.exe".to_string(),
        exe_path: String::new(),
    });
    assert_eq!(app.headline(), "Attached to: Game.exe (PID 7)");
    assert_eq!(App::default().status, "");
}

#[test]
fn the_last_line_of_memory_is_dumped() {
    let text = hex_dump(u64::MAX - 15, &[0x41; 16]);
    assert!(text.starts_with("fffffffffffffff0  41 41 "));
    assert!(text.ends_with(" |AAAAAAAAAAAAAAAA|\n"));
    assert_eq!(hex_dump(u64::MAX, &[]), "");
}
