//! Watchpoints.

use pika::elsewhere::start_watch;
use pika::mem::access::MockMemoryAccess;
use pika::mem::watch::{
    build_dr7, disassemble_rip, pick_thread, record_hit, RegisterSnapshot, WatchAction,
    WatchConfig, WatchEvent, WatchHit, WatchLoop, WatchManager, WatchMode, WatchSize, WatchStage,
};

fn config() -> WatchConfig {
    WatchConfig {
        pid: 1,
        address: 0x1000,
        mode: WatchMode::Write,
        size: WatchSize::Byte4,
        capture_registers: false,
    }
}

fn registers(rax: u64) -> RegisterSnapshot {
    RegisterSnapshot {
        rax,
        rbx: 0,
        rcx: 0,
        rdx: 0,
        rsi: 0,
        rdi: 0,
        rbp: 0,
        rsp: 0,
        r8: 0,
        r9: 0,
        r10: 0,
        r11: 0,
        r12: 0,
        r13: 0,
        r14: 0,
        r15: 0,
    }
}

#[test]
fn build_dr7_write_4byte() {
    let dr7 = build_dr7(WatchMode::Write, WatchSize::Byte4);
    // L0 = bit 0 = 1
    // condition = 01 at bits 16-17
    // len = 11 at bits 18-19
    assert_eq!(dr7 & 1, 1); // L0 enabled
    assert_eq!((dr7 >> 16) & 0b11, 0b01); // write only
    assert_eq!((dr7 >> 18) & 0b11, 0b11); // 4 bytes
}

#[test]
fn build_dr7_readwrite_8byte() {
    let dr7 = build_dr7(WatchMode::ReadWrite, WatchSize::Byte8);
    assert_eq!((dr7 >> 16) & 0b11, 0b11); // read/write
    assert_eq!((dr7 >> 18) & 0b11, 0b10); // 8 bytes
}

#[test]
fn build_dr7_write_1byte() {
    let dr7 = build_dr7(WatchMode::Write, WatchSize::Byte1);
    assert_eq!((dr7 >> 18) & 0b11, 0b00); // 1 byte
}

#[test]
fn record_hit_deduplicates() {
    let mut h: Vec<WatchHit> = Vec::new();
    record_hit(&mut h, 0x1000, Some("mov rax, rbx".to_string()), None);
    record_hit(&mut h, 0x1000, Some("mov rax, rbx".to_string()), None);
    record_hit(&mut h, 0x2000, Some("nop".to_string()), None);

    assert_eq!(h.len(), 2);
    assert_eq!(h[0].hit_count, 2);
    assert_eq!(h[1].hit_count, 1);
}

#[test]
fn start_errors_on_non_linux() {
    let result = start_watch(WatchConfig {
        pid: 1,
        address: 0x1000,
        mode: WatchMode::Write,
        size: WatchSize::Byte4,
        capture_registers: false,
    });
    assert!(result.is_err());
    assert!(result.unwrap_err().message.contains("require Linux"));
}

#[test]
fn control_register_has_exact_values() {
    assert_eq!(build_dr7(WatchMode::Write, WatchSize::Byte1), 0x1_0001);
    assert_eq!(build_dr7(WatchMode::Write, WatchSize::Byte2), 0x5_0001);
    assert_eq!(build_dr7(WatchMode::Write, WatchSize::Byte4), 0xd_0001);
    assert_eq!(build_dr7(WatchMode::ReadWrite, WatchSize::Byte8), 0xb_0001);
    assert_eq!(WatchSize::Byte1.as_bytes(), 1);
    assert_eq!(WatchSize::Byte8.as_bytes(), 8);
}

#[test]
fn a_hit_keeps_its_text_and_takes_new_registers() {
    let mut h: Vec<WatchHit> = Vec::new();
    record_hit(&mut h, 0x1000, Some("first".to_string()), None);
    record_hit(&mut h, 0x1000, Some("second".to_string()), Some(registers(7)));
    record_hit(&mut h, 0x1000, None, None);
    assert_eq!(h.len(), 1);
    assert_eq!(h[0].hit_count, 3);
    assert_eq!(h[0].disasm, Some("first".to_string()));
    assert_eq!(h[0].registers, Some(registers(7)));
}

#[test]
fn the_second_thread_is_picked() {
    let names = |v: &[&str]| v.iter().map(|s| s.to_string()).collect::<Vec<String>>();
    assert_eq!(pick_thread(&names(&[])), None);
    assert_eq!(pick_thread(&names(&["self", "x1"])), None);
    assert_eq!(pick_thread(&names(&["100"])), Some(100));
    assert_eq!(pick_thread(&names(&["100", "103", "101"])), Some(101));
    assert_eq!(pick_thread(&names(&["103", "100", "task", "102"])), Some(102));
}

fn poke(action: &WatchAction) -> (u64, u64) {
    match action {
        WatchAction::Poke { offset, value } => (*offset, *value),
        other => panic!("not a poke: {other:?}"),
    }
}

#[test]
fn a_watch_is_armed_hit_and_disarmed() {
    let mut tracer = WatchLoop::new(config(), 42);
    let mut hits: Vec<WatchHit> = Vec::new();
    assert_eq!(tracer.stage, WatchStage::Seizing);
    assert!(matches!(tracer.next(WatchEvent::Done, false, &mut hits), WatchAction::Interrupt));
    assert!(matches!(tracer.next(WatchEvent::Done, false, &mut hits), WatchAction::AwaitStop));
    assert_eq!(poke(&tracer.next(WatchEvent::Stopped, false, &mut hits)), (848, 0x1000));
    assert_eq!(poke(&tracer.next(WatchEvent::Done, false, &mut hits)), (888, 0));
    assert_eq!(poke(&tracer.next(WatchEvent::Done, false, &mut hits)), (896, 0xd_0001));
    assert!(matches!(tracer.next(WatchEvent::Done, false, &mut hits), WatchAction::Resume(None)));
    assert!(matches!(tracer.next(WatchEvent::Done, false, &mut hits), WatchAction::Poll));
    assert!(matches!(tracer.next(WatchEvent::StillAlive, false, &mut hits), WatchAction::Sleep));
    assert!(matches!(tracer.next(WatchEvent::Done, false, &mut hits), WatchAction::Poll));
    assert!(matches!(
        tracer.next(WatchEvent::Signal(10), false, &mut hits),
        WatchAction::Resume(Some(10))
    ));
    assert!(matches!(tracer.next(WatchEvent::Done, false, &mut hits), WatchAction::Poll));
    assert!(matches!(tracer.next(WatchEvent::Trap, false, &mut hits), WatchAction::ReadRegisters));
    assert_eq!(
        poke(&tracer.next(WatchEvent::Registers(0x5000, registers(1)), false, &mut hits)),
        (888, 0)
    );
    assert!(matches!(
        tracer.next(WatchEvent::Done, false, &mut hits),
        WatchAction::Disassemble(0x5000)
    ));
    assert!(hits.is_empty());
    let text = WatchEvent::Text(Some("mov".to_string()));
    assert!(matches!(tracer.next(text, false, &mut hits), WatchAction::Resume(None)));
    assert_eq!(hits.len(), 1);
    assert_eq!(hits[0].rip, 0x5000);
    assert_eq!(hits[0].registers, None);
    assert!(matches!(tracer.next(WatchEvent::Done, true, &mut hits), WatchAction::Interrupt));
    assert!(matches!(tracer.next(WatchEvent::Done, true, &mut hits), WatchAction::AwaitStop));
    assert_eq!(poke(&tracer.next(WatchEvent::Stopped, true, &mut hits)), (848, 0));
    assert_eq!(poke(&tracer.next(WatchEvent::Done, true, &mut hits)), (896, 0));
    assert_eq!(poke(&tracer.next(WatchEvent::Done, true, &mut hits)), (888, 0));
    assert!(matches!(tracer.next(WatchEvent::Done, true, &mut hits), WatchAction::Detach));
    assert!(matches!(tracer.next(WatchEvent::Done, true, &mut hits), WatchAction::Finish));
    assert_eq!(tracer.stage, WatchStage::Finished);
}

#[test]
fn a_watch_fails_with_what_the_system_says() {
    let mut hits: Vec<WatchHit> = Vec::new();
    let failed = || WatchEvent::Failed("EPERM".to_string());
    let mut tracer = WatchLoop::new(config(), 42);
    match tracer.next(failed(), false, &mut hits) {
        WatchAction::Abort(f) => {
            assert_eq!(f.message(), "PTRACE_SEIZE on tid 42 failed: EPERM");
        }
        other => panic!("{other:?}"),
    }
    let mut tracer = WatchLoop::new(config(), 42);
    tracer.stage = WatchStage::Stopping;
    match tracer.next(WatchEvent::Other("Exited".to_string()), false, &mut hits) {
        WatchAction::Abandon(f) => {
            assert_eq!(f.message(), "unexpected wait result after interrupt: Exited");
        }
        other => panic!("{other:?}"),
    }
    let mut tracer = WatchLoop::new(config(), 42);
    for (stage, message) in [
        (WatchStage::Interrupting, "PTRACE_INTERRUPT failed: EPERM"),
        (WatchStage::SettingAddress, "EPERM"),
        (WatchStage::Resuming, "PTRACE_CONT failed: EPERM"),
        (WatchStage::ReadingRegisters, "getregs failed: EPERM"),
        (WatchStage::ResumingAfterHit, "PTRACE_CONT after hit failed: EPERM"),
    ] {
        tracer.stage = stage;
        match tracer.next(failed(), false, &mut hits) {
            WatchAction::Abort(f) => assert_eq!(f.message(), message),
            other => panic!("{other:?}"),
        }
    }
}

#[test]
fn watches_are_kept_until_they_are_stopped() {
    let mut manager = WatchManager::new();
    let id = manager.start(config());
    assert_eq!(id.len(), 12);
    assert!(manager.hits(&id).unwrap().is_empty());
    let mut hits: Vec<WatchHit> = Vec::new();
    record_hit(&mut hits, 0x401000, Some("mov".to_string()), None);
    record_hit(&mut hits, 0x401000, None, None);
    record_hit(&mut hits, 0x402000, None, None);
    manager.update(&id, hits.clone(), true);
    let shown = manager.hits(&id).unwrap();
    assert_eq!(shown.len(), 2);
    assert_eq!(shown[0].rip, "0x401000");
    assert_eq!(shown[0].hit_count, 2);
    let list = manager.list();
    assert_eq!(list.len(), 1);
    assert_eq!(list[0].watch_id, id);
    assert_eq!(list[0].address, "0x1000");
    assert_eq!(list[0].mode, "write");
    assert_eq!(list[0].size, 4);
    assert_eq!(list[0].hit_count, 3);
    assert!(list[0].active);
    // the tracer ended by itself
    manager.update(&id, hits, false);
    assert!(!manager.list()[0].active);
    assert_eq!(manager.hits(&id).unwrap().len(), 2);
    manager.stop(&id).unwrap();
    assert!(manager.list().is_empty());
    assert_eq!(
        manager.stop(&id).unwrap_err().message(),
        format!("watch '{id}' not found")
    );
    assert!(manager.hits(&id).is_err());
}

#[test]
fn all_watches_are_stopped() {
    let mut manager = WatchManager::new();
    let a = manager.start(config());
    let b = manager.start(config());
    assert_ne!(a, b);
    let mut stopped = manager.stop_all();
    stopped.sort();
    let mut both = vec![a, b];
    both.sort();
    assert_eq!(stopped, both);
    assert!(manager.list().is_empty());
}

#[test]
fn the_instruction_of_a_hit_is_decoded() {
    let mut mock = MockMemoryAccess::new(1);
    mock.add_region(0x1000, vec![0x89, 0x48, 0x1c, 0x90, 0x90, 0x90, 0x90, 0x90]);
    let text = disassemble_rip(&mut mock, 1, 0x1000).unwrap();
    assert_eq!(text, "mov dword ptr [rax + 0x1c], ecx");
    assert_eq!(disassemble_rip(&mut mock, 1, 0x9000), None);
}
