use dexdumper::art::{ArtHookTargets, ArtRuntimeLayout, ResolvedTarget, TargetSource};
use dexdumper::dex::DexError;
use dexdumper::dump::{
    btf_asset, choose_libc, find_definition, libc_paths, libc_probes, may_take_event,
    plan_attachments, target_line, target_lines, AttachReport, AttachRun, Course, DumpConfig, FileSymbol,
    FileSymbols, LibcChoice,    LifecycleTargets, NativeProbes, ProbeMode, Program,
};
use dexdumper::events::{
    DexChunkEvent, DexEvent, LayoutDebugEvent, MethodEvent, NativeBufferEvent, ReadFailureEvent,
};
use dexdumper::fix::{dex_code_json_base, dex_file_base};
use dexdumper::names::{code_file_name, dex_file_name, elf_file_name};
use dexdumper::shutdown::{
    is_stopping, keep_finalizing, keep_running, request_stop, STATE_FORCE, STATE_RUNNING,
    STATE_STOPPING,
};
use dexdumper::state::{
    ChunkOutcome, DumpOptions, DumpState, LayoutAction, NativeAction, ReadFailureAction,
    SaveOutcome, SystemCheck,
};

fn state() -> DumpState {
    DumpState::new(DumpOptions {
        trace: false,
        native_buffer_scan: true,
        native_elf_scan: true,
    })
}

fn dex(size: usize, mark: u8) -> Vec<u8> {
    let mut dex = vec![0u8; size];
    dex[..8].copy_from_slice(b"dex\n035\0");
    dex[32..36].copy_from_slice(&(size as u32).to_le_bytes());
    dex[size - 1] = mark;
    dex
}

fn chunk(begin: u64, pid: u32, size: u32, offset: u32, payload: &[u8]) -> Vec<u8> {
    let mut e = begin.to_le_bytes().to_vec();
    for v in [pid, size, offset, payload.len() as u32] {
        e.extend_from_slice(&v.to_le_bytes());
    }
    e.extend_from_slice(payload);
    e
}

fn method(begin: u64, pid: u32, index: u32, stated: u32, code: &[u8]) -> Vec<u8> {
    let mut e = begin.to_le_bytes().to_vec();
    e.extend_from_slice(&pid.to_le_bytes());
    e.extend_from_slice(&[0; 12]);
    e.extend_from_slice(&0xa0u64.to_le_bytes());
    e.extend_from_slice(&index.to_le_bytes());
    e.extend_from_slice(&stated.to_le_bytes());
    e.extend_from_slice(code);
    e
}

#[test]
fn events_are_read_at_fixed_places() {
    let data: Vec<u8> = (0..40).collect();
    assert_eq!(
        DexEvent::parse(&data),
        Some(DexEvent { begin: 0x0706_0504_0302_0100, size: 0x0f0e_0d0c })
    );
    assert_eq!(DexEvent::parse(&data[..15]), None);
    let e = DexChunkEvent::parse(&data).unwrap();
    assert_eq!((e.pid, e.size, e.offset, e.data_len), (0x0b0a_0908, 0x0f0e_0d0c, 0x1312_1110, 0x1716_1514));
    assert_eq!(DexChunkEvent::parse(&data[..23]), None);
    let e = MethodEvent::parse(&data).unwrap();
    assert_eq!(e.art_method_ptr, 0x1f1e_1d1c_1b1a_1918);
    assert_eq!((e.method_index, e.codeitem_size), (0x2322_2120, 0x2726_2524));
    assert_eq!(MethodEvent::parse(&data[..39]), None);
    let e = ReadFailureEvent::parse(&data).unwrap();
    assert_eq!((e.size, e.failed_offset), (0x0f0e_0d0c, 0x1312_1110));
    assert_eq!(ReadFailureEvent::parse(&data[..23]), None);
    let e = LayoutDebugEvent::parse(&data).unwrap();
    assert_eq!((e.code_item_ptr, e.reason, e.source), (0x0f0e_0d0c_0b0a_0908, 0x2322_2120, 0x2726_2524));
    assert_eq!(LayoutDebugEvent::parse(&data[..39]), None);
    let e = NativeBufferEvent::parse(&data).unwrap();
    assert_eq!((e.addr, e.pid, e.prot, e.flags), (0x0706_0504_0302_0100, 0x1312_1110, 0x1b1a_1918, 0x1f1e_1d1c));
    assert_eq!(NativeBufferEvent::parse(&data[..31]), None);
}

#[test]
fn executable_mappings_are_recognised() {
    let event = |source, size, prot| NativeBufferEvent {
        addr: 0x1000,
        size,
        pid: 1,
        source,
        prot,
        flags: 0,
    };
    assert!(event(1, 0x40, 5).may_contain_executable_mapping());
    assert!(event(2, 0x40, 4).may_contain_executable_mapping());
    assert!(!event(0, 0x40, 5).may_contain_executable_mapping());
    assert!(!event(1, 0x3f, 5).may_contain_executable_mapping());
    assert!(!event(1, 0x40, 3).may_contain_executable_mapping());
}

#[test]
fn chunks_become_a_saved_file() {
    let mut s = state();
    let file = dex(0x80, 1);
    assert_eq!(s.handle_dex_chunk(&chunk(0x1000, 7, 0x80, 0x40, &file[0x40..])), ChunkOutcome::Incomplete);
    let done = s.handle_dex_chunk(&chunk(0x1000, 7, 0x80, 0, &file[..0x40]));
    assert_eq!(
        done,
        ChunkOutcome::Complete { pid: 7, begin: 0x1000, size: 0x80, bytes: file.clone() }
    );
    assert_eq!(
        s.save_dex(false, 0x1000, 0x80, file.clone()),
        SaveOutcome::Saved { file_name: "dex_1000_80.dex".to_string() }
    );
    assert_eq!(s.dex_bytes(0x1000), Some(&file));
    assert_eq!(s.dex_bytes(0x2000), None);
    assert_eq!(s.handle_dex_chunk(&[0; 23]), ChunkOutcome::TooShort);
    assert_eq!(
        s.handle_dex_chunk(&chunk(0x1000, 7, 0x80, 0, &file)[..0x40]),
        ChunkOutcome::OutOfBounds
    );
}

#[test]
fn forgotten_chunks_start_anew() {
    let mut s = state();
    s.handle_dex_chunk(&chunk(0x1000, 7, 4, 0, &[1, 2]));
    s.forget_pending(0x1000);
    assert_eq!(s.handle_dex_chunk(&chunk(0x1000, 7, 4, 2, &[3, 4])), ChunkOutcome::Incomplete);
}

#[test]
fn a_file_is_saved_once() {
    let mut s = state();
    let file = dex(0x70, 0);
    assert_eq!(s.save_dex(true, 0x1000, 0x70, file.clone()), SaveOutcome::System);
    assert_eq!(s.dex_bytes(0x1000), None);
    assert!(matches!(s.save_dex(false, 0x1000, 0x70, file.clone()), SaveOutcome::Saved { .. }));
    assert_eq!(s.save_dex(false, 0x1000, 0x70, dex(0x80, 9)), SaveOutcome::Known);
    assert_eq!(
        s.save_dex(false, 0x2000, 0x70, file),
        SaveOutcome::Duplicate { sha1: "185bc435c8e22cae210df9bed073c40ee5d1792c".to_string() }
    );
    assert_eq!(
        s.save_dex(false, 0x3000, 0x10, vec![0; 0x10]),
        SaveOutcome::Malformed { error: DexError::TooSmall }
    );
    assert_eq!(
        s.save_dex(false, 0x3000, 0x70, vec![0; 0x70]),
        SaveOutcome::Malformed { error: DexError::InvalidMagic(0) }
    );
    assert!(matches!(s.save_dex(false, 0x2000, 0x80, dex(0x80, 1)), SaveOutcome::Saved { .. }));
}

#[test]
fn methods_are_recorded_and_flushed() {
    let mut s = state();
    assert!(s.handle_dex_event(&chunk(0x2000, 1, 0xb0, 0, &[])));
    assert!(!s.handle_dex_event(&[0; 15]));
    assert_eq!(
        s.handle_method_event(&method(0x2000, 5, 3, 4, &[1, 0xab, 0, 0xff])).as_deref(),
        Some("method_idx_3 (pid=5, dex=0x2000, method_idx=3, art_method=0xa0, bytecode_size=4)")
    );
    // Without bytecode, or with less than is stated, nothing is recorded.
    assert_eq!(
        s.handle_method_event(&method(0x2000, 5, 4, 0, &[])).as_deref(),
        Some("method_idx_4 (pid=5, dex=0x2000, method_idx=4, art_method=0xa0)")
    );
    s.handle_method_event(&method(0x2000, 5, 6, 8, &[1, 2]));
    s.handle_method_event(&method(0x2000, 5, 7, 1, &[9]));
    s.handle_method_event(&method(0x1000, 5, 0, 1, &[7]));
    assert_eq!(s.handle_method_event(&[0; 39]), None);

    let entries = s.flush_json();
    assert_eq!(entries.len(), 2);
    assert_eq!((entries[0].begin, entries[0].size), (0x1000, None));
    assert_eq!((entries[1].begin, entries[1].size), (0x2000, Some(0xb0)));
    let records = &entries[1].records;
    assert_eq!(records.len(), 2);
    assert_eq!(records[0].name, "method_idx_3");
    assert_eq!(records[0].method_idx, 3);
    assert_eq!(records[0].code, "01ab00ff");
    assert_eq!(records[1].code, "09");
    assert!(s.flush_json().is_empty());
}

#[test]
fn the_size_in_the_header_names_the_files_too() {
    let mut s = state();
    s.save_dex(false, 0x1000, 0x99, dex(0x70, 0));
    assert_eq!(s.file_size(0x1000), Some(0x99));
    assert_eq!(s.file_size(0x2000), None);
}

#[test]
fn method_names_are_kept() {
    let mut s = state();
    assert_eq!(s.method_name(0x1000, 70000), "method_idx_70000");
    // A name that was given stays, also when the file arrives.
    s.save_dex(false, 0x1000, 0x70, dex(0x70, 0));
    assert_eq!(s.method_name(0x1000, 70000), "method_idx_70000");
    assert_eq!(s.method_name(0x1000, 0), "method_idx_0");
}

#[test]
fn native_images_are_saved_once() {
    let mut s = state();
    assert_eq!(s.save_native_elf(12, 0x7f00, 0x2000).as_deref(), Some("elf_pid12_7f00_2000.so"));
    assert_eq!(s.save_native_elf(13, 0x7f00, 0x3000), None);
}

#[test]
fn paths_are_known_once_the_map_was_read() {
    let mut s = state();
    assert_eq!(s.known_path(5, 0x1800), None);
    s.refresh_maps(5, Some("1000-2000 r--p 0 0:0 5 /data/app/base.apk\n"));
    assert_eq!(s.known_path(5, 0x1800).as_deref(), Some("/data/app/base.apk"));
    assert_eq!(s.known_path(5, 0x2000), None);
    assert_eq!(s.known_path(6, 0x1800), None);
    s.refresh_maps(5, None);
    assert_eq!(s.known_path(5, 0x1800).as_deref(), Some("/data/app/base.apk"));
    s.refresh_maps(6, None);
    assert_eq!(s.known_path(6, 0x1800), None);
}

#[test]
fn files_of_the_system_are_told_by_the_map() {
    let maps = "1000-2000 r--p 0 0:0 5 /data/app/base.apk\n3000-4000 r--p 0 0:0 5 /apex/a.jar\n";
    let mut s = state();
    assert_eq!(s.check_system(5, 0x3800), SystemCheck::ReadMaps);
    assert_eq!(s.check_system_again(5, 0x3800, None), SystemCheck::Keep);
    let skip = SystemCheck::Skip("/apex/a.jar".to_string());
    assert_eq!(s.check_system_again(5, 0x3800, Some(maps)), skip);
    assert_eq!(s.check_system(5, 0x3800), skip);
    assert_eq!(s.check_system(5, 0x1800), SystemCheck::Keep);
    assert_eq!(s.check_system(5, 0x4000), SystemCheck::ReadMaps);
    assert_eq!(s.check_system_again(5, 0x4000, Some(maps)), SystemCheck::Keep);
    assert_eq!(s.check_system(6, 0x3800), SystemCheck::ReadMaps);
}

#[test]
fn events_lead_to_actions() {
    let s = state();
    let failure = chunk(0x1000, 7, 0x80, 3, &[]);
    assert_eq!(s.handle_read_failure(&failure[..20], true), ReadFailureAction::TooShort);
    assert_eq!(s.handle_read_failure(&failure, false), ReadFailureAction::Stopping);
    assert!(matches!(
        s.handle_read_failure(&failure, true),
        ReadFailureAction::Fetch { event } if event.begin == 0x1000 && event.size == 0x80
    ));
    let mut layout = vec![0u8; 40];
    assert!(matches!(s.handle_layout_debug_event(&layout, true), LayoutAction::Nothing { .. }));
    layout[8] = 1;
    assert!(matches!(s.handle_layout_debug_event(&layout, true), LayoutAction::Scan { .. }));
    assert_eq!(s.handle_layout_debug_event(&layout, false), LayoutAction::Stopping);
    assert_eq!(s.handle_layout_debug_event(&layout[1..], true), LayoutAction::TooShort);
    let mut native = vec![0u8; 32];
    native[9] = 1;
    native[20] = 1;
    native[24] = 4;
    assert!(matches!(
        s.handle_native_buffer_event(&native, true),
        NativeAction::Scan { dex: true, elf: true, .. }
    ));
    native[24] = 3;
    assert!(matches!(
        s.handle_native_buffer_event(&native, true),
        NativeAction::Scan { dex: true, elf: false, .. }
    ));
    assert_eq!(s.handle_native_buffer_event(&native, false), NativeAction::Stopping);
    assert_eq!(s.handle_native_buffer_event(&native[1..], true), NativeAction::TooShort);
    assert!(s.options().native_elf_scan);
}

#[test]
fn file_names_lead_back_to_one_base() {
    assert_eq!(dex_file_name(0x7f_1234, 0xb0), "dex_7f1234_b0.dex");
    assert_eq!(code_file_name(0x7f_1234, 0xb0), "dex_7f1234_b0_code.json");
    assert_eq!(elf_file_name(10, 0xabc, 0x1000), "elf_pid10_abc_1000.so");
    for (begin, size) in [(0u64, 0u32), (u64::MAX, u32::MAX), (0x1000, 0x70)] {
        let base = dex_file_base(&dex_file_name(begin, size));
        assert!(base.is_some());
        assert_eq!(base, dex_code_json_base(&code_file_name(begin, size)));
    }
}

#[test]
fn stopping_goes_in_two_steps() {
    assert!(keep_running(STATE_RUNNING) && keep_finalizing(STATE_RUNNING));
    assert!(!is_stopping(STATE_RUNNING));
    assert_eq!(request_stop(STATE_RUNNING), Some(STATE_STOPPING));
    assert!(!keep_running(STATE_STOPPING) && keep_finalizing(STATE_STOPPING));
    assert!(is_stopping(STATE_STOPPING));
    assert_eq!(request_stop(STATE_STOPPING), Some(STATE_FORCE));
    assert!(!keep_running(STATE_FORCE) && !keep_finalizing(STATE_FORCE));
    assert_eq!(request_stop(STATE_FORCE), None);
}

fn config(probe_mode: ProbeMode, maps_scan: bool) -> DumpConfig {
    DumpConfig {
        uid: 10123,
        pid: None,
        package_name: None,
        libart: "libart.so".to_string(),
        out: "out".to_string(),
        trace: false,
        auto_fix: true,
        execute_offset: None,
        nterp_offset: None,
        runtime_layout: None,
        debug_layout: false,
        code_item_fallback: true,
        maps_scan,
        native_buffer_scan: true,
        native_elf_scan: false,
        probe_mode,
        libc: None,
    }
}

#[test]
fn the_mode_decides_the_course() {
    assert_eq!(config(ProbeMode::Full, false).course(), Course::Probes);
    assert_eq!(config(ProbeMode::Lifecycle, true).course(), Course::Probes);
    assert_eq!(config(ProbeMode::MapsOnly, true).course(), Course::MapsOnly);
    assert_eq!(config(ProbeMode::MapsOnly, false).course(), Course::Refused);
    assert_eq!(config(ProbeMode::Full, true).native_probes(), NativeProbes::Attach);
    assert_eq!(config(ProbeMode::Lifecycle, true).native_probes(), NativeProbes::SkippedByMode);
    let mut quiet = config(ProbeMode::Full, true);
    quiet.native_buffer_scan = false;
    assert_eq!(quiet.native_probes(), NativeProbes::Unwanted);
    assert_eq!(ProbeMode::MapsOnly.label(), "maps-only");
    assert!(ProbeMode::Lifecycle.uses_bpf() && ProbeMode::Lifecycle.attaches_lifecycle());
    assert!(!ProbeMode::Lifecycle.attaches_interpreter());
    assert!(!ProbeMode::MapsOnly.attaches_native_buffer());
}

#[test]
fn the_probes_get_their_settings() {
    let mut c = config(ProbeMode::Full, true);
    let b = c.bpf_config();
    assert_eq!((b.uid, b.pid, b.reserved), (10123, -1, 0));
    assert_eq!((b.code_item_fallback, b.debug_layout, b.native_buffer_scan), (1, 0, 1));
    c.pid = Some(42);
    c.native_buffer_scan = false;
    assert_eq!((c.bpf_config().pid, c.bpf_config().native_buffer_scan), (42, 0));
    c.pid = Some(u32::MAX - 1);
    c.native_elf_scan = true;
    assert_eq!((c.bpf_config().pid, c.bpf_config().native_buffer_scan), (-2, 1));
}

#[test]
fn probes_are_planned_by_mode() {
    let target = |addr| Some(ResolvedTarget::new(addr, TargetSource::Symbol));
    let targets = ArtHookTargets {
        execute: target(1),
        execute_nterp: None,
        execute_nterp_with_clinit: target(2),
        verify_class: target(9),
        nterp_invoke_addrs: vec![
            ResolvedTarget::new(3, TargetSource::Pattern),
            ResolvedTarget::new(4, TargetSource::Pattern),
        ],
    };
    let life = LifecycleTargets {
        dex_file_ctor: target(5),
        register_dex_file: None,
    };
    let plan = plan_attachments(ProbeMode::Full, &targets, life);
    let addrs: Vec<u64> = plan.iter().map(|a| a.addr).collect();
    assert_eq!(addrs, vec![1, 2, 3, 4, 5]);
    assert_eq!(plan[1].program.name(), "uprobe_libart_executeNterpImpl");
    assert_eq!(plan[1].function, "ExecuteNterpWithClinitImpl");
    assert!(plan[0].required && plan[0].counts);
    assert!(!plan[2].required && !plan[2].counts);
    assert!(!plan[4].required && plan[4].counts);
    let plan = plan_attachments(ProbeMode::Lifecycle, &targets, life);
    assert_eq!(plan.len(), 1);
    assert_eq!(plan[0].program, Program::DexFileCtor);
    assert!(plan_attachments(ProbeMode::MapsOnly, &targets, life).is_empty());
}

#[test]
fn failed_probes_end_the_dump_or_are_reported() {
    let targets = ArtHookTargets {
        execute: Some(ResolvedTarget::new(1, TargetSource::Symbol)),
        nterp_invoke_addrs: vec![ResolvedTarget::new(3, TargetSource::Pattern)],
        ..Default::default()
    };
    let life = LifecycleTargets { dex_file_ctor: None, register_dex_file: None };
    let plan = plan_attachments(ProbeMode::Full, &targets, life);
    let mut run = AttachRun::new(plan.clone());
    assert_eq!(run.next().map(|a| a.addr), Some(1));
    assert_eq!(run.report(false), AttachReport::Abort);
    assert!(!run.is_enough());
    let mut run = AttachRun::new(plan);
    assert_eq!(run.report(true), AttachReport::Attached);
    assert_eq!(run.next().map(|a| a.addr), Some(3));
    assert_eq!(run.report(false), AttachReport::Failed);
    assert_eq!(run.next(), None);
    assert!(run.is_enough());
    assert_eq!((run.tried, run.attached), (2, 1));
    assert!(!AttachRun::new(vec![]).is_enough());
}

#[test]
fn libc_is_chosen() {
    let present = vec![false, true, true, false];
    assert_eq!(choose_libc(None, &present), LibcChoice::Place(1));
    assert_eq!(choose_libc(None, &vec![false; 4]), LibcChoice::Nowhere);
    assert_eq!(choose_libc(Some(true), &vec![false; 4]), LibcChoice::Given);
    assert_eq!(choose_libc(Some(false), &present), LibcChoice::GivenMissing);
    assert_eq!(libc_paths()[1], "/system/lib64/libc.so");
    assert_eq!(libc_paths().len(), 4);
    let symbols: Vec<&str> = libc_probes().iter().map(|p| p.symbol).collect();
    assert_eq!(symbols, vec!["memcpy", "memmove", "mmap", "mmap64", "mprotect"]);
    assert_eq!(libc_probes()[4].ret, None);
}

#[test]
fn only_definitions_count() {
    let symbol = |name: Option<&str>, defined, base, offset| FileSymbol {
        name: name.map(str::to_string),
        defined,
        base,
        offset,
    };
    let mut symbols = FileSymbols {
        dynamic: vec![symbol(Some("mmap"), false, 0, Some(1)), symbol(None, true, 0, Some(2))],
        others: vec![
            symbol(Some("mmap"), true, 0x1000, Some(3)),
            symbol(Some("mmap"), true, 0, Some(4)),
            symbol(Some("memcpy"), true, 0x1000, None),
            symbol(Some("memmove"), true, u64::MAX, Some(0x11)),
        ],
    };
    assert_eq!(find_definition(&symbols, "mmap"), Some(0x1003));
    assert_eq!(find_definition(&symbols, "memcpy"), Some(0));
    assert_eq!(find_definition(&symbols, "memmove"), Some(0x10));
    symbols.dynamic.push(symbol(Some("mmap"), true, 0, Some(5)));
    assert_eq!(find_definition(&symbols, "mmap"), Some(5));
    assert_eq!(find_definition(&symbols, "munmap"), None);
}

#[test]
fn lines_report_hook_points() {
    let target = Some(ResolvedTarget::new(0x1f, TargetSource::Pattern));
    assert_eq!(target_line("Execute", target, true), "[+] Execute: 0x1f (pattern)");
    assert_eq!(target_line("Execute", target, false), "Execute: 0x1f (pattern)");
    assert_eq!(target_line("VerifyClass", None, true), "[-] VerifyClass: not found");
    assert_eq!(target_line("VerifyClass", None, false), "VerifyClass: not found");
    let life = LifecycleTargets { dex_file_ctor: target, register_dex_file: None };
    let lines = target_lines(&ArtHookTargets::default(), life, true);
    assert_eq!(lines.len(), 6);
    assert_eq!(lines[2], "[-] ExecuteNterpWithClinitImpl: not found");
    assert_eq!(lines[4], "[+] DexFile::DexFile: 0x1f (pattern)");
    let lines = config(ProbeMode::Lifecycle, true)
        .settings_lines(3, &ArtRuntimeLayout::android_13_plus_default());
    assert_eq!(lines[0], "[+] nterp_op_invoke_* pattern targets: 3");
    assert!(lines[1].starts_with("[+] ART runtime layout: ShadowFrame.method=0x8, "));
    assert_eq!(lines[2], "[+] CodeItem fallback: enabled");
    assert_eq!(lines[4], "[+] Native ELF scan: disabled");
    assert_eq!(lines[5], "[+] Probe mode: lifecycle");
    assert_eq!(btf_asset("5.10.110-rockchip-rk3588"), "rock5b-5.10-arm64_min.btf");
    assert_eq!(btf_asset("5.10.66-android12"), "a12-5.10-arm64_min.btf");
}

#[test]
fn a_ring_gives_a_limited_number_of_events_in_its_turn() {
    assert!(may_take_event(0));
    assert!(may_take_event(1023));
    assert!(!may_take_event(1024));
}
