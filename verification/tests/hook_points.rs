use dexdumper::arm64::{branch_target, ldr_status_from_reg, ldr_w_from_reg, prologue, references};
use dexdumper::art::{
    find_art_offsets, find_art_offsets_in, is_target_art_symbol, parse_libart_symbols,
    resolve_runtime_layout, ArtError, ArtHookTargets, ArtNote, ArtRuntimeLayout, ResolvedTarget,
    Site, SiteError, TargetSource, EXECUTE_NTERP_IMPL_SIG, EXECUTE_NTERP_WITH_CLINIT_SIG,
    NTERP_OP_INVOKE_SIG,
};
use dexdumper::codescan::{
    branch_window_targets, check_for_6th_parameter, find_execute_by_interpreting_string,
    find_function_entry, find_nterp_with_clinit_by_branch, BranchError, ExecuteError, ExecuteNote,
};
use dexdumper::dump::{find_elf_symbol, libc_probes, LibcRun};
use dexdumper::elf::{
    find_pattern_uaddrs, find_string_in_elf, segment_data, ElfImage, SearchError, Segment,
    SegmentError, StringError, Symbol,
};
use object::{Object, ObjectSymbol};

fn put(code: &mut [u8], off: usize, inst: u32) {
    code[off..off + 4].copy_from_slice(&inst.to_le_bytes());
}

fn segment(offset: u64, vaddr: u64, file_size: u64, flags: u32) -> Segment {
    Segment {
        kind: 1,
        flags,
        offset,
        vaddr,
        file_size,
    }
}

fn image(segments: Vec<Segment>) -> ElfImage {
    ElfImage {
        segments,
        symbols: vec![],
        dynamic_symbols: vec![],
    }
}

fn symbol(name: &str, value: u64) -> Symbol {
    Symbol {
        name: Some(name.to_string()),
        value,
    }
}

/// An ELF file with one code segment at 0x1000, and symbols with these names and values.
fn elf_file(code: &[u8], names: &[(&str, u64)]) -> Vec<u8> {
    let mut strings = vec![0u8];
    let mut symbols = vec![0u8; 24];
    for (name, value) in names {
        symbols.extend_from_slice(&(strings.len() as u32).to_le_bytes());
        symbols.extend_from_slice(&[0x12, 0]); // a global function
        symbols.extend_from_slice(&1u16.to_le_bytes());
        symbols.extend_from_slice(&value.to_le_bytes());
        symbols.extend_from_slice(&8u64.to_le_bytes());
        strings.extend_from_slice(name.as_bytes());
        strings.push(0);
    }
    let code_off = 0x40 + 0x38;
    let sym_off = code_off + code.len();
    let str_off = sym_off + symbols.len();
    let sh_off = str_off + strings.len();

    let mut f = vec![0x7f, b'E', b'L', b'F', 2, 1, 1, 0, 0, 0, 0, 0, 0, 0, 0, 0];
    let half = |f: &mut Vec<u8>, v: u16| f.extend_from_slice(&v.to_le_bytes());
    let word = |f: &mut Vec<u8>, v: u32| f.extend_from_slice(&v.to_le_bytes());
    let quad = |f: &mut Vec<u8>, v: u64| f.extend_from_slice(&v.to_le_bytes());
    half(&mut f, 3);
    half(&mut f, 183);
    word(&mut f, 1);
    quad(&mut f, 0);
    quad(&mut f, 0x40);
    quad(&mut f, sh_off as u64);
    word(&mut f, 0);
    for v in [0x40, 0x38, 1, 0x40, 4, 3] {
        half(&mut f, v);
    }
    // Program header.
    word(&mut f, 1);
    word(&mut f, 5);
    quad(&mut f, code_off as u64);
    for v in [0x1000, 0x1000, code.len() as u64, code.len() as u64, 4] {
        quad(&mut f, v);
    }
    f.extend_from_slice(code);
    f.extend_from_slice(&symbols);
    f.extend_from_slice(&strings);
    // Section headers: none, code, symbols, strings.
    let sections: [(u32, u64, u64, u32, u32, u64); 4] = [
        (0, 0, 0, 0, 0, 0),
        (1, code_off as u64, code.len() as u64, 0, 0, 0),
        (2, sym_off as u64, symbols.len() as u64, 3, 1, 24),
        (3, str_off as u64, strings.len() as u64, 0, 0, 0),
    ];
    for (kind, off, size, link, info, entry) in sections {
        word(&mut f, 0);
        word(&mut f, kind);
        quad(&mut f, 0);
        quad(&mut f, 0);
        quad(&mut f, off);
        quad(&mut f, size);
        word(&mut f, link);
        word(&mut f, info);
        quad(&mut f, 1);
        quad(&mut f, entry);
    }
    f
}

#[test]
fn finds_function_entry_from_sub_sp_prologue() {
    let mut code = vec![0u8; 0x100];
    let prologue = 0xd100_83ffu32;
    code[0x20..0x24].copy_from_slice(&prologue.to_le_bytes());
    assert_eq!(find_function_entry(&code, 0x1000, 0x1060), Some(0x1020));
}

#[test]
fn detects_w5_tbz_or_tbnz() {
    let mut code = vec![0u8; 0x100];
    let tbnz_w5 = 0x3700_0005u32;
    code[0x10..0x14].copy_from_slice(&tbnz_w5.to_le_bytes());
    assert!(check_for_6th_parameter(&code, 0x1000, 0x1000));
}

#[test]
fn recognizes_nterp_with_clinit_symbol() {
    assert!(is_target_art_symbol("ExecuteNterpWithClinitImpl"));
}

#[test]
fn main_entry_check_does_not_require_verify_class() {
    let targets = ArtHookTargets {
        execute_nterp: Some(ResolvedTarget::new(0x1234, TargetSource::Symbol)),
        verify_class: None,
        ..Default::default()
    };
    assert!(targets.has_main_entry());
}

#[test]
fn decodes_unconditional_branch_target() {
    let pc = 0x1000;
    let inst = 0x1400_0004;
    assert_eq!(branch_target(pc, inst), Some(0x1010));
}

#[test]
fn decodes_conditional_branch_target() {
    let pc = 0x1000;
    let inst = 0x5400_0042;
    assert_eq!(branch_target(pc, inst), Some(0x1008));
}

#[test]
fn detects_android_14_and_15_clinit_loads() {
    assert_eq!(ldr_w_from_reg(0xb940_0008, 0), Some(8));
    assert_eq!(ldr_status_from_reg(0x3940_0109, 8), Some(9));
    assert_eq!(ldr_status_from_reg(0xb940_0109, 8), Some(9));
    assert_eq!(ldr_w_from_reg(0xb940_0010, 0), Some(16));
    assert_eq!(ldr_status_from_reg(0xb940_6a11, 16), Some(17));
}

#[test]
fn loads_of_other_kinds_or_registers_do_not_count() {
    assert_eq!(ldr_w_from_reg(0xb940_0028, 0), None);
    assert_eq!(ldr_w_from_reg(0xf940_0008, 0), None);
    assert_eq!(ldr_status_from_reg(0x3940_0109, 9), None);
    assert_eq!(ldr_status_from_reg(0x7940_0109, 8), None);
}

#[test]
fn branches_go_back_and_wrap_around() {
    assert_eq!(branch_target(0x1000, 0x17ff_ffff), Some(0xffc));
    assert_eq!(branch_target(0, 0x17ff_ffff), Some(u64::MAX - 3));
    assert_eq!(branch_target(0x1000, 0x54ff_ffe0), Some(0xffc));
    assert_eq!(branch_target(0x1000, 0x5400_0050), None);
    assert_eq!(branch_target(0x1000, 0x9400_0004), None);
}

#[test]
fn addresses_are_formed_in_two_ways() {
    // adr x0, #8
    assert!(references(0x1000_0040, 0, 0x1000, 0x1008));
    // adr x0, #-4
    assert!(references(0x10ff_ffe0, 0, 0x1000, 0xffc));
    // adrp x0, #0x2000; add x0, x0, #0x10
    assert!(references(0xd000_0000, 0x9100_4000, 0x1004, 0x3010));
    assert!(!references(0xd000_0000, 0x9100_4000, 0x1004, 0x3014));
    assert!(!references(0xd000_0000, 0, 0x1004, 0x3000));
}

#[test]
fn functions_start_with_a_frame() {
    assert!(prologue(0xd100_83ff));
    assert!(prologue(0xa9bf_7bfd));
    // Frames that are too small or too large.
    assert!(!prologue(0xd100_7fff));
    assert!(!prologue(0xd110_07ff));
}

#[test]
fn function_search_has_limits() {
    let mut code = vec![0u8; 0x3000];
    put(&mut code, 0, 0xa9bf_7bfd);
    assert_eq!(find_function_entry(&code, 0x1000, 0x1000 + 0x2000), Some(0x1000));
    assert_eq!(find_function_entry(&code, 0x1000, 0x1000 + 0x2004), None);
    assert_eq!(find_function_entry(&code, 0x1000, 0xfff), None);
    assert_eq!(find_function_entry(&code, 0x1000, 0x1000 + 0x2ffd), None);
    assert_eq!(find_function_entry(&code, 0x1000, u64::MAX), None);
}

#[test]
fn sixth_parameter_is_looked_for_early_in_the_function() {
    let mut code = vec![0u8; 0x200];
    put(&mut code, 49 * 4, 0x3600_0005);
    assert!(check_for_6th_parameter(&code, 0, 0));
    let mut code = vec![0u8; 0x200];
    put(&mut code, 50 * 4, 0x3600_0005);
    assert!(!check_for_6th_parameter(&code, 0, 0));
    // A test of a bit beyond the 31st is one of x5.
    put(&mut code, 0, 0xb600_0005);
    assert!(!check_for_6th_parameter(&code, 0, 0));
    assert!(!check_for_6th_parameter(&code, 0x1000, 0));
    assert!(!check_for_6th_parameter(&[], 0, 0));
}

#[test]
fn segments_lie_inside_the_file() {
    let bytes = [1u8, 2, 3, 4];
    assert_eq!(segment_data(&bytes, &segment(1, 0, 2, 5)), Ok(&bytes[1..3]));
    assert_eq!(
        segment_data(&bytes, &segment(3, 0, 2, 5)),
        Err(SegmentError::OutOfBounds(3))
    );
    assert_eq!(
        segment_data(&bytes, &segment(u64::MAX, 0, 1, 5)),
        Err(SegmentError::Overflow)
    );
    assert_eq!(SegmentError::Overflow.message(), "segment size overflow");
    assert_eq!(
        SegmentError::OutOfBounds(0x1f).message(),
        "segment out of bounds at file offset 0x1f"
    );
}

#[test]
fn patterns_are_found_in_code_segments() {
    let bytes = b"abab.abab";
    let image1 = image(vec![segment(0, 0x1000, 4, 5), segment(5, 0x2000, 4, 4)]);
    assert_eq!(find_pattern_uaddrs(&image1, bytes, b"ab"), Ok(vec![0x1000, 0x1002]));
    assert_eq!(find_pattern_uaddrs(&image1, bytes, b""), Err(SearchError::PatternEmpty));
    assert_eq!(find_pattern_uaddrs(&image1, bytes, b"x"), Err(SearchError::PatternNotFound));
    // Overlapping occurrences count, one address counts once.
    let image2 = image(vec![segment(0, 7, 4, 1), segment(0, 7, 4, 1)]);
    assert_eq!(find_pattern_uaddrs(&image2, b"aaaa", b"aa"), Ok(vec![7, 8, 9]));
    let image3 = image(vec![segment(0, 0, 4, 1), segment(0, 0, 40, 1)]);
    assert_eq!(
        find_pattern_uaddrs(&image3, b"aaaa", b"aa"),
        Err(SearchError::Segment(SegmentError::OutOfBounds(0)))
    );
}

#[test]
fn strings_are_found_in_loaded_segments() {
    let bytes = b"..hello";
    let mut note = segment(0, 0x9000, 7, 4);
    note.kind = 4;
    let image1 = image(vec![note, segment(0, 0x1000, 7, 4)]);
    assert_eq!(find_string_in_elf(&image1, bytes, b"hello"), Ok(0x1002));
    assert_eq!(
        find_string_in_elf(&image1, bytes, b"bye"),
        Err(StringError::NotFound(b"bye".to_vec()))
    );
}

#[test]
fn later_symbols_replace_earlier_ones() {
    let elf = ElfImage {
        segments: vec![],
        symbols: vec![
            symbol("ExecuteNterpImpl", 1),
            symbol("main", 2),
            symbol("ExecuteNterpWithClinitImpl", 0),
            Symbol { name: None, value: 3 },
        ],
        dynamic_symbols: vec![
            symbol("_ZN3art11interpreter7ExecuteEv", 4),
            symbol("ExecuteNterpImpl", 5),
        ],
    };
    assert_eq!(
        parse_libart_symbols(&elf),
        vec![
            ("ExecuteNterpImpl".to_string(), 5),
            ("_ZN3art11interpreter7ExecuteEv".to_string(), 4)
        ]
    );
}

#[test]
fn symbol_names_are_recognised() {
    assert!(is_target_art_symbol("_ZN3art11interpreter7ExecuteEPNS_6ThreadE"));
    assert!(is_target_art_symbol("_ZN3art8verifier13ClassVerifier11VerifyClassE"));
    assert!(is_target_art_symbol("ExecuteNterpImpl"));
    assert!(!is_target_art_symbol("ExecuteNterpImpl2"));
    assert!(!is_target_art_symbol("_ZN3art11interpreter"));
}

/// Code at 0x1000 whose function at 0x1010 has six parameters and refers to the string
/// behind the code.
fn code_with_execute() -> Vec<u8> {
    let mut code = vec![0u8; 0x100];
    put(&mut code, 0x10, 0xa9bf_7bfd);
    put(&mut code, 0x14, 0x3700_0005);
    // adr x0, #0xa0 at 0x20: the string stands at 0xc0.
    put(&mut code, 0x20, 0x1000_0500);
    code[0xc0..0xcd].copy_from_slice(b"Interpreting ");
    code
}

#[test]
fn execute_is_found_by_its_string() {
    let code = code_with_execute();
    let elf = image(vec![segment(0, 0x1000, 0x100, 5)]);
    let (found, notes) = find_execute_by_interpreting_string(&elf, &code);
    assert_eq!(found, Ok(0x1010));
    assert_eq!(
        notes,
        vec![
            ExecuteNote::StringAt(0x10c0),
            ExecuteNote::References(1),
            ExecuteNote::Function(0x1010)
        ]
    );
}

#[test]
fn execute_search_reports_what_is_missing() {
    let mut code = code_with_execute();
    let elf = image(vec![segment(0, 0x1000, 0x100, 5)]);
    put(&mut code, 0x14, 0);
    let (found, notes) = find_execute_by_interpreting_string(&elf, &code);
    assert_eq!(found, Err(ExecuteError::NoSixParameters));
    assert_eq!(notes.len(), 2);
    put(&mut code, 0x20, 0);
    let (found, _) = find_execute_by_interpreting_string(&elf, &code);
    assert_eq!(found, Err(ExecuteError::NoReferences));
    let plain = image(vec![segment(0, 0x1000, 0x100, 4)]);
    let (found, _) = find_execute_by_interpreting_string(&plain, &code);
    assert_eq!(found, Err(ExecuteError::NoCodeSegment));
    code[0xc0] = 0;
    let (found, notes) = find_execute_by_interpreting_string(&elf, &code);
    assert_eq!(found, Err(ExecuteError::StringNotFound));
    assert!(notes.is_empty());
    assert_eq!(
        found.unwrap_err().message(),
        "failed to find 'Interpreting ' string: string \"Interpreting \" not found"
    );
}

/// Code at 0x2000 that loads a class status at 0x08 and branches to 0x2004.
fn code_with_clinit(size: usize) -> Vec<u8> {
    let mut code = vec![0u8; size];
    put(&mut code, 0x08, 0xb940_0008);
    put(&mut code, 0x0c, 0x3940_8109);
    // b #-12 at 0x10
    put(&mut code, 0x10, 0x17ff_fffd);
    code
}

#[test]
fn clinit_is_found_by_its_branch() {
    let code = code_with_clinit(0x40);
    let elf = image(vec![segment(0, 0x2000, 0x40, 5)]);
    assert_eq!(find_nterp_with_clinit_by_branch(&elf, &code, 0x2004), Ok(vec![0x2008]));
    assert_eq!(
        find_nterp_with_clinit_by_branch(&elf, &code, 0x2000),
        Err(BranchError::NotFound)
    );
    // A window that reaches the end of whole instructions is not cut off.
    assert!(!branch_window_targets(&code, 0x2000, 0x3c, 0x2004));
    assert!(branch_window_targets(&code, 0x2000, 8, 0x2004));
    assert!(!branch_window_targets(&code, 0x2000, 8, 0x2000));
    // Behind the end.
    assert!(!branch_window_targets(&code, 0x2000, code.len(), 0x2004));
    assert!(!branch_window_targets(&code, 0x2000, code.len() + 3, 0x2004));
    assert!(!branch_window_targets(&code, 0x2000, usize::MAX, 0x2004));
    let far = image(vec![segment(1, 0x2000, 0x40, 5)]);
    assert_eq!(
        find_nterp_with_clinit_by_branch(&far, &code, 0x2004),
        Err(BranchError::Segment(SegmentError::OutOfBounds(1)))
    );
}

#[test]
fn hook_points_come_from_symbols_patterns_and_strings() {
    let mut code = code_with_execute();
    code.extend_from_slice(&EXECUTE_NTERP_IMPL_SIG);
    code.extend_from_slice(&EXECUTE_NTERP_WITH_CLINIT_SIG);
    code.extend_from_slice(&NTERP_OP_INVOKE_SIG);
    code.extend_from_slice(&NTERP_OP_INVOKE_SIG);
    code.extend_from_slice(&[0; 16]);
    let size = code.len() as u64;
    let elf = ElfImage {
        segments: vec![segment(0, 0x1000, size, 5)],
        symbols: vec![symbol("_ZN3art8verifier13ClassVerifier11VerifyClassE", 0x77)],
        dynamic_symbols: vec![],
    };
    let search = find_art_offsets_in(&elf, &code, None, None);
    let targets = search.outcome.unwrap();
    assert_eq!(targets.execute, Some(ResolvedTarget::new(0x1010, TargetSource::StringRef)));
    assert_eq!(
        targets.execute_nterp,
        Some(ResolvedTarget::new(0x1100, TargetSource::Pattern))
    );
    assert_eq!(
        targets.execute_nterp_with_clinit,
        Some(ResolvedTarget::new(0x1138, TargetSource::Pattern))
    );
    assert_eq!(targets.verify_class, Some(ResolvedTarget::new(0x77, TargetSource::Symbol)));
    assert_eq!(
        targets.nterp_invoke_addrs,
        vec![
            ResolvedTarget::new(0x1144, TargetSource::Pattern),
            ResolvedTarget::new(0x114c, TargetSource::Pattern)
        ]
    );
    assert_eq!(
        search.notes,
        vec![
            ArtNote::Execute(ExecuteNote::StringAt(0x10c0)),
            ArtNote::Execute(ExecuteNote::References(1)),
            ArtNote::Execute(ExecuteNote::Function(0x1010)),
            ArtNote::ExecuteFound(0x1010),
            ArtNote::Matched { site: Site::NterpSignature, count: 1, addr: 0x1100 },
            ArtNote::NotMatched {
                site: Site::ClinitBranch,
                error: SiteError::Branch(BranchError::NotFound)
            },
            ArtNote::Matched { site: Site::ClinitSignature, count: 1, addr: 0x1138 },
        ]
    );
}

#[test]
fn hook_points_given_by_hand_win() {
    let code = code_with_clinit(0x40);
    let elf = ElfImage {
        segments: vec![segment(0, 0x2000, 0x40, 5)],
        symbols: vec![symbol("ExecuteNterpImpl", 0x99)],
        dynamic_symbols: vec![],
    };
    let search = find_art_offsets_in(&elf, &code, Some(1), Some(0x2004));
    let targets = search.outcome.unwrap();
    assert_eq!(targets.execute, Some(ResolvedTarget::new(1, TargetSource::Manual)));
    assert_eq!(targets.execute_nterp, Some(ResolvedTarget::new(0x2004, TargetSource::Manual)));
    assert_eq!(
        targets.execute_nterp_with_clinit,
        Some(ResolvedTarget::new(0x2008, TargetSource::Pattern))
    );
    assert_eq!(
        search.notes,
        vec![
            ArtNote::Matched { site: Site::ClinitBranch, count: 1, addr: 0x2008 },
            ArtNote::InvokeMissing(SearchError::PatternNotFound),
            ArtNote::VerifyClassMissing,
        ]
    );
}

#[test]
fn a_library_without_entries_is_an_error() {
    let search = find_art_offsets_in(&image(vec![]), &[], None, None);
    assert_eq!(search.outcome, Err(ArtError::NoMainEntry));
    assert_eq!(search.notes.len(), 4);
    assert_eq!(
        search.outcome.unwrap_err().message(),
        "failed to locate any ART main entry in libart.so (Execute, ExecuteNterpImpl, ExecuteNterpWithClinitImpl)"
    );
}

#[test]
fn hook_points_are_found_in_an_elf_file() {
    let mut code = vec![0u8; 0x20];
    code.extend_from_slice(&NTERP_OP_INVOKE_SIG);
    let file = elf_file(&code, &[("ExecuteNterpImpl", 0x1004), ("ExecuteNterpWithClinitImpl", 0x1008)]);
    let search = find_art_offsets(&file, None, None);
    let targets = search.outcome.unwrap();
    assert_eq!(targets.execute, None);
    assert_eq!(
        targets.execute_nterp,
        Some(ResolvedTarget::new(0x1004, TargetSource::Symbol))
    );
    assert_eq!(
        targets.execute_nterp_with_clinit,
        Some(ResolvedTarget::new(0x1008, TargetSource::Symbol))
    );
    assert_eq!(
        targets.nterp_invoke_addrs,
        vec![ResolvedTarget::new(0x1020, TargetSource::Pattern)]
    );
}

#[test]
fn a_file_that_is_no_elf_is_an_error() {
    let bytes = b"not an ELF file, though it is long enough to be read as one";
    let search = find_art_offsets(bytes, None, None);
    assert!(search.notes.is_empty());
    let error = search.outcome.unwrap_err();
    assert!(matches!(error, ArtError::InvalidElf(_)));
    let reason = goblin::elf::Elf::parse(bytes).unwrap_err().to_string();
    assert_eq!(error.message(), format!("failed to parse ELF: {reason}"));
    assert!(!reason.is_empty());
}

#[test]
fn a_window_that_is_cut_off_is_an_error() {
    // The code ends two bytes behind the last whole instruction.
    let mut code = code_with_clinit(0x22);
    put(&mut code, 0x10, 0);
    let file = elf_file(&code, &[("ExecuteNterpImpl", 0x1004)]);
    let search = find_art_offsets(&file, None, None);
    assert_eq!(search.outcome, Err(ArtError::CodeOverrun));
    assert_eq!(
        search.outcome.unwrap_err().message(),
        "code segment ends inside a branch window"
    );
}

#[test]
fn definitions_are_found_in_an_elf_file() {
    let file = elf_file(&[0; 16], &[("memcpy", 0x1004), ("mmap", 0x1008), ("mmap", 0x100c)]);
    assert_eq!(find_elf_symbol(&file, "mmap"), Some(0x1008));
    assert_eq!(find_elf_symbol(&file, "memcpy"), Some(0x1004));
    assert_eq!(find_elf_symbol(&file, "mprotect"), None);
    assert_eq!(find_elf_symbol(b"text", "mmap"), None);

    // Only the functions that the library has are probed. A failed entry passes over the
    // return.
    let mut run = LibcRun::new(&file);
    let mut tried = Vec::new();
    while let Some(probe) = run.next() {
        tried.push((probe.program, probe.symbol, probe.addr, probe.at_return));
        run.report(probe.program != "uprobe_libc_memcpy");
    }
    assert_eq!(
        tried,
        vec![
            ("uprobe_libc_memcpy", "memcpy", 0x1004, false),
            ("uprobe_libc_mmap", "mmap", 0x1008, false),
            ("uretprobe_libc_mmap", "mmap", 0x1008, true),
        ]
    );
    assert_eq!(run.attached, 1);
    assert_eq!(LibcRun::new(b"text").next(), None);
}

#[test]
fn a_failed_return_probe_still_counts_its_function() {
    let mut run = LibcRun {
        plan: libc_probes().into_iter().map(|probe| (probe, 0x10)).collect(),
        at: 0,
        at_return: false,
        attached: 0,
    };
    let mut steps = 0;
    while let Some(probe) = run.next() {
        run.report(!probe.at_return);
        steps += 1;
    }
    assert_eq!((steps, run.attached), (9, 5));
}

/// A 64-bit Windows program with one section and one symbol in it.
fn windows_program(image_base: u64) -> Vec<u8> {
    let mut f = vec![0u8; 0x40 + 4 + 20 + 112 + 40 + 18 + 4];
    f[0..2].copy_from_slice(b"MZ");
    f[0x3c] = 0x40;
    f[0x40..0x44].copy_from_slice(b"PE\0\0");
    f[0x44..0x46].copy_from_slice(&0x8664u16.to_le_bytes());
    f[0x46] = 1;
    let symbols = 0x40 + 4 + 20 + 112 + 40;
    put(&mut f, 0x4c, symbols as u32);
    put(&mut f, 0x50, 1);
    f[0x54] = 112;
    let optional = 0x58;
    f[optional..optional + 2].copy_from_slice(&0x20bu16.to_le_bytes());
    f[optional + 24..optional + 32].copy_from_slice(&image_base.to_le_bytes());
    let section = optional + 112;
    put(&mut f, section + 12, 0x1000);
    f[symbols..symbols + 4].copy_from_slice(b"mmap");
    put(&mut f, symbols + 8, 0x20);
    f[symbols + 12] = 1;
    f[symbols + 16] = 2;
    put(&mut f, symbols + 18, 4);
    f
}

#[test]
fn symbols_of_windows_programs_lie_above_the_image_base() {
    let file = windows_program(0x40_0000);
    let parsed = object::File::parse(file.as_slice()).unwrap();
    let symbol = parsed.symbols().next().unwrap();
    assert_eq!((symbol.name(), symbol.address()), (Ok("mmap"), 0x40_1020));
    assert_eq!(find_elf_symbol(&file, "mmap"), Some(0x40_1020));
    assert_eq!(find_elf_symbol(&file, "memcpy"), None);
    let last = u64::MAX - 0x1020;
    assert_eq!(find_elf_symbol(&windows_program(last), "mmap"), Some(u64::MAX));
    // A sum beyond 64 bits wraps.
    assert_eq!(find_elf_symbol(&windows_program(u64::MAX), "mmap"), Some(0x101f));
}

#[test]
fn the_default_layout_is_that_of_android_13() {
    let layout = resolve_runtime_layout("/apex/com.android.art/lib64/libart.so").unwrap();
    assert_eq!(layout, ArtRuntimeLayout::android_13_plus_default());
    assert_eq!(layout.shadow_frame_method_offset, 8);
    assert_eq!(layout.dex_header_file_size_offset, 0x20);
    assert_eq!(
        layout.summary(),
        "ShadowFrame.method=0x8, ArtMethod.declaring_class=0x0, ArtMethod.dex_method_index=0x8, ArtMethod.data=0x10, Class.dex_cache=0x10, DexCache.dex_file=0x10, DexFile.begin=0x8, DexHeader.file_size=0x20, CodeItem.insns_size=0xc, CodeItem.insns=0x10"
    );
}

#[test]
fn notes_have_messages() {
    let matched = |site, count| ArtNote::Matched { site, count, addr: 0xab }.message();
    assert_eq!(
        matched(Site::NterpSignature, 2),
        "[!] ExecuteNterpImpl signature matched 2 sites; using first: 0xab"
    );
    assert_eq!(
        matched(Site::ClinitBranch, 1),
        "[+] ExecuteNterpWithClinitImpl found by branch scan at 0xab"
    );
    assert_eq!(
        matched(Site::ClinitSignature, 1),
        "[+] ExecuteNterpWithClinitImpl found by signature at 0xab"
    );
    assert_eq!(
        ArtNote::Execute(ExecuteNote::References(12)).message(),
        "[+] Found 12 references to 'Interpreting ' string"
    );
    assert_eq!(
        ArtNote::Execute(ExecuteNote::Function(0x10)).message(),
        "[+] Execute function found at 0x10 (6 parameters, uses W5)"
    );
    assert_eq!(
        ArtNote::NotMatched {
            site: Site::NterpSignature,
            error: SiteError::Search(SearchError::PatternNotFound)
        }
        .message(),
        "[-] ExecuteNterpImpl not found by symbol or signature: pattern not found"
    );
    assert_eq!(
        ArtNote::ExecuteMissing(ExecuteError::NoCodeSegment).message(),
        "[-] Execute not found by symbol or string reference: code segment not found"
    );
    assert_eq!(
        ArtNote::InvokeMissing(SearchError::PatternNotFound).message(),
        "[-] nterp_op_invoke_* pattern not found: pattern not found"
    );
    assert_eq!(TargetSource::StringRef.label(), "string-ref");
}

#[test]
fn nearest_function_start_is_taken() {
    let mut code = vec![0u8; 0x100];
    put(&mut code, 0x10, 0xa9bf_7bfd);
    put(&mut code, 0x20, 0xa9bf_7bfd);
    // Off the steps of one instruction.
    put(&mut code, 0x32, 0xa9bf_7bfd);
    assert_eq!(find_function_entry(&code, 0x1000, 0x1040), Some(0x1020));
    assert_eq!(find_function_entry(&code, 0x1000, 0x1020), Some(0x1020));
    assert_eq!(find_function_entry(&code, 0x1000, 0x101c), Some(0x1010));
}
