use dexdumper::dex::{DexError, DexParser, DEX_HEADER_SIZE};
use dexdumper::fix::{
    apply_records_to_dex, build_method_code_off_map, compute_coverage, dex_code_json_base,
    dex_file_base, fix_job, fix_one_dex_bytes_from_json_file, plan_final, plan_fix, recalc_dex_header,
    CoverageReport, FinalSource, FixAttempt, FixError, FixOptions, FixStats, MethodCodeRecord,
};
use std::collections::HashMap;

fn minimal_dex_with_code_item() -> Vec<u8> {
    let mut dex = vec![0u8; 0xb0];
    let dex_len = dex.len() as u32;
    dex[0..8].copy_from_slice(b"dex\n035\0");
    put_u32(&mut dex, 32, dex_len);
    put_u32(&mut dex, 36, DEX_HEADER_SIZE as u32);
    put_u32(&mut dex, 96, 1);
    put_u32(&mut dex, 100, 0x70);

    // class_def_item.class_data_off at +24.
    put_u32(&mut dex, 0x70 + 24, 0x80);

    // class_data_item: 0 static, 0 instance, 1 direct, 0 virtual.
    dex[0x80] = 0;
    dex[0x81] = 0;
    dex[0x82] = 1;
    dex[0x83] = 0;
    // encoded_method: method_idx_diff=0, access_flags=0, code_off=0x90.
    dex[0x84] = 0;
    dex[0x85] = 0;
    dex[0x86] = 0x90 | 0x80;
    dex[0x87] = 0x01;

    // code_item.insns_size at +0x0c. Two code units = four bytes.
    put_u32(&mut dex, 0x90 + 0x0c, 2);
    dex
}

fn put_u32(data: &mut [u8], off: usize, value: u32) {
    data[off..off + 4].copy_from_slice(&value.to_le_bytes());
}

fn record(method_idx: u32, code: &str) -> MethodCodeRecord {
    MethodCodeRecord {
        name: "void Lx;.m()".to_string(),
        method_idx,
        code: code.to_string(),
    }
}

#[test]
fn parses_code_json_base() {
    assert_eq!(
        dex_code_json_base("dex_1234_abcd_code.json").as_deref(),
        Some("dex_1234_abcd")
    );
    assert!(dex_code_json_base("dex_1234_nope_code.json").is_none());
    assert!(dex_code_json_base("not_dex_1234_abcd_code.json").is_none());
}

#[test]
fn parses_dex_file_base() {
    assert_eq!(
        dex_file_base("dex_1234_abcd.dex").as_deref(),
        Some("dex_1234_abcd")
    );
    assert!(dex_file_base("dex_1234_nope.dex").is_none());
    assert!(dex_file_base("dex_1234_abcd_fix.dex").is_none());
    assert!(dex_file_base("not_dex_1234_abcd.dex").is_none());
}

#[test]
fn rejects_names_with_missing_parts() {
    assert!(dex_file_base("dex_.dex").is_none());
    assert!(dex_file_base("dex__1.dex").is_none());
    assert!(dex_file_base("dex_1_.dex").is_none());
    assert!(dex_file_base("dex_1.dex").is_none());
    assert!(dex_file_base("dex_1_2_3.dex").is_none());
    assert!(dex_file_base("dex_1_2").is_none());
    assert!(dex_file_base(".dex").is_none());
    assert!(dex_file_base("").is_none());
    assert_eq!(dex_file_base("dex_AB_0.dex").as_deref(), Some("dex_AB_0"));
}

#[test]
fn coverage_reports_missed_methods() {
    let dex = minimal_dex_with_code_item();
    let parser = DexParser::new(&dex).unwrap();
    let map = build_method_code_off_map(&parser).unwrap();

    // No records — the lone method with code_off should appear as missed.
    let report = compute_coverage(&parser, &map, &[]);
    assert_eq!(report.total_methods, 1);
    assert_eq!(report.captured_methods, 0);
    assert_eq!(report.missed_methods.len(), 1);
    assert_eq!(report.missed_methods[0].method_idx, 0);
    assert_eq!(report.missed_methods[0].code_off, 0x90);
    // The fixture has zero string/method ids, so signature resolution
    // should fail gracefully and emit None.
    assert_eq!(report.missed_methods[0].signature, None);

    // With a record covering method_idx 0, coverage hits 100%.
    let records = vec![MethodCodeRecord {
        name: "void Lx;.m()".to_string(),
        method_idx: 0,
        code: "01020304".to_string(),
    }];
    let report = compute_coverage(&parser, &map, &records);
    assert_eq!(report.total_methods, 1);
    assert_eq!(report.captured_methods, 1);
    assert!(report.missed_methods.is_empty());
    let (part, whole) = report.ratio();
    assert_eq!(part as f64 / whole as f64, 1.0);
}

#[test]
fn coverage_lists_missed_methods_by_index() {
    let dex = minimal_dex_with_code_item();
    let parser = DexParser::new(&dex).unwrap();
    let map: HashMap<u32, u32> =
        [(9, 0x90), (2, 0x90), (5, 0), (7, 0x90), (4, 0x90)].into_iter().collect();
    let report = compute_coverage(&parser, &map, &[record(7, ""), record(100, "")]);
    assert_eq!(report.total_methods, 4);
    assert_eq!(report.captured_methods, 1);
    let missed: Vec<u32> = report.missed_methods.iter().map(|m| m.method_idx).collect();
    assert_eq!(missed, vec![2, 4, 9]);
    assert_eq!(report.ratio(), (1, 4));
    assert_eq!(CoverageReport::default().ratio(), (1, 1));
}

#[test]
fn applies_code_record_and_recalculates_header() {
    let mut dex = minimal_dex_with_code_item();
    let parser = DexParser::new(&dex).unwrap();
    let map = build_method_code_off_map(&parser).unwrap();
    assert_eq!(map.get(&0), Some(&0x90));

    let records = vec![MethodCodeRecord {
        name: "void Lx;.m()".to_string(),
        method_idx: 0,
        code: "01020304".to_string(),
    }];
    let stats = apply_records_to_dex(&mut dex, &map, &records, FixOptions::default()).unwrap();
    assert_eq!(
        stats,
        FixStats {
            applied: 1,
            skipped: 0,
            length_mismatch: 0
        }
    );
    assert_eq!(&dex[0xa0..0xa4], &[1, 2, 3, 4]);

    recalc_dex_header(&mut dex);
    assert_ne!(&dex[12..32], &[0u8; 20]);
    assert_ne!(&dex[8..12], &[0u8; 4]);
}

#[test]
fn length_mismatch_skipped_by_default() {
    let mut dex = minimal_dex_with_code_item();
    let parser = DexParser::new(&dex).unwrap();
    let map = build_method_code_off_map(&parser).unwrap();

    // Record carries 6 bytes but code_item.insns_size says 2 units = 4 bytes.
    let records = vec![MethodCodeRecord {
        name: "void Lx;.m()".to_string(),
        method_idx: 0,
        code: "010203040506".to_string(),
    }];
    let stats = apply_records_to_dex(&mut dex, &map, &records, FixOptions::default()).unwrap();
    assert_eq!(
        stats,
        FixStats {
            applied: 0,
            skipped: 1,
            length_mismatch: 1
        }
    );
    // The bytecode region should be untouched (still zero from the fixture).
    assert_eq!(&dex[0xa0..0xa4], &[0, 0, 0, 0]);
}

#[test]
fn length_mismatch_applied_with_force_flag() {
    let mut dex = minimal_dex_with_code_item();
    let parser = DexParser::new(&dex).unwrap();
    let map = build_method_code_off_map(&parser).unwrap();

    let records = vec![MethodCodeRecord {
        name: "void Lx;.m()".to_string(),
        method_idx: 0,
        code: "010203040506".to_string(),
    }];
    let opts = FixOptions {
        force_mismatch: true,
    };
    let stats = apply_records_to_dex(&mut dex, &map, &records, opts).unwrap();
    assert_eq!(
        stats,
        FixStats {
            applied: 1,
            skipped: 0,
            length_mismatch: 1
        }
    );
    // 4 bytes were written (truncated to expected_len).
    assert_eq!(&dex[0xa0..0xa4], &[1, 2, 3, 4]);
}

#[test]
fn short_code_is_padded_with_force_flag() {
    let mut dex = minimal_dex_with_code_item();
    dex[0xa0..0xa4].copy_from_slice(&[9, 9, 9, 9]);
    let map: HashMap<u32, u32> = [(0, 0x90)].into_iter().collect();
    let opts = FixOptions {
        force_mismatch: true,
    };
    apply_records_to_dex(&mut dex, &map, &[record(0, "aB")], opts).unwrap();
    assert_eq!(&dex[0xa0..0xa4], &[0xab, 0, 0, 0]);
}

#[test]
fn the_last_record_of_a_method_counts() {
    let mut dex = minimal_dex_with_code_item();
    let map: HashMap<u32, u32> = [(0, 0x90)].into_iter().collect();
    let records = [record(0, "01020304"), record(7, "ffffffff"), record(0, "05060708")];
    let stats = apply_records_to_dex(&mut dex, &map, &records, FixOptions::default()).unwrap();
    assert_eq!((stats.applied, stats.skipped), (2, 1));
    assert_eq!(&dex[0xa0..0xa4], &[5, 6, 7, 8]);
}

#[test]
fn records_without_a_place_are_skipped() {
    let mut dex = minimal_dex_with_code_item();
    let before = dex.clone();
    let map: HashMap<u32, u32> =
        [(0, 0x90), (1, 0), (2, 0xa4), (3, 0x94)].into_iter().collect();
    // At 0x94 the code item states a length that reaches beyond the file.
    dex[0xa0..0xa4].copy_from_slice(&[0xff; 4]);
    let records = [
        record(9, "01020304"),
        record(1, "01020304"),
        record(2, "01020304"),
        record(3, "01020304"),
        record(0, "0102030"),
        record(0, "0102030g"),
        record(0, "ééé"),
    ];
    let stats = apply_records_to_dex(&mut dex, &map, &records, FixOptions::default()).unwrap();
    assert_eq!(
        stats,
        FixStats {
            applied: 0,
            skipped: 7,
            length_mismatch: 0
        }
    );
    assert_eq!(&dex[..0xa0], &before[..0xa0]);
}

#[test]
fn the_header_gets_its_digests() {
    // The digest of no bytes at all, and the checksum of that digest.
    let mut dex = vec![0u8; 32];
    recalc_dex_header(&mut dex);
    let signature = [
        0xda, 0x39, 0xa3, 0xee, 0x5e, 0x6b, 0x4b, 0x0d, 0x32, 0x55, 0xbf, 0xef, 0x95, 0x60, 0x18,
        0x90, 0xaf, 0xd8, 0x07, 0x09,
    ];
    assert_eq!(&dex[12..], &signature);
    assert_eq!(u32::from_le_bytes([dex[8], dex[9], dex[10], dex[11]]), 0x6762_092f);
    assert_eq!(&dex[..8], &[0; 8]);

    // A second time changes nothing.
    let once = dex.clone();
    recalc_dex_header(&mut dex);
    assert_eq!(dex, once);

    // A file without room for them stays as it is.
    let mut short = vec![7u8; 31];
    recalc_dex_header(&mut short);
    assert_eq!(short, vec![7u8; 31]);
}

#[test]
fn fixes_one_file() {
    let mut dex = minimal_dex_with_code_item();
    let outcome = fix_one_dex_bytes_from_json_file(
        &mut dex,
        Ok(vec![record(0, "01020304")]),
        FixOptions::default(),
    )
    .unwrap();
    assert_eq!(outcome.stats.applied, 1);
    assert_eq!(outcome.coverage.captured_methods, 1);
    assert_eq!(&dex[0xa0..0xa4], &[1, 2, 3, 4]);
    assert_ne!(&dex[12..32], &[0u8; 20]);
    // All of the header but the digests stays.
    let before = minimal_dex_with_code_item();
    assert_eq!(&dex[..8], &before[..8]);
    assert_eq!(&dex[32..0xa0], &before[32..0xa0]);
    assert_eq!(
        outcome.stats.summary("a.dex"),
        "Applied: 1, Skipped: 0, LengthMismatch: 0 for a.dex"
    );
}

#[test]
fn a_file_that_cannot_be_fixed_stays_as_it_is() {
    let whole = minimal_dex_with_code_item();
    let options = FixOptions::default();

    let mut short = whole[..0x60].to_vec();
    assert_eq!(
        fix_one_dex_bytes_from_json_file(&mut short, Ok(vec![]), options),
        Err(FixError::Dex(DexError::TooSmall))
    );

    let mut wrong = whole.clone();
    wrong[3] = 0;
    assert_eq!(
        fix_one_dex_bytes_from_json_file(&mut wrong, Ok(vec![]), options),
        Err(FixError::Dex(DexError::InvalidMagic(0x0078_6564)))
    );

    // The class list is broken, and so are the records: the file's fault comes first.
    let mut classes = whole.clone();
    put_u32(&mut classes, 96, 3);
    let reason = Err("failed to parse x".to_string());
    assert_eq!(
        fix_one_dex_bytes_from_json_file(&mut classes, reason.clone(), options),
        Err(FixError::ClassDefOutOfBounds)
    );
    assert_eq!(FixError::ClassDefOutOfBounds.message(), "class_def out of bounds");

    let mut data = whole.clone();
    put_u32(&mut data, 0x70 + 24, 0xaf);
    data[0xaf] = 0x80;
    assert_eq!(
        fix_one_dex_bytes_from_json_file(&mut data, Ok(vec![]), options),
        Err(FixError::Dex(DexError::InvalidUleb128))
    );

    let mut dex = whole.clone();
    let failed = fix_one_dex_bytes_from_json_file(&mut dex, reason, options);
    assert_eq!(failed, Err(FixError::Records("failed to parse x".to_string())));
    assert_eq!(failed.unwrap_err().message(), "failed to parse x");
    assert_eq!(dex, whole);
}

#[test]
fn maps_the_methods_of_a_class() {
    let mut dex = minimal_dex_with_code_item();
    // One static field, no instance field, one direct and two virtual methods.
    let class_data = [
        1, 0, 1, 2, // counts
        5, 1, // field
        3, 1, 0x10, // method 3
        0, 1, 0, // method 0, without code
        8, 1, 0x20, // method 8
    ];
    dex[0x90..0x90 + class_data.len()].copy_from_slice(&class_data);
    put_u32(&mut dex, 0x70 + 24, 0x90);
    let parser = DexParser::new(&dex).unwrap();
    let map = build_method_code_off_map(&parser).unwrap();
    let expected: HashMap<u32, u32> = [(3, 0x10), (0, 0), (8, 0x20)].into_iter().collect();
    assert_eq!(map, expected);

    // A class without data adds nothing.
    put_u32(&mut dex, 0x70 + 24, 0);
    let parser = DexParser::new(&dex).unwrap();
    assert!(build_method_code_off_map(&parser).unwrap().is_empty());
}

#[test]
fn plans_the_files_of_a_directory() {
    let names: Vec<String> = [
        "dex_1000_b0_code.json",
        "dex_1000_b0.dex",
        "notes.txt",
        "dex_2000_b0.dex",
        "dex_3000_b0_code.json",
        "dex_1000_b0_fix.dex",
    ]
    .iter()
    .map(|s| s.to_string())
    .collect();
    let jobs = plan_fix(&names).unwrap();
    assert_eq!(jobs.len(), 2);
    assert_eq!(jobs[0].base, "dex_1000_b0");
    assert_eq!(jobs[0].dex_name, "dex_1000_b0.dex");
    assert_eq!(jobs[0].records_name.as_deref(), Some("dex_1000_b0_code.json"));
    assert_eq!(jobs[1].base, "dex_2000_b0");
    assert_eq!(jobs[1].records_name, None);
    assert_eq!(plan_fix(&vec!["a.dex".to_string()]), None);
    assert_eq!(plan_fix(&vec![]), None);
}

#[test]
fn plans_the_final_files() {
    let plan = plan_final("dex_1_2", FixAttempt::Fixed { missed: 0 });
    assert_eq!(plan.source, FinalSource::Fixed);
    assert_eq!(plan.fixed_name, "dex_1_2_fix.dex");
    assert_eq!(plan.final_name, "dex_1_2.dex");
    assert_eq!(plan.missed_name, None);
    let plan = plan_final("dex_1_2", FixAttempt::Fixed { missed: 3 });
    assert_eq!(plan.missed_name.as_deref(), Some("dex_1_2_missed.json"));
    let plan = plan_final("dex_1_2", FixAttempt::Failed);
    assert_eq!((plan.source, plan.missed_name), (FinalSource::Fallback, None));
    let plan = plan_final("dex_1_2", FixAttempt::NoRecords);
    assert_eq!((plan.source, plan.missed_name), (FinalSource::Original, None));
}

#[test]
fn fixing_again_gives_the_same_files() {
    let names: Vec<String> = ["dex_2_b0.dex", "dex_1_b0_code.json", "dex_1_b0.dex"]
        .iter()
        .map(|s| s.to_string())
        .collect();
    let mut again = names.clone();
    again.reverse();
    let mut jobs = plan_fix(&names).unwrap();
    let mut more = plan_fix(&again).unwrap();
    jobs.sort_by(|a, b| a.base.cmp(&b.base));
    more.sort_by(|a, b| a.base.cmp(&b.base));
    assert_eq!(jobs, more);
    assert_eq!(jobs.len(), 2);

    let fix = || {
        let records = Ok(vec![record(0, "01020304")]);
        fix_job(&jobs[0], minimal_dex_with_code_item(), records, FixOptions::default())
    };
    assert_eq!(fix(), fix());
    assert_eq!(fix().plan.source, FinalSource::Fixed);
    assert_eq!(fix().plan.fixed_name, "dex_1_b0_fix.dex");
    assert_eq!(&fix().bytes[0xa0..0xa4], &[1, 2, 3, 4]);

    // Without records that can be read, the dumped file stays.
    let broken = fix_job(
        &jobs[0],
        minimal_dex_with_code_item(),
        Err("broken".to_string()),
        FixOptions::default(),
    );
    assert_eq!(broken.plan.source, FinalSource::Fallback);
    assert_eq!(broken.bytes, minimal_dex_with_code_item());
}
