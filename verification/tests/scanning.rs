use dexdumper::codeitem::CodeItemScan;
use dexdumper::maps::{
    parse_maps_entry, parse_pid, parse_readable_map_region, regions_to_scan, status_has_uid,
    uid_line_matches, MapsRegions,
};
use dexdumper::native::{
    align_up, find_program_headers, measure_elf, BufferScan, ElfReadError, ElfScan, ProgramHeaders,
};
use dexdumper::scan::{validate_dex_header, validate_dex_header_contains, RegionScan, ScanStep};

fn put_u32(data: &mut [u8], off: usize, value: u32) {
    data[off..off + 4].copy_from_slice(&value.to_le_bytes());
}

fn put_u64(data: &mut [u8], off: usize, value: u64) {
    data[off..off + 8].copy_from_slice(&value.to_le_bytes());
}

fn dex(size: u32) -> Vec<u8> {
    let mut dex = vec![0u8; size as usize];
    dex[..8].copy_from_slice(b"dex\n035\0");
    put_u32(&mut dex, 0x20, size);
    put_u32(&mut dex, 0x24, 0x70);
    put_u32(&mut dex, 0x28, 0x1234_5678);
    dex
}

/// Memory from `base` on. A read that starts outside of it fails, one that ends outside is
/// cut off.
struct Memory {
    base: u64,
    bytes: Vec<u8>,
}

impl Memory {
    fn new(base: u64, size: usize) -> Self {
        Memory {
            base,
            bytes: vec![0; size],
        }
    }

    fn write(&mut self, addr: u64, data: &[u8]) {
        let at = (addr - self.base) as usize;
        self.bytes[at..at + data.len()].copy_from_slice(data);
    }

    fn read(&self, addr: u64, len: u32) -> Option<Vec<u8>> {
        let at = addr.checked_sub(self.base)? as usize;
        if at >= self.bytes.len() {
            return None;
        }
        let end = (at + len as usize).min(self.bytes.len());
        Some(self.bytes[at..end].to_vec())
    }
}

fn scan_region(memory: &Memory, start: u64, end: u64, clip: bool) -> Vec<(u64, u32)> {
    let mut scan = RegionScan::new(start, end, clip);
    while let ScanStep::Read { addr, len } = scan.next() {
        scan.supply(memory.read(addr, len));
    }
    scan.found.iter().map(|f| (f.begin, f.size)).collect()
}

#[test]
fn headers_are_tested_field_by_field() {
    let good = dex(0x100);
    assert_eq!(validate_dex_header(&good), Some(0x100));
    assert_eq!(validate_dex_header(&good[..0x6f]), None);
    for (off, value) in [(0, 0), (0x20, 0x6f), (0x20, 0x4000_0001), (0x24, 0x71), (0x28, 0), (0x34, 0x100)] {
        let mut bad = good.clone();
        put_u32(&mut bad, off, value);
        assert_eq!(validate_dex_header(&bad), None, "field at {off:#x}");
    }
    let mut mapped = good.clone();
    put_u32(&mut mapped, 0x34, 0xff);
    assert_eq!(validate_dex_header(&mapped), Some(0x100));
}

#[test]
fn a_file_reaches_over_an_address() {
    let header = dex(0x100);
    assert_eq!(validate_dex_header_contains(&header, 0x1000, 0x10ff), Some(0x100));
    assert_eq!(validate_dex_header_contains(&header, 0x1000, 0x1100), None);
    assert_eq!(validate_dex_header_contains(&header, 0x1000, 0xfff), None);
    assert_eq!(validate_dex_header_contains(&header, u64::MAX, u64::MAX), None);
}

#[test]
fn a_region_is_scanned_page_by_page() {
    let mut memory = Memory::new(0x10000, 0x4000);
    memory.write(0x10010, &dex(0x80));
    memory.write(0x10200, b"dex\n");
    memory.write(0x11ff0, &dex(0x200));
    memory.write(0x13fc0, b"dex\n");
    assert_eq!(
        scan_region(&memory, 0x10000, 0x14000, false),
        vec![(0x10010, 0x80), (0x11ff0, 0x200)]
    );
    // A file that does not end inside the region is left out.
    assert_eq!(
        scan_region(&memory, 0x10000, 0x12100, true),
        vec![(0x10010, 0x80)]
    );
    assert!(scan_region(&memory, 0x10000, 0x1006f, false).is_empty());
    assert!(scan_region(&memory, 0x50000, 0x52000, false).is_empty());
    assert!(scan_region(&memory, u64::MAX - 0x100, u64::MAX, false).is_empty());
}

#[test]
fn reads_are_clipped_on_request() {
    let clipped = RegionScan::new(0x1000, 0x1800, true);
    assert_eq!(clipped.next(), ScanStep::Read { addr: 0x1000, len: 0x800 });
    let whole = RegionScan::new(0x1000, 0x1800, false);
    assert_eq!(whole.next(), ScanStep::Read { addr: 0x1000, len: 0x1000 });
}

fn scan_code_item(memory: &Memory, ptr: u64) -> Result<Option<(u64, u32)>, (u64, u32)> {
    let mut scan = CodeItemScan::new(ptr);
    while let ScanStep::Read { addr, len } = scan.next() {
        scan.supply(memory.read(addr, len));
    }
    scan.finish().map(|found| found.map(|f| (f.begin, f.size)))
}

#[test]
fn the_file_around_a_code_item_is_found() {
    let mut memory = Memory::new(0x10000, 0x8000);
    memory.write(0x10800, &dex(0x4000));
    // A file nearer to the code item that does not reach it.
    memory.write(0x12000, &dex(0x100));
    assert_eq!(scan_code_item(&memory, 0x13010), Ok(Some((0x10800, 0x4000))));
    assert_eq!(scan_code_item(&memory, 0x12080), Ok(Some((0x12000, 0x100))));
    assert_eq!(scan_code_item(&memory, 0x17000), Ok(None));
    assert_eq!(scan_code_item(&memory, 0), Ok(None));
    // A header at the end of a page is read on its own.
    memory.write(0x14ff0, &dex(0x400));
    assert_eq!(scan_code_item(&memory, 0x15004), Ok(Some((0x14ff0, 0x400))));
}

#[test]
fn a_file_that_cannot_be_read_is_an_error() {
    let mut scan = CodeItemScan::new(0x1010);
    assert_eq!(scan.next(), ScanStep::Read { addr: 0x1000, len: 0x1000 });
    let mut page = vec![0u8; 0x1000];
    page[..0x100].copy_from_slice(&dex(0x100));
    scan.supply(Some(page));
    assert_eq!(scan.next(), ScanStep::Read { addr: 0x1000, len: 0x100 });
    scan.supply(None);
    assert_eq!(scan.next(), ScanStep::Done);
    assert_eq!(scan.finish(), Err((0x1000, 0x100)));
}

fn scan_buffer(memory: &Memory, addr: u64, size: u64) -> Result<Vec<(u64, u32)>, u64> {
    let mut scan = BufferScan::new(addr, size).unwrap();
    while let ScanStep::Read { addr, len } = scan.next() {
        scan.supply(memory.read(addr, len));
    }
    scan.finish().map(|found| found.iter().map(|f| (f.begin, f.size)).collect())
}

#[test]
fn buffers_are_scanned_for_files() {
    let mut memory = Memory::new(0x10000, 0x3000);
    memory.write(0x10000, &dex(0x80));
    memory.write(0x11100, &dex(0x90));
    // A file at the start ends the scan.
    assert_eq!(scan_buffer(&memory, 0x10000, 0x3000), Ok(vec![(0x10000, 0x80)]));
    assert_eq!(scan_buffer(&memory, 0x10001, 0x2000), Ok(vec![(0x11100, 0x90)]));
    assert_eq!(scan_buffer(&memory, 0, 0x1000), Ok(vec![]));
    assert_eq!(scan_buffer(&memory, 0x10000, 0), Ok(vec![]));
    // The file does not fit in the buffer.
    assert_eq!(scan_buffer(&memory, 0x10000, 0x7f), Ok(vec![]));
    assert!(BufferScan::new(u64::MAX, 1).is_none());
}

#[test]
fn a_buffer_whose_file_cannot_be_read_is_an_error() {
    let mut scan = BufferScan::new(0x1000, 0x1000).unwrap();
    scan.supply(Some(dex(0x80)));
    assert_eq!(scan.next(), ScanStep::Read { addr: 0x1000, len: 0x80 });
    scan.supply(None);
    assert_eq!(scan.finish(), Err(0x1000));
}

fn elf_image() -> Vec<u8> {
    let mut elf = vec![0u8; 0x1000];
    elf[..6].copy_from_slice(&[0x7f, b'E', b'L', b'F', 2, 1]);
    elf[0x10] = 3;
    elf[0x12] = 183;
    put_u64(&mut elf, 0x20, 0x40);
    elf[0x36] = 0x38;
    elf[0x38] = 2;
    // Two loaded segments, the second one ends at 0x1234.
    put_u32(&mut elf, 0x40, 1);
    put_u64(&mut elf, 0x40 + 0x20, 0x400);
    put_u32(&mut elf, 0x78, 1);
    put_u64(&mut elf, 0x78 + 0x08, 0x1000);
    put_u64(&mut elf, 0x78 + 0x20, 0x234);
    elf
}

#[test]
fn elf_headers_are_tested_field_by_field() {
    let good = elf_image();
    let headers = ProgramHeaders {
        offset: 0x40,
        size: 0x70,
        entry_size: 0x38,
        count: 2,
    };
    assert_eq!(find_program_headers(&good), Some(headers));
    assert_eq!(find_program_headers(&good[..0x3f]), None);
    for (off, value) in [(0, 0), (4, 1), (5, 2), (0x10, 2), (0x12, 62), (0x20, 0), (0x36, 0x37), (0x38, 0), (0x38, 129), (0x22, 0x10)] {
        let mut bad = good.clone();
        bad[off] = value;
        assert_eq!(find_program_headers(&bad), None, "byte at {off:#x}");
    }
    assert_eq!(measure_elf(&good[0x40..0xb0], headers), Some(0x2000));
    // Program headers that are cut off, and none that is loaded.
    assert_eq!(measure_elf(&good[0x40..0xaf], headers), None);
    assert_eq!(measure_elf(&[0; 0x70], headers), None);
    let mut large = good.clone();
    put_u64(&mut large, 0x78 + 0x20, 0x1000_0000);
    assert_eq!(measure_elf(&large[0x40..0xb0], headers), None);
}

#[test]
fn sizes_are_rounded_up_to_pages() {
    assert_eq!(align_up(0, 0x1000), 0);
    assert_eq!(align_up(1, 0x1000), 0x1000);
    assert_eq!(align_up(0x1000, 0x1000), 0x1000);
    assert_eq!(align_up(5, 0), 5);
    assert_eq!(align_up(u64::MAX, 0x1000), u64::MAX);
}

fn scan_elf(memory: &Memory, addr: u64, size: u64) -> Result<Option<(u64, u64)>, ElfReadError> {
    let mut scan = ElfScan::new(addr, size).unwrap();
    while let ScanStep::Read { addr, len } = scan.next() {
        scan.supply(memory.read(addr, len));
    }
    scan.finish().map(|found| found.map(|f| (f.base, f.size)))
}

#[test]
fn the_image_around_a_buffer_is_found() {
    let mut memory = Memory::new(0x40_0000, 0x6000);
    memory.write(0x40_1008, b"\x7fELF");
    memory.write(0x40_2000, &elf_image());
    assert_eq!(scan_elf(&memory, 0x40_3000, 0x1000), Ok(Some((0x40_2000, 0x2000))));
    assert_eq!(scan_elf(&memory, 0x40_0000, 0x2000), Ok(None));
    assert_eq!(scan_elf(&memory, 0, 0x2000), Ok(None));
    assert_eq!(scan_elf(&memory, 0x40_3000, 0x3f), Ok(None));
    assert!(ElfScan::new(u64::MAX, 0x40).is_none());
}

#[test]
fn parts_of_an_image_that_cannot_be_read_are_errors() {
    let page = elf_image();
    let start = |reads: &[Option<Vec<u8>>]| {
        let mut scan = ElfScan::new(0x1000, 0x1000).unwrap();
        // The first page, at address zero.
        scan.supply(None);
        for data in reads {
            assert_ne!(scan.next(), ScanStep::Done);
            scan.supply(data.clone());
        }
        assert_eq!(scan.next(), ScanStep::Done);
        scan.finish()
    };
    let phdr = page[0x40..0xb0].to_vec();
    let header = page[..0x40].to_vec();
    let page = Some(page);
    let (phdr, header) = (Some(phdr), Some(header));
    assert_eq!(
        start(&[page.clone(), None]),
        Err(ElfReadError::ProgramHeaders(0x1000))
    );
    assert_eq!(
        start(&[page.clone(), phdr.clone(), None]),
        Err(ElfReadError::Header(0x1000))
    );
    assert_eq!(
        start(&[page.clone(), phdr.clone(), header.clone(), None]),
        Err(ElfReadError::ProgramHeaders(0x1000))
    );
    assert_eq!(
        start(&[page.clone(), phdr.clone(), header.clone(), phdr.clone(), None]),
        Err(ElfReadError::Image(0x1000))
    );
    let found = start(&[page, phdr.clone(), header, phdr, Some(vec![1, 2])]).unwrap().unwrap();
    assert_eq!((found.base, found.size, found.bytes), (0x1000, 0x2000, vec![1, 2]));
}

const MAPS: &str = "\
7000-8000 r-xp 00000000 fe:01 77 /system/lib64/libart.so
1000-3000 rw-p 00000000 00:00 0
5000-6000 ---p 00000000 00:00 0 [anon:a  b]
nonsense
";

#[test]
fn lines_of_a_memory_map_are_read() {
    let entry = parse_maps_entry("1000-2fff r--p 0 0:0 5 /data/app/a b.apk").unwrap();
    assert_eq!((entry.start, entry.end), (0x1000, 0x2fff));
    assert_eq!(entry.path, "/data/app/a b.apk");
    assert!(parse_maps_entry("1000-2fff r--p 0 0:0").is_none());
    assert!(parse_maps_entry("10002fff r--p 0 0:0 5").is_none());
    assert!(parse_maps_entry("1000-xyz r--p 0 0:0 5").is_none());
    assert!(parse_maps_entry("").is_none());
    assert!(parse_readable_map_region("1000-2000 -w-p 0 0:0 5").is_none());
    assert_eq!(parse_readable_map_region("1000-2000 r--p 0 0:0 5").unwrap().path, "");
}

#[test]
fn regions_to_scan_are_readable_and_not_too_large() {
    let starts: Vec<u64> = regions_to_scan(MAPS).iter().map(|r| r.start).collect();
    // The file of the system is left out.
    assert_eq!(starts, vec![0x1000]);
    let app = MAPS.replace("/system/lib64", "/data/app");
    let starts: Vec<u64> = regions_to_scan(&app).iter().map(|r| r.start).collect();
    assert_eq!(starts, vec![0x7000, 0x1000]);
    assert!(regions_to_scan("2000-1000 r--p 0 0:0 5\n0-20001000 r--p 0 0:0 5\n").is_empty());
    assert_eq!(regions_to_scan("0-20000000 r--p 0 0:0 5").len(), 1);
}

#[test]
fn addresses_are_looked_up() {
    let mut maps = MapsRegions::default();
    assert_eq!(maps.lookup(0x1000), None);
    maps.refresh(Some(MAPS));
    let starts: Vec<u64> = maps.regions.iter().map(|r| r.start).collect();
    assert_eq!(starts, vec![0x1000, 0x5000, 0x7000]);
    assert_eq!(maps.lookup(0x7fff), Some("/system/lib64/libart.so"));
    assert_eq!(maps.lookup(0x8000), None);
    assert_eq!(maps.lookup(0xfff), None);
    assert_eq!(maps.lookup(0x1000), Some(""));
    assert_eq!(maps.lookup(0x4000), None);
    // The words of a path are joined by one blank.
    assert_eq!(maps.lookup(0x5000), Some("[anon:a b]"));
    // What cannot be read changes nothing.
    maps.refresh(None);
    assert_eq!(maps.regions.len(), 3);
    maps.refresh(Some(""));
    assert!(maps.regions.is_empty());
}

#[test]
fn regions_that_start_alike_stay_in_order() {
    let mut maps = MapsRegions::default();
    maps.refresh(Some("2000-3000 r 0 0 0 a\n1000-1001 r 0 0 0 b\n1000-1002 r 0 0 0 c\n"));
    let paths: Vec<&str> = maps.regions.iter().map(|r| r.path.as_str()).collect();
    assert_eq!(paths, vec!["b", "c", "a"]);
}

#[test]
fn processes_are_matched_by_user() {
    assert!(uid_line_matches("Uid:\t10123\t10123\t10123\t10123", 10123));
    assert!(!uid_line_matches("Uid:\t10123\t1\t1\t1", 1));
    assert!(!uid_line_matches("Gid:\t10123", 10123));
    assert!(!uid_line_matches("Uid:", 0));
    assert!(status_has_uid("Name:\tx\nUid:\t5 5 5 5\nGid:\t6\n", 5));
    assert!(!status_has_uid("Name:\tx\nGid:\t5\n", 5));
    assert!(!status_has_uid("", 0));
    assert_eq!(parse_pid("1234"), Some(1234));
    assert_eq!(parse_pid("self"), None);
    assert_eq!(parse_pid("4294967296"), None);
}

#[test]
fn a_stopped_scan_keeps_what_it_has_found() {
    let mut memory = Memory::new(0x10000, 0x4000);
    memory.write(0x10010, &dex(0x80));
    memory.write(0x11010, &dex(0x80));

    let mut region = RegionScan::new(0x10000, 0x14000, false);
    let mut reads = 0;
    while let ScanStep::Read { addr, len } = region.next() {
        if region.may_stop() && reads > 0 {
            region.stop();
        } else {
            region.supply(memory.read(addr, len));
            reads += 1;
        }
    }
    assert_eq!(reads, 3);
    assert_eq!(region.found.len(), 1);
    assert_eq!(region.found[0].begin, 0x10010);

    // The header that a buffer starts with is read before the first page.
    let mut buffer = BufferScan::new(0x10000, 0x4000).unwrap();
    assert!(!buffer.may_stop());
    let mut pages = 0;
    while let ScanStep::Read { addr, len } = buffer.next() {
        if buffer.may_stop() {
            pages += 1;
        }
        if pages == 2 {
            buffer.stop();
        } else {
            buffer.supply(memory.read(addr, len));
        }
    }
    assert_eq!(buffer.finish().unwrap().len(), 1);
}

#[test]
fn a_stopped_search_finds_nothing() {
    let mut around = CodeItemScan::new(0x10050);
    assert!(around.may_stop());
    around.stop();
    assert_eq!(around.next(), ScanStep::Done);
    assert_eq!(around.finish(), Ok(None));

    let mut elf = ElfScan::new(0x10000, 0x1000).unwrap();
    assert!(elf.may_stop());
    elf.stop();
    assert_eq!(elf.next(), ScanStep::Done);
    assert_eq!(elf.finish(), Ok(None));
}
