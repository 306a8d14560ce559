use rkernel::config::{AT_PAGESZ, AT_PHDR, AT_PHENT, AT_PHNUM, AT_RANDOM, PAGE_SIZE};
use rkernel::elf::SegmentType;
use rkernel::init_info::InitInfo;
use rkernel::loader::ElfLoader;
use rkernel::memory::UserMemory;
use rkernel::stride::{Stride, BIG_STRIDE};
use rkernel::console::console_codes;
use rkernel::syscall::fs::{
    sys_close, sys_fstat, sys_linkat, sys_open, sys_unlinkat, sys_write_pieces, OpenFile, Stat, STAT_SIZE,
};
use rkernel::syscall::process::{
    find_app, sys_exec, sys_fork, sys_get_time, sys_getpid, sys_mmap, sys_munmap, sys_sbrk,
    sys_set_priority, sys_spawn, sys_waitpid, sys_yield, ChildTask, TimeVal,
};
use rkernel::trap::{user_sstatus, TrapContext, SSTATUS_SPIE, SSTATUS_SPP};

fn put16(buf: &mut [u8], at: usize, v: u16) {
    buf[at..at + 2].copy_from_slice(&v.to_le_bytes());
}
fn put32(buf: &mut [u8], at: usize, v: u32) {
    buf[at..at + 4].copy_from_slice(&v.to_le_bytes());
}
fn put64(buf: &mut [u8], at: usize, v: u64) {
    buf[at..at + 8].copy_from_slice(&v.to_le_bytes());
}

/// A program header: (type, offset, vaddr, filesz, memsz).
type Ph = (u32, u64, u64, u64, u64);

/// A little-endian ELF file of the given class and machine, with program
/// headers right after the file header and `extra` bytes after them.
fn build_elf(class: u8, machine: u16, phs: &[Ph], extra: &[u8]) -> Vec<u8> {
    let ph_off = 64usize;
    let mut buf = vec![0u8; ph_off + 56 * phs.len()];
    buf[0..4].copy_from_slice(&[0x7f, b'E', b'L', b'F']);
    buf[4] = class;
    buf[5] = 1;
    buf[6] = 1;
    put16(&mut buf, 16, 2);
    put16(&mut buf, 18, machine);
    put32(&mut buf, 20, 1);
    put64(&mut buf, 24, 0x10000);
    put64(&mut buf, 32, if phs.is_empty() { 0 } else { ph_off as u64 });
    put16(&mut buf, 52, 64);
    put16(&mut buf, 54, 56);
    put16(&mut buf, 56, phs.len() as u16);
    for (i, ph) in phs.iter().enumerate() {
        let at = ph_off + 56 * i;
        put32(&mut buf, at, ph.0);
        put32(&mut buf, at + 4, 5);
        put64(&mut buf, at + 8, ph.1);
        put64(&mut buf, at + 16, ph.2);
        put64(&mut buf, at + 24, ph.2);
        put64(&mut buf, at + 32, ph.3);
        put64(&mut buf, at + 40, ph.4);
        put64(&mut buf, at + 48, 0x1000);
    }
    buf.extend_from_slice(extra);
    buf
}

fn word(bytes: &[u8], at: usize) -> u64 {
    u64::from_le_bytes(bytes[at..at + 8].try_into().unwrap())
}

// ---------------------------------------------------------------- stride

#[test]
fn stride_starts_at_zero() {
    assert_eq!(Stride::default().value(), 0);
}

#[test]
fn stride_step_adds_big_stride_over_priority() {
    let mut s = Stride::default();
    s.step(2);
    assert_eq!(s.value(), BIG_STRIDE / 2);
    s.step(16);
    assert_eq!(s.value(), BIG_STRIDE / 2 + BIG_STRIDE / 16);
    assert_eq!(BIG_STRIDE, usize::MAX / 10000);
}

#[test]
fn stride_higher_priority_moves_less() {
    let mut a = Stride::new(100);
    let mut b = Stride::new(100);
    a.step(3);
    b.step(30);
    assert!(b.value() < a.value());
    assert_eq!(a.value(), 100 + BIG_STRIDE / 3);
}

// ---------------------------------------------------------------- trap context

#[test]
fn user_sstatus_clears_spp_and_sets_spie() {
    let bits = 0x8000_0000_0000_0122usize;
    let r = user_sstatus(bits);
    assert_eq!(r & SSTATUS_SPP, 0);
    assert_eq!(r & SSTATUS_SPIE, SSTATUS_SPIE);
    assert_eq!(r, 0x8000_0000_0000_0022);
    assert_eq!(user_sstatus(r), r);
    assert_eq!(user_sstatus(0), 0x20);
}

#[test]
fn app_init_context_sets_entry_and_stack() {
    let cx = TrapContext::app_init_context(0x1000, 0x7fff_f000, 0x100);
    assert_eq!(cx.sepc, 0x1000);
    assert_eq!(cx.x[2], 0x7fff_f000);
    assert_eq!(cx.sstatus, 0x20);
    for (i, r) in cx.x.iter().enumerate() {
        if i != 2 {
            assert_eq!(*r, 0);
        }
    }
}

#[test]
fn set_sp_changes_only_x2() {
    let mut cx = TrapContext::app_init_context(7, 8, 0);
    cx.x[5] = 55;
    cx.set_sp(99);
    assert_eq!(cx.x[2], 99);
    assert_eq!(cx.x[5], 55);
    assert_eq!(cx.sepc, 7);
}

// ---------------------------------------------------------------- memory

#[test]
fn mapped_pages_read_back_written_bytes() {
    let mut m = UserMemory::new();
    assert!(m.map_range(0x1000, 2 * PAGE_SIZE, 3));
    assert!(m.page_mapped(1) && m.page_mapped(2) && !m.page_mapped(3));
    assert_eq!(m.read_byte(0x1abc), 0);
    m.write_bytes(0x1ffe, &[1, 2, 3, 4]);
    assert_eq!(m.read_bytes(0x1ffd, 6), vec![0, 1, 2, 3, 4, 0]);
    m.write_byte(0x2000, 9);
    assert_eq!(m.read_byte(0x2000), 9);
}

#[test]
fn translated_buffers_split_at_page_boundaries() {
    let mut m = UserMemory::new();
    assert!(m.map_range(0, 3 * PAGE_SIZE, 1));
    let bufs = m.translated_byte_buffer(PAGE_SIZE - 10, PAGE_SIZE + 20);
    let lens: Vec<usize> = bufs.iter().map(|b| b.len()).collect();
    assert_eq!(lens, vec![10, PAGE_SIZE, 10]);
    assert!(m.is_range_mapped(PAGE_SIZE - 10, PAGE_SIZE + 20));
    assert!(!m.is_range_mapped(2 * PAGE_SIZE, PAGE_SIZE + 1));
}

#[test]
fn write_buffers_stores_them_back_to_back() {
    let mut m = UserMemory::new();
    assert!(m.map_range(0x3000, PAGE_SIZE, 3));
    m.write_buffers(0x3010, &vec![vec![1, 2], vec![], vec![3]]);
    assert_eq!(m.read_bytes(0x300f, 5), vec![0, 1, 2, 3, 0]);
}

#[test]
fn map_twice_fails_and_unmap_undoes_map() {
    let mut m = UserMemory::new();
    assert!(m.map_range(0x5000, 100, 7));
    assert!(!m.map_range(0x5000, 1, 7));
    assert!(!m.map_range(0x4000, 0x2000, 7));
    assert!(!m.page_mapped(4));
    assert!(m.unmap_range(0x5000, 100));
    assert!(!m.page_mapped(5));
    assert!(!m.unmap_range(0x5000, 100));
}

#[test]
fn remapped_page_is_zeroed() {
    let mut m = UserMemory::new();
    assert!(m.map_range(0x6000, 1, 1));
    m.write_byte(0x6001, 77);
    m.unmap_page(6);
    m.map_page(6, 1);
    assert_eq!(m.read_byte(0x6001), 0);
}

#[test]
fn translated_str_stops_at_nul() {
    let mut m = UserMemory::new();
    assert!(m.map_range(0x7000, 2 * PAGE_SIZE, 1));
    m.write_bytes(0x7ffd, b"hello\0world");
    assert_eq!(m.translated_str(0x7ffd), b"hello".to_vec());
    assert_eq!(m.translated_str(0x8003), b"world".to_vec());
}

// ---------------------------------------------------------------- ELF loader

#[test]
fn loader_rejects_garbage() {
    assert_eq!(ElfLoader::new(&[1, 2, 3]).err(), Some("Invalid ELF"));
    let mut not_elf = build_elf(2, 0xF3, &[], &[]);
    not_elf[1] = b'X';
    assert_eq!(ElfLoader::new(&not_elf).err(), Some("Invalid ELF"));
}

#[test]
fn loader_rejects_32_bit() {
    let mut elf = build_elf(2, 0xF3, &[], &[]);
    elf[4] = 1;
    assert_eq!(
        ElfLoader::new(&elf).err(),
        Some("32-bit ELF is not supported on the riscv64")
    );
}

#[test]
fn loader_rejects_other_machines() {
    let elf = build_elf(2, 0x3E, &[], &[]);
    assert_eq!(ElfLoader::new(&elf).err(), Some("invalid ELF arch"));
}

#[test]
fn loader_reads_header_fields() {
    let elf = build_elf(2, 0xF3, &[(1, 0, 0x10000, 64, 64), (4, 0, 0, 0, 0)], &[]);
    let loader = ElfLoader::new(&elf).ok().unwrap();
    let h = loader.elf_header();
    assert_eq!(h.class, 2);
    assert!(h.riscv);
    assert_eq!(h.ph_offset, 64);
    assert_eq!(h.ph_entry_size, 56);
    assert_eq!(h.ph_count, 2);
    assert!(loader.table_is_readable());
}

#[test]
fn load_segments_copies_file_bytes_and_zeroes_bss() {
    let payload: Vec<u8> = (0..300u32).map(|i| (i % 251) as u8 + 1).collect();
    let data_off = 64 + 56 * 2;
    let elf = build_elf(
        2,
        0xF3,
        &[
            (1, data_off as u64, 0x10ff0, 300, 300 + 5000),
            (6, 0, 0, 0, 0),
        ],
        &payload,
    );
    let loader = ElfLoader::new(&elf).ok().unwrap();
    let mut m = UserMemory::new();
    assert!(m.map_range(0x10000, 0x3000, 7));
    // Dirty the BSS area first: loading must zero it.
    m.write_bytes(0x11200, &[0xaa; 16]);
    assert!(loader.can_load_into(&m));
    assert_eq!(loader.load_segments(&mut m), Ok(()));
    assert_eq!(m.read_bytes(0x10ff0, 300), payload);
    assert!(m.read_bytes(0x10ff0 + 300, 5000).iter().all(|b| *b == 0));
    assert_eq!(m.read_byte(0x10fef), 0);
}

#[test]
fn load_segments_later_segment_wins() {
    let payload = vec![1u8; 8];
    let more = vec![2u8; 4];
    let data_off = (64 + 56 * 2) as u64;
    let mut extra = payload.clone();
    extra.extend_from_slice(&more);
    let elf = build_elf(
        2,
        0xF3,
        &[(1, data_off, 0x20000, 8, 8), (1, data_off + 8, 0x20004, 4, 4)],
        &extra,
    );
    let loader = ElfLoader::new(&elf).ok().unwrap();
    let mut m = UserMemory::new();
    assert!(m.map_range(0x20000, 16, 7));
    assert_eq!(loader.load_segments(&mut m), Ok(()));
    assert_eq!(m.read_bytes(0x20000, 8), vec![1, 1, 1, 1, 2, 2, 2, 2]);
}

#[test]
fn load_segments_stops_at_invalid_segment_type() {
    let data_off = (64 + 56 * 3) as u64;
    let elf = build_elf(
        2,
        0xF3,
        &[
            (1, data_off, 0x30000, 2, 2),
            (0x1234_5678, 0, 0, 0, 0),
            (1, data_off, 0x30100, 2, 2),
        ],
        &[5, 6],
    );
    let loader = ElfLoader::new(&elf).ok().unwrap();
    let mut m = UserMemory::new();
    assert!(m.map_range(0x30000, 1, 7));
    assert_eq!(loader.load_segments(&mut m), Err("Invalid Segment Type"));
    assert_eq!(m.read_bytes(0x30000, 2), vec![5, 6]);
    assert_eq!(m.read_bytes(0x30100, 2), vec![0, 0]);
    let _ = SegmentType::Invalid;
}

#[test]
fn load_segments_checked_refuses_unmapped_memory() {
    let data_off = (64 + 56) as u64;
    let elf = build_elf(2, 0xF3, &[(1, data_off, 0x40000, 2, 2)], &[5, 6]);
    let loader = ElfLoader::new(&elf).ok().unwrap();
    let mut m = UserMemory::new();
    assert!(!loader.can_load_into(&m));
    assert_eq!(loader.load_segments_checked(&mut m), None);
    assert!(m.map_range(0x40000, 2, 7));
    assert_eq!(loader.load_segments_checked(&mut m), Some(Ok(())));
    assert_eq!(m.read_bytes(0x40000, 2), vec![5, 6]);
}

#[test]
fn load_segments_checked_refuses_segment_past_end_of_file() {
    let data_off = (64 + 56) as u64;
    let elf = build_elf(2, 0xF3, &[(1, data_off, 0x40000, 10, 10)], &[5, 6]);
    let loader = ElfLoader::new(&elf).ok().unwrap();
    let mut m = UserMemory::new();
    assert!(m.map_range(0x40000, 10, 7));
    assert_eq!(loader.load_segments_checked(&mut m), None);
}

#[test]
fn init_stack_lays_out_argc_argv_and_auxv() {
    let elf = build_elf(2, 0xF3, &[(1, 0, 0x10000, 120, 120), (4, 0, 0x5000, 0, 0)], &[]);
    let loader = ElfLoader::new(&elf).ok().unwrap();
    let mut m = UserMemory::new();
    let top = 0x90000usize;
    assert!(m.map_range(top - 2 * PAGE_SIZE, 2 * PAGE_SIZE, 3));
    let args = vec!["hello".to_string(), "a".to_string()];
    assert!(loader.can_init_stack_into(&m, top, &args));
    let random: Vec<u8> = (100..116).collect();
    let sp = loader.init_stack(&mut m, top, args, &random);
    assert_eq!(sp % 16, 0);
    let img = m.read_bytes(sp, top - sp);
    // argc, argv[0], argv[1], NULL, envp NULL
    assert_eq!(word(&img, 0), 2);
    let argv0 = word(&img, 8) as usize;
    let argv1 = word(&img, 16) as usize;
    assert_eq!(word(&img, 24), 0);
    assert_eq!(word(&img, 32), 0);
    assert_eq!(m.translated_str(argv0), b"hello".to_vec());
    assert_eq!(m.translated_str(argv1), b"a".to_vec());
    // auxv pairs in key order, then AT_NULL
    let aux = 40;
    assert_eq!(word(&img, aux) as usize, AT_PHDR);
    assert_eq!(word(&img, aux + 8), 0x10000 + 64);
    assert_eq!(word(&img, aux + 16) as usize, AT_PHENT);
    assert_eq!(word(&img, aux + 24), 56);
    assert_eq!(word(&img, aux + 32) as usize, AT_PHNUM);
    assert_eq!(word(&img, aux + 40), 2);
    assert_eq!(word(&img, aux + 48) as usize, AT_PAGESZ);
    assert_eq!(word(&img, aux + 56) as usize, PAGE_SIZE);
    assert_eq!(word(&img, aux + 64) as usize, AT_RANDOM);
    let random = word(&img, aux + 72) as usize;
    assert_eq!(word(&img, aux + 80), 0);
    assert_eq!(word(&img, aux + 88), 0);
    assert_eq!(random, sp + aux + 96);
    assert_eq!(m.read_bytes(random, 16), (100..116).collect::<Vec<u8>>());
    assert_eq!(argv0, random + 16);
    assert_eq!(argv1, random + 16 + 6);
}

#[test]
fn init_stack_base_is_zero_without_segment_at_offset_zero() {
    let data_off = (64 + 56) as u64;
    let elf = build_elf(2, 0xF3, &[(1, data_off, 0x10000, 0, 0)], &[]);
    let loader = ElfLoader::new(&elf).ok().unwrap();
    let mut m = UserMemory::new();
    let top = 0x90000usize;
    assert!(m.map_range(top - PAGE_SIZE, PAGE_SIZE, 3));
    let sp = loader.init_stack_checked(&mut m, top, vec!["x".to_string()], &[7u8; 16]).unwrap();
    let img = m.read_bytes(sp, top - sp);
    assert_eq!(word(&img, 0), 1);
    // auxv starts after argc, argv[0], NULL, envp NULL
    assert_eq!(word(&img, 32) as usize, AT_PHDR);
    assert_eq!(word(&img, 40), 64);
}

#[test]
fn init_stack_checked_refuses_unmapped_stack() {
    let elf = build_elf(2, 0xF3, &[], &[]);
    let loader = ElfLoader::new(&elf).ok().unwrap();
    let mut m = UserMemory::new();
    assert_eq!(loader.init_stack_checked(&mut m, 0x90000, vec![], &[0u8; 16]), None);
    assert!(m.map_range(0x90000 - PAGE_SIZE, PAGE_SIZE, 3));
    assert_eq!(loader.init_stack_checked(&mut m, 0x90000, vec![], &[0u8; 15]), None);
    assert!(loader.init_stack_checked(&mut m, 0x90000, vec![], &[0u8; 16]).is_some());
}

#[test]
fn serialize_size_is_multiple_of_sixteen() {
    let info = InitInfo {
        args: vec!["abc".to_string()],
        envs: vec!["K=V".to_string()],
        auxv: vec![(AT_PAGESZ, 4096)],
    };
    let img = info.serialize(0x1000, &[9u8; 16]);
    assert_eq!(&img[72..88], &[9u8; 16]);
    // words: argc, argv0, NULL, envp0, NULL, one pair, AT_NULL pair = 9
    // then 16 random bytes, then "abc\0K=V\0" = 8 bytes: 72 + 16 + 8 = 96
    assert_eq!(img.len(), 96);
    let base = 0x1000 - 96;
    assert_eq!(word(&img, 0), 1);
    assert_eq!(word(&img, 8) as usize, base + 88);
    assert_eq!(word(&img, 24) as usize, base + 92);
    assert_eq!(&img[88..96], b"abc\0K=V\0");
}

// ---------------------------------------------------------------- system calls

#[test]
fn get_time_stores_seconds_and_microseconds() {
    let mut m = UserMemory::new();
    assert!(m.map_range(0x2000, 0x2000, 3));
    assert_eq!(sys_get_time(&mut m, 0x2ff8, 0, 3_250_000), 0);
    let b = m.read_bytes(0x2ff8, 16);
    assert_eq!(word(&b, 0), 3);
    assert_eq!(word(&b, 8), 250_000);
    let tv = TimeVal::from_us(1_000_001);
    assert_eq!((tv.sec, tv.usec), (1, 1));
}

#[test]
fn mmap_rejects_bad_arguments() {
    let mut m = UserMemory::new();
    assert_eq!(sys_mmap(&mut m, 0x1001, 10, 1), -1);
    assert_eq!(sys_mmap(&mut m, 0x1000, 10, 0), -1);
    assert_eq!(sys_mmap(&mut m, 0x1000, 10, 8), -1);
    assert!(!m.page_mapped(1));
    assert_eq!(sys_mmap(&mut m, 0x1000, 10, 3), 0);
    assert!(m.page_mapped(1));
    assert_eq!(sys_mmap(&mut m, 0x1000, 10, 3), -1);
}

#[test]
fn munmap_needs_aligned_mapped_range() {
    let mut m = UserMemory::new();
    assert_eq!(sys_mmap(&mut m, 0x1000, 0x2000, 7), 0);
    assert_eq!(sys_munmap(&mut m, 0x1001, 10), -1);
    assert_eq!(sys_munmap(&mut m, 0x2000, 0x2000), -1);
    assert!(m.page_mapped(2));
    assert_eq!(sys_munmap(&mut m, 0x1000, 0x2000), 0);
    assert!(!m.page_mapped(1) && !m.page_mapped(2));
}

#[test]
fn set_priority_accepts_two_or_more() {
    let mut prio = 16usize;
    assert_eq!(sys_set_priority(&mut prio, 1), -1);
    assert_eq!(prio, 16);
    assert_eq!(sys_set_priority(&mut prio, -5), -1);
    assert_eq!(sys_set_priority(&mut prio, 2), 2);
    assert_eq!(prio, 2);
    assert_eq!(sys_set_priority(&mut prio, 100), 100);
    assert_eq!(prio, 100);
}

#[test]
fn waitpid_without_matching_child_returns_minus_one() {
    let mut children = vec![ChildTask { pid: 3, zombie: true, exit_code: 1 }];
    let mut m = UserMemory::new();
    assert_eq!(sys_waitpid(&mut children, &mut m, 4, 0), -1);
    let mut none: Vec<ChildTask> = vec![];
    assert_eq!(sys_waitpid(&mut none, &mut m, -1, 0), -1);
    assert_eq!(children.len(), 1);
}

#[test]
fn waitpid_with_running_child_returns_minus_two() {
    let mut children = vec![
        ChildTask { pid: 3, zombie: false, exit_code: 0 },
        ChildTask { pid: 4, zombie: true, exit_code: 0 },
    ];
    let mut m = UserMemory::new();
    assert_eq!(sys_waitpid(&mut children, &mut m, 3, 0), -2);
    assert_eq!(children.len(), 2);
}

#[test]
fn waitpid_reaps_first_exited_child() {
    let mut children = vec![
        ChildTask { pid: 3, zombie: false, exit_code: 0 },
        ChildTask { pid: 4, zombie: true, exit_code: -7 },
        ChildTask { pid: 5, zombie: true, exit_code: 9 },
    ];
    let mut m = UserMemory::new();
    assert!(m.map_range(0x1000, 4, 3));
    assert_eq!(sys_waitpid(&mut children, &mut m, -1, 0x1004), 4);
    assert_eq!(m.read_bytes(0x1004, 4), (-7i32).to_le_bytes().to_vec());
    assert_eq!(children.iter().map(|c| c.pid).collect::<Vec<_>>(), vec![3, 5]);
    assert_eq!(sys_waitpid(&mut children, &mut m, 5, 0x1008), 5);
    assert_eq!(m.read_bytes(0x1008, 4), 9i32.to_le_bytes().to_vec());
    assert_eq!(sys_waitpid(&mut children, &mut m, 5, 0x1008), -1);
}

#[test]
fn fork_child_sees_zero() {
    let mut cx = TrapContext::app_init_context(0x1000, 0x2000, 0);
    cx.x[10] = 42;
    cx.x[11] = 43;
    assert_eq!(sys_fork(&mut cx, 17), 17);
    assert_eq!(cx.x[10], 0);
    assert_eq!(cx.x[11], 43);
}

#[test]
fn small_process_calls() {
    assert_eq!(sys_getpid(12), 12);
    assert_eq!(sys_yield(), 0);
    assert_eq!(sys_sbrk(Some(0x8000)), 0x8000);
    assert_eq!(sys_sbrk(None), -1);
}

#[test]
fn exec_and_spawn_find_the_app_by_name() {
    let names = vec![b"ch5_spawn0".to_vec(), b"initproc".to_vec(), b"user_shell".to_vec()];
    assert_eq!(find_app(&names, b"initproc"), Some(1));
    assert_eq!(find_app(&names, b"init"), None);
    let mut m = UserMemory::new();
    assert!(m.map_range(0x1000, 64, 1));
    m.write_bytes(0x1000, b"user_shell\0nope\0");
    assert_eq!(sys_exec(&m, 0x1000, &names), (0, Some(2)));
    assert_eq!(sys_exec(&m, 0x100b, &names), (-1, None));
    assert_eq!(sys_spawn(&m, 0x1000, &names, 9), (9, Some(2)));
    assert_eq!(sys_spawn(&m, 0x100b, &names, 9), (-1, None));
}

#[test]
fn fstat_copies_the_status_record() {
    let st = Stat { dev: 0, ino: 5, mode: 0o100000, nlink: 2 };
    let table = vec![None, Some(OpenFile { stat: Some(st) })];
    let mut m = UserMemory::new();
    assert!(m.map_range(0x1000, STAT_SIZE, 3));
    assert_eq!(sys_fstat(&table, 0, &mut m, 0x1000), -1);
    assert_eq!(sys_fstat(&table, 7, &mut m, 0x1000), -1);
    assert_eq!(sys_fstat(&table, 1, &mut m, 0x1000), 0);
    let b = m.read_bytes(0x1000, STAT_SIZE);
    assert_eq!(word(&b, 0), 0);
    assert_eq!(word(&b, 8), 5);
    assert_eq!(u32::from_le_bytes(b[16..20].try_into().unwrap()), 0o100000);
    assert_eq!(u32::from_le_bytes(b[20..24].try_into().unwrap()), 2);
    assert!(b[24..].iter().all(|x| *x == 0));
}

#[test]
fn open_uses_lowest_free_descriptor() {
    let f = OpenFile { stat: None };
    let mut table = vec![Some(f), None, Some(f)];
    assert_eq!(sys_open(&mut table, None), -1);
    assert_eq!(sys_open(&mut table, Some(f)), 1);
    assert_eq!(sys_open(&mut table, Some(f)), 3);
    assert_eq!(table.len(), 4);
    assert!(table.iter().all(|e| e.is_some()));
}

#[test]
fn close_frees_an_open_descriptor_once() {
    let f = OpenFile { stat: None };
    let mut table = vec![Some(f), Some(f)];
    assert_eq!(sys_close(&mut table, 1), 0);
    assert!(table[1].is_none());
    assert_eq!(sys_close(&mut table, 1), -1);
    assert_eq!(sys_close(&mut table, 5), -1);
    assert!(table[0].is_some());
    assert_eq!(sys_open(&mut table, Some(f)), 1);
}

#[test]
fn loader_reads_entry_point_and_program_headers() {
    let elf = build_elf(2, 0xF3, &[(1, 0, 0x10000, 64, 80), (4, 8, 0x500, 1, 2)], &[]);
    let loader = ElfLoader::new(&elf).ok().unwrap();
    assert_eq!(loader.elf_header().entry_point, 0x10000);
    let ph0 = loader.program_header(0).unwrap();
    assert_eq!(ph0.seg_type, SegmentType::Load);
    assert_eq!((ph0.offset, ph0.virtual_addr, ph0.file_size, ph0.mem_size), (0, 0x10000, 64, 80));
    let ph1 = loader.program_header(1).unwrap();
    assert_eq!(ph1.seg_type, SegmentType::Other);
    assert_eq!((ph1.offset, ph1.virtual_addr, ph1.file_size, ph1.mem_size), (8, 0x500, 1, 2));
    assert!(loader.program_header(2).is_none());
}

#[test]
fn console_codes_are_code_points() {
    assert_eq!(console_codes("A\u{e9}\u{4e2d}"), vec![0x41, 0xe9, 0x4e2d]);
    assert!(console_codes("").is_empty());
}

#[test]
fn misaligned_program_header_table_is_refused() {
    let mut elf = build_elf(2, 0xF3, &[(1, 0, 0x10000, 64, 64)], &[0u8; 8]);
    // Move the table to an odd offset.
    let table: Vec<u8> = elf[64..120].to_vec();
    elf[65..121].copy_from_slice(&table);
    put64(&mut elf, 32, 65);
    let loader = ElfLoader::new(&elf).ok().unwrap();
    assert!(!loader.table_is_readable());
    assert!(loader.program_header(0).is_none());
    let mut m = UserMemory::new();
    assert!(m.map_range(0x10000, 64, 7));
    assert!(!loader.can_load_into(&m));
    assert_eq!(loader.load_segments_checked(&mut m), None);
}

#[test]
fn loader_accepts_unaligned_input_slice() {
    let elf = build_elf(2, 0xF3, &[(1, 0, 0x10000, 64, 64)], &[]);
    let mut shifted = vec![0u8];
    shifted.extend_from_slice(&elf);
    let loader = ElfLoader::new(&shifted[1..]).ok().unwrap();
    assert_eq!(loader.elf_header().ph_count, 1);
    assert_eq!(loader.program_header(0).unwrap().virtual_addr, 0x10000);
}

#[test]
fn write_pieces_only_for_stdout_and_mapped_bytes() {
    let mut m = UserMemory::new();
    assert!(m.map_range(0x1000, 2 * PAGE_SIZE, 3));
    m.write_bytes(0x1ffe, b"hi!");
    let pieces = sys_write_pieces(&m, 1, 0x1ffe, 3).unwrap();
    assert_eq!(pieces, vec![b"hi".to_vec(), b"!".to_vec()]);
    assert_eq!(sys_write_pieces(&m, 2, 0x1ffe, 3), None);
    assert_eq!(sys_write_pieces(&m, 1, 0x2ffe, 3), None);
    assert_eq!(sys_write_pieces(&m, 1, usize::MAX, 2), None);
}

#[test]
fn linkat_and_unlinkat_read_their_paths() {
    let mut m = UserMemory::new();
    assert!(m.map_range(0x1000, 64, 1));
    m.write_bytes(0x1000, b"/a\0/b/c\0");
    assert_eq!(sys_linkat(&m, 0x1000, 0x1003), (b"/a".to_vec(), b"/b/c".to_vec()));
    assert_eq!(sys_unlinkat(&m, 0x1003), b"/b/c".to_vec());
}

#[test]
fn map_missing_keeps_mapped_pages() {
    let mut m = UserMemory::new();
    assert!(m.map_range(0x2000, 1, 5));
    m.write_byte(0x2004, 3);
    m.map_missing(0x1ff0, 0x2000, 7);
    assert!(m.page_mapped(1) && m.page_mapped(2) && m.page_mapped(3) && !m.page_mapped(4));
    assert_eq!(m.read_byte(0x2004), 3);
    assert!(m.is_range_mapped(0x1ff0, 0x2000));
}

#[test]
fn mmap_rejects_before_looking_at_length() {
    let mut m = UserMemory::new();
    assert_eq!(sys_mmap(&mut m, 1, usize::MAX, 3), -1);
    assert_eq!(sys_mmap(&mut m, 0x1000, usize::MAX, 0), -1);
    assert_eq!(sys_munmap(&mut m, 1, usize::MAX), -1);
}

#[test]
fn load_twice_equals_load_once() {
    let data_off = (64 + 56) as u64;
    let elf = build_elf(2, 0xF3, &[(1, data_off, 0x40000, 3, 10)], &[5, 6, 7]);
    let loader = ElfLoader::new(&elf).ok().unwrap();
    let mut m = UserMemory::new();
    assert!(m.map_range(0x40000, 10, 7));
    assert_eq!(loader.load_segments(&mut m), Ok(()));
    let once = m.read_bytes(0x40000, 10);
    assert_eq!(loader.load_segments(&mut m), Ok(()));
    assert_eq!(m.read_bytes(0x40000, 10), once);
    assert_eq!(once, vec![5, 6, 7, 0, 0, 0, 0, 0, 0, 0]);
}
