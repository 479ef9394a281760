use reedos::elf::{ELFError, ELFProgram};
use reedos::id::IdGenerator;
use reedos::kernel::Kernel;
use reedos::layout::MachineLayout;
use reedos::process::ProcessState;

const PAGE: u64 = 4096;

fn layout() -> MachineLayout {
    MachineLayout {
        text_start: 0x0080_0000,
        text_end: 0x0080_2000,
        rodata_start: 0x0080_2000,
        rodata_end: 0x0080_3000,
        data_start: 0x0080_3000,
        data_end: 0x0080_4000,
        stacks_start: 0x0080_4000,
        stacks_end: 0x0080_A000,
        intstacks_start: 0x0080_A000,
        intstacks_end: 0x0081_2000,
        bss_start: 0x0081_2000,
        bss_end: 0x0081_4000,
        memory_start: 0x0080_0000,
        memory_end: 0x0090_0000,
        nhart: 2,
        dram_base: 0x0080_0000,
        stack_pages: 3,
    }
}

fn put_u16(b: &mut Vec<u8>, off: usize, v: u16) {
    b[off] = (v & 0xFF) as u8;
    b[off + 1] = (v >> 8) as u8;
}

fn put_u32(b: &mut Vec<u8>, off: usize, v: u32) {
    for i in 0..4 {
        b[off + i] = ((v >> (8 * i)) & 0xFF) as u8;
    }
}

fn put_u64(b: &mut Vec<u8>, off: usize, v: u64) {
    for i in 0..8 {
        b[off + i] = ((v >> (8 * i)) & 0xFF) as u8;
    }
}

/// type, flags, vaddr, filesz, memsz, align
fn elf_image(entry: u64, segs: &[(u32, u32, u64, u64, u64, u64)]) -> Vec<u8> {
    let mut b = vec![0u8; 64 + segs.len() * 56];
    put_u64(&mut b, 24, entry);
    put_u64(&mut b, 32, 64);
    put_u16(&mut b, 54, 56);
    put_u16(&mut b, 56, segs.len() as u16);
    for (i, s) in segs.iter().enumerate() {
        let off = 64 + i * 56;
        put_u32(&mut b, off, s.0);
        put_u32(&mut b, off + 4, s.1);
        put_u64(&mut b, off + 8, 0);
        put_u64(&mut b, off + 16, s.2);
        put_u64(&mut b, off + 24, 0);
        put_u64(&mut b, off + 32, s.3);
        put_u64(&mut b, off + 40, s.4);
        put_u64(&mut b, off + 48, s.5);
    }
    b
}

fn minimal_image() -> Vec<u8> {
    // one read-execute LOAD segment of one page at 0x4000
    elf_image(0x4000, &[(1, 5, 0x4000, PAGE, PAGE, PAGE)])
}

#[test]
fn elf_parse_reads_the_consumed_fields() {
    let bytes = elf_image(0xABCD, &[(1, 5, 0x4000, PAGE, PAGE, PAGE)]);
    let p = ELFProgram::new64(&bytes).unwrap();
    assert_eq!(p.header.entry, 0xABCD);
    assert_eq!(p.header.program_header_pos, 64);
    assert_eq!(p.header.program_entry_size, 56);
    assert_eq!(p.header.num_program_entries, 1);
    assert_eq!(p.segments.len(), 1);
    assert_eq!(p.segments[0].seg_type, 1);
    assert_eq!(p.segments[0].flags, 5);
    assert_eq!(p.segments[0].vmem_addr, 0x4000);
    assert_eq!(p.segments[0].size_in_file, PAGE);
    assert_eq!(p.segments[0].size_in_memory, PAGE);
    assert_eq!(p.segments[0].alignment, PAGE);
}

#[test]
fn short_images_are_rejected() {
    let bytes = vec![0u8; 32];
    assert_eq!(ELFProgram::new64(&bytes).unwrap_err(), ELFError::MalformedImage);
    // header announces more program headers than the image holds
    let mut b = vec![0u8; 64];
    put_u64(&mut b, 32, 64);
    put_u16(&mut b, 56, 3);
    assert_eq!(ELFProgram::new64(&b).unwrap_err(), ELFError::MalformedImage);
}

#[test]
fn boot_builds_the_kernel_table() {
    let l = layout();
    let k = Kernel::global_init(l).unwrap();
    let vpn = |a: u64| a / PAGE;
    // code is identity-mapped read-execute (2 + 8 + 1)
    assert_eq!(
        k.kernel_table.walk_lookup(vpn(l.text_start)),
        Some((l.text_start, 11))
    );
    // read-only data is read-only (2 + 1)
    assert_eq!(
        k.kernel_table.walk_lookup(vpn(l.rodata_start)),
        Some((l.rodata_start, 3))
    );
    // the heap runs to the end of memory, read-write (2 + 4 + 1)
    assert_eq!(
        k.kernel_table.walk_lookup(vpn(l.memory_end - PAGE)),
        Some((l.memory_end - PAGE, 7))
    );
    // below the kernel nothing is mapped
    assert_eq!(k.kernel_table.walk_lookup(vpn(l.text_start) - 1), None);
}

#[test]
fn stack_guard_pages_stay_unmapped() {
    let l = layout();
    let k = Kernel::global_init(l).unwrap();
    let vpn = |a: u64| a / PAGE;
    // each hart's stack region: guard page at the bottom, stack above it
    for hart in 0..l.nhart {
        let region = l.stacks_start + hart * l.stack_pages * PAGE;
        assert_eq!(k.kernel_table.walk_lookup(vpn(region)), None);
        for off in 1..l.stack_pages {
            let page = region + off * PAGE;
            assert_eq!(k.kernel_table.walk_lookup(vpn(page)), Some((page, 7)));
        }
        // interrupt stacks: guards at offsets zero and two
        let iregion = l.intstacks_start + hart * 4 * PAGE;
        assert_eq!(k.kernel_table.walk_lookup(vpn(iregion)), None);
        assert!(k.kernel_table.walk_lookup(vpn(iregion + PAGE)).is_some());
        assert_eq!(k.kernel_table.walk_lookup(vpn(iregion + 2 * PAGE)), None);
        assert!(k.kernel_table.walk_lookup(vpn(iregion + 3 * PAGE)).is_some());
    }
}

#[test]
fn local_init_records_the_translation_register() {
    let l = layout();
    let mut k = Kernel::global_init(l).unwrap();
    k.local_init(0);
    k.local_init(1);
    let expect = 0x8000_0000_0000_0000u64 + k.kernel_table.base / PAGE;
    assert_eq!(k.active_satp[0], expect);
    assert_eq!(k.active_satp[1], expect);
}

#[test]
fn segments_below_one_page_are_rejected() {
    let l = layout();
    let mut k = Kernel::global_init(l).unwrap();
    let bytes = elf_image(0x800, &[(1, 5, 0x800, PAGE, PAGE, PAGE)]);
    let elf = ELFProgram::new64(&bytes).unwrap();
    assert_eq!(k.create_process(&elf).unwrap_err(), ELFError::MappedZeroPage);
    assert_eq!(k.queue.procs.len(), 0);
}

#[test]
fn unequal_segment_sizes_are_rejected() {
    let l = layout();
    let mut k = Kernel::global_init(l).unwrap();
    let bytes = elf_image(0x4000, &[(1, 5, 0x4000, PAGE, 2 * PAGE, PAGE)]);
    let elf = ELFProgram::new64(&bytes).unwrap();
    assert_eq!(k.create_process(&elf).unwrap_err(), ELFError::InequalSizes);
}

#[test]
fn kernel_text_overlap_and_alignment_are_rejected() {
    let l = layout();
    let mut k = Kernel::global_init(l).unwrap();
    let bytes = elf_image(l.text_start, &[(1, 5, l.text_start, PAGE, PAGE, PAGE)]);
    let elf = ELFProgram::new64(&bytes).unwrap();
    assert_eq!(k.create_process(&elf).unwrap_err(), ELFError::MappedKernelText);
    let bytes = elf_image(0x4000, &[(1, 5, 0x4000, PAGE, PAGE, 2 * PAGE)]);
    let elf = ELFProgram::new64(&bytes).unwrap();
    assert_eq!(k.create_process(&elf).unwrap_err(), ELFError::ExcessiveAlignment);
}

#[test]
fn segments_reaching_into_the_kernel_text_are_rejected() {
    let l = layout();
    let mut k = Kernel::global_init(l).unwrap();
    // starts below the kernel text but extends into it
    let start = l.text_start - PAGE;
    let bytes = elf_image(start, &[(1, 5, start, 2 * PAGE, 2 * PAGE, PAGE)]);
    let elf = ELFProgram::new64(&bytes).unwrap();
    assert_eq!(k.create_process(&elf).unwrap_err(), ELFError::MappedKernelText);
}

#[test]
fn a_later_offending_segment_still_yields_its_policy_error() {
    let l = layout();
    let mut k = Kernel::global_init(l).unwrap();
    // the first segment is fine and gets its pages; the second one maps the
    // zero page and must still be the reported error
    let bytes = elf_image(0x4000, &[
        (1, 5, 0x4000, PAGE, PAGE, PAGE),
        (1, 5, 0x800, PAGE, PAGE, PAGE),
    ]);
    let elf = ELFProgram::new64(&bytes).unwrap();
    assert_eq!(k.create_process(&elf).unwrap_err(), ELFError::MappedZeroPage);
    assert_eq!(k.queue.procs.len(), 0);
}

#[test]
fn a_good_image_reaches_unstarted() {
    let l = layout();
    let mut k = Kernel::global_init(l).unwrap();
    let bytes = minimal_image();
    let elf = ELFProgram::new64(&bytes).unwrap();
    k.create_process(&elf).unwrap();
    assert_eq!(k.queue.procs.len(), 1);
    assert_eq!(k.queue.procs[0].state, ProcessState::Unstarted);
    assert_eq!(k.queue.procs[0].saved_pc, 0x4000);
    // the stack's virtual top sits just below the kernel text
    assert_eq!(k.queue.procs[0].saved_sp, l.text_start);
    // its segment is mapped user-read-execute (1 + 2 + 8 + 16)
    assert_eq!(k.queue.procs[0].pgtbl.walk_lookup(0x4).map(|m| m.1), Some(27));
    // the kernel text is mapped kernel-only into the process space
    assert_eq!(
        k.queue.procs[0].pgtbl.walk_lookup(l.text_start / PAGE).map(|m| m.1),
        Some(11)
    );
}

#[test]
fn ids_are_reused_most_recently_freed_first() {
    let mut g = IdGenerator::new();
    let a = g.generate();
    let b = g.generate();
    assert_eq!(a, 1);
    assert_eq!(b, 2);
    assert_ne!(a, b);
    g.free(a);
    let c = g.generate();
    assert_eq!(c, a);
    let d = g.generate();
    assert_eq!(d, 3);
}

#[test]
fn round_robin_dispatches_in_insertion_order() {
    let l = layout();
    let mut k = Kernel::global_init(l).unwrap();
    let bytes = minimal_image();
    let elf = ELFProgram::new64(&bytes).unwrap();
    k.create_process(&elf).unwrap();
    k.create_process(&elf).unwrap();
    k.create_process(&elf).unwrap();
    let base_a = k.queue.procs[0].pgtbl.base;
    let base_b = k.queue.procs[1].pgtbl.base;
    let base_c = k.queue.procs[2].pgtbl.base;

    // first dispatch order is the insertion order
    let cmd = k.dispatch(0);
    assert_eq!(cmd.pgtbl_base, base_a);
    assert!(!cmd.resume);
    let cmd = k.pause(0, cmd.pc, 0x7000, 0); // A yields
    assert_eq!(cmd.pgtbl_base, base_b);
    assert!(!cmd.resume);
    let cmd = k.pause(0, cmd.pc, 0x7000, 0); // B yields
    assert_eq!(cmd.pgtbl_base, base_c);
    assert!(!cmd.resume);

    // after its own yield, each is dispatched exactly once more, in order,
    // resuming just past the instruction that yielded
    let cmd = k.pause(0, cmd.pc, 0x7000, 0); // C yields
    assert_eq!(cmd.pgtbl_base, base_a);
    assert!(cmd.resume);
    assert_eq!(cmd.pc, 0x4004);
    assert_eq!(cmd.sp, 0x7000);
    let cmd = k.process_exit_rust(0, 0); // A exits
    assert_eq!(cmd.pgtbl_base, base_b);
    assert!(cmd.resume);
    let cmd = k.process_exit_rust(0, 0); // B exits
    assert_eq!(cmd.pgtbl_base, base_c);
    assert!(cmd.resume);
    assert_eq!(k.queue.procs.len(), 0);
}

#[test]
fn boot_to_teardown_leaks_nothing() {
    let l = layout();
    let mut k = Kernel::global_init(l).unwrap();
    k.local_init(0);
    let baseline = k.pool.free_page_count();

    // two processes from the same minimal image
    let bytes = minimal_image();
    let elf = ELFProgram::new64(&bytes).unwrap();
    k.create_process(&elf).unwrap();
    k.create_process(&elf).unwrap();
    let id_a = k.queue.procs[0].id;
    let id_b = k.queue.procs[1].id;
    let base_a = k.queue.procs[0].pgtbl.base;
    let base_b = k.queue.procs[1].pgtbl.base;
    assert_ne!(id_a, id_b);
    assert!(k.pool.free_page_count() < baseline);

    // first process starts and yields; the queued second one starts
    let cmd = k.dispatch(0);
    assert_eq!(cmd.pgtbl_base, base_a);
    let cmd = k.pause(0, cmd.pc, 0x7000, 0);
    assert_eq!(cmd.pgtbl_base, base_b);
    // the second yields; the first is re-selected since only it waited
    let cmd = k.pause(0, cmd.pc, 0x7000, 0);
    assert_eq!(cmd.pgtbl_base, base_a);
    assert!(cmd.resume);
    // the first runs to exit and is destroyed; the second resumes
    let cmd = k.process_exit_rust(0, 0);
    assert_eq!(cmd.pgtbl_base, base_b);
    assert!(cmd.resume);
    assert_eq!(k.queue.procs.len(), 0);

    // the second exits too: nothing is left to run, so the kernel takes it
    // back from the hart's slot and tears it down directly
    let gpi = k.slots[0].restore_gp_info64();
    let mut last = gpi.current_process;
    last.state = ProcessState::Dead;
    last.destroy(&mut k.pool, &mut k.ids);

    // no leaked pages, an empty queue, both ids reclaimed
    assert_eq!(k.pool.free_page_count(), baseline);
    assert_eq!(k.queue.procs.len(), 0);
    assert!(k.ids.freed.contains(&id_a));
    assert!(k.ids.freed.contains(&id_b));
    let reused = k.ids.generate();
    assert!(reused == id_a || reused == id_b);
}

#[test]
fn reset_keeps_the_id_and_allows_reinitialization() {
    let l = layout();
    let mut k = Kernel::global_init(l).unwrap();
    let bytes = minimal_image();
    let elf = ELFProgram::new64(&bytes).unwrap();
    k.create_process(&elf).unwrap();
    let mut p = k.queue.get_ready_process();
    let id = p.id;
    let free_unstarted = k.pool.free_page_count();
    assert_eq!(p.state, ProcessState::Unstarted);
    p.reset(&mut k.pool).unwrap();
    assert_eq!(p.state, ProcessState::Uninitialized);
    assert_eq!(p.id, id);
    assert_eq!(p.phys_pages.len(), 0);
    p.initialize64(&mut k.pool, &mut k.ids, &l, &elf).unwrap();
    assert_eq!(p.state, ProcessState::Unstarted);
    assert_eq!(p.id, id);
    assert_eq!(p.saved_pc, 0x4000);
    // the rebuilt address space is the same size as the first one
    assert_eq!(k.pool.free_page_count(), free_unstarted);
    p.destroy(&mut k.pool, &mut k.ids);
}
