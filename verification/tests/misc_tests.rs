use os_x86::ata::{command_writes, drive_select, probe_text, store_word, wait_data_ready_step, wait_not_busy_step, WaitStep, TIMEOUT};
use os_x86::e820::{count, entries, print_map, write_hex64, E820Entry};
use os_x86::gdt::{entry, gdt_table, TSS_LIMIT};
use os_x86::idt::{Idt, IdtGate, GATE_KERNEL, GATE_USER, KERNEL_CS};
use os_x86::isr::{exception_message, irq_ack_ports, irq_handler, pic_remap_sequence, HandlerTable};
use os_x86::kernel::{spin_delay, user_input};
use os_x86::mem::{memory_copy, memory_set, BumpAlloc};
use os_x86::serial::{init_sequence, serial_encode, tx_empty};
use os_x86::text::{push_dec, push_hex, push_str};
use os_x86::timer::{pit_divisor, Timer};

#[test]
fn gdt_descriptors_have_the_flat_layout() {
    assert_eq!(entry(0, 0xFFFFF, 0x9A, 0xC), 0x00CF_9A00_0000_FFFF);
    assert_eq!(entry(0, 0xFFFFF, 0x92, 0xC), 0x00CF_9200_0000_FFFF);
    assert_eq!(entry(0x1234_5678, 0x67, 0x89, 0), 0x1200_8934_5678_0067);
    let t = gdt_table(0x1000);
    assert_eq!(t.len(), 6);
    assert_eq!(t[0], 0);
    assert_eq!(t[3], 0x00CF_FA00_0000_FFFF);
    assert_eq!(t[4], 0x00CF_F200_0000_FFFF);
    assert_eq!(t[5], entry(0x1000, TSS_LIMIT, 0x89, 0));
}

#[test]
fn idt_gates_split_the_handler() {
    let g = IdtGate::new(0x0010_2030, GATE_USER);
    assert_eq!((g.low_offset, g.high_offset, g.sel, g.always0, g.flags), (0x2030, 0x0010, KERNEL_CS, 0, GATE_USER));
    let mut idt = Idt::new();
    idt.install(32, &[0x1000, 0x2000]);
    assert_eq!(idt.gates[33].low_offset, 0x2000);
    assert_eq!(idt.gates[33].flags, GATE_KERNEL);
    assert_eq!(idt.gates[34].flags, 0);
    idt.set_idt_gate_flags(128, 0xABCD_0000, GATE_USER);
    assert_eq!(idt.gates[128].high_offset, 0xABCD);
}

#[test]
fn exception_names_and_acks() {
    assert_eq!(exception_message(0), "Division By Zero");
    assert_eq!(exception_message(14), "Page Fault");
    assert_eq!(exception_message(31), "Reserved");
    assert_eq!(irq_ack_ports(33), vec![0x20]);
    assert_eq!(irq_ack_ports(44), vec![0xA0, 0x20]);
    let p = pic_remap_sequence();
    assert_eq!(p.len(), 10);
    assert_eq!(p[2], (0x21, 0x20));
    assert_eq!(p[3], (0xA1, 0x28));
}

#[test]
fn timer_label_every_fifty_ticks() {
    let mut t = Timer::new();
    for _ in 0..49 {
        assert!(t.tick().is_none());
    }
    assert_eq!(t.tick(), Some(b"UP:1s".to_vec()));
    assert_eq!(t.ticks(), 50);
    assert_eq!(pit_divisor(50), (0x37, 0x5D));
    assert_eq!(pit_divisor(1193180), (1, 0));
}

#[test]
fn serial_turns_newlines_into_crlf() {
    assert_eq!(serial_encode(b"a\nb\n\0junk"), b"a\r\nb\r\n".to_vec());
    assert_eq!(serial_encode(b"\0"), Vec::<u8>::new());
    assert!(tx_empty(0x60));
    assert!(!tx_empty(0x40));
    assert_eq!(init_sequence()[1], (0x3FB, 0x80));
}

#[test]
fn ata_status_decisions() {
    assert_eq!(wait_not_busy_step(0xFF, 0), WaitStep::Fail);
    assert_eq!(wait_not_busy_step(0x50, 3), WaitStep::Ready);
    assert_eq!(wait_not_busy_step(0x80, 3), WaitStep::Spin(4));
    assert_eq!(wait_not_busy_step(0x80, TIMEOUT), WaitStep::Fail);
    assert_eq!(wait_data_ready_step(0x58, 0), WaitStep::Ready);
    assert_eq!(wait_data_ready_step(0x51, 0), WaitStep::Fail);
    assert_eq!(wait_data_ready_step(0x50, 0), WaitStep::Spin(1));
    assert_eq!(drive_select(0x0512_3456), 0xE5);
    assert_eq!(command_writes(0x0012_3456, 2), vec![(0x1F2, 2), (0x1F3, 0x56), (0x1F4, 0x34), (0x1F5, 0x12), (0x1F7, 0x20)]);
    let mut b = [0u8; 4];
    store_word(&mut b, 2, 0xBEEF);
    assert_eq!(b, [0, 0, 0xEF, 0xBE]);
}

#[test]
fn ata_probe_report() {
    assert_eq!(probe_text(false, &[]), b"ata: read error (no disk?)\n".to_vec());
    let mut s = [0u8; 512];
    s[0] = 0xEB;
    s[1] = 0x3C;
    s[15] = 7;
    let t = String::from_utf8(probe_text(true, &s)).unwrap();
    assert_eq!(t, "ata: sector 0 = 0xeb 0x3c 0x0 0x0 0x0 0x0 0x0 0x0 0x0 0x0 0x0 0x0 0x0 0x0 0x0 0x7\n");
}

#[test]
fn bump_allocator_aligns_past_first_page() {
    let mut m = BumpAlloc::mem_init(0x50000);
    assert_eq!(m.kmalloc(1000, 1), 0x51000);
    assert_eq!(m.kmalloc(10, 0), 0x51000 + 1000);
    let mut z = BumpAlloc::mem_init(0x10);
    assert_eq!(z.kmalloc(4, 1), 0x10);
}

#[test]
fn memory_copy_and_set() {
    let mut d = [9u8; 6];
    memory_copy(&[1, 2, 3, 4], &mut d, 3);
    assert_eq!(d, [1, 2, 3, 9, 9, 9]);
    memory_set(&mut d, 0, 2);
    assert_eq!(d, [0, 0, 3, 9, 9, 9]);
}

#[test]
fn e820_region_parses_and_prints() {
    let mut raw = vec![0u8; 4 + 48];
    raw[0] = 2;
    raw[4 + 8..4 + 16].copy_from_slice(&0x9FC00u64.to_le_bytes());
    raw[4 + 16] = 1;
    raw[28..36].copy_from_slice(&0x10_0000u64.to_le_bytes());
    raw[36..44].copy_from_slice(&0x1_0000_0000u64.to_le_bytes());
    raw[44] = 12;
    assert_eq!(count(&raw), 2);
    let es = entries(&raw);
    assert_eq!(es[0].length, 0x9FC00);
    assert_eq!(es[0].kind, 1);
    assert_eq!(es[1].base, 0x10_0000);
    assert_eq!(es[1].length, 0x1_0000_0000);
    let t = String::from_utf8(print_map(&es)).unwrap();
    assert_eq!(t, "E820 memory map:\n  base=0x0 len=0x9FC00 type=1 (usable)\n  base=0x100000 len=0x100000000 type=2\n");
    let one = [E820Entry { base: 0xABC, length: 1, kind: 3, attr: 0 }];
    assert!(String::from_utf8(print_map(&one)).unwrap().ends_with("type=3\n"));
}

#[test]
fn hex64_uses_upper_case() {
    let mut v = Vec::new();
    write_hex64(&mut v, 0xDEAD_BEEF_0000_00FF);
    assert_eq!(v, b"0xDEADBEEF000000FF".to_vec());
}

#[test]
fn text_helpers() {
    let mut v = Vec::new();
    push_str(&mut v, "n=");
    push_dec(&mut v, -42);
    push_str(&mut v, " h=");
    push_hex(&mut v, 0xBEEF);
    assert_eq!(v, b"n=-42 h=0xbeef".to_vec());
}

#[test]
fn line_handler_end_page_and_echo() {
    let mut m = BumpAlloc::mem_init(0x50000);
    let r = user_input(b"END\0", &mut m);
    assert!(r.halt);
    assert_eq!(r.serial, b"cmd: END\nhalt.\n".to_vec());
    assert_eq!(r.screen, b"Stopping the CPU. Bye!\n".to_vec());
    assert!(r.screen_after.is_empty());
    let p = user_input(b"PAGE\0", &mut m);
    assert!(!p.halt);
    assert_eq!(p.screen, b"Page: 0x51000, physical address: 0x51000\n".to_vec());
    assert_eq!(m.free_mem_addr, 0x51000 + 1000);
    let o = user_input(b"hello\0", &mut m);
    assert!(o.screen.is_empty());
    assert_eq!(o.serial, b"cmd: hello\n".to_vec());
    spin_delay();
}

#[test]
fn irq_runs_the_handler_last_registered() {
    let mut t = HandlerTable::new();
    let a = irq_handler(&t, 33);
    assert_eq!(a.acks, vec![0x20]);
    assert_eq!(a.handler, None);
    t.register_interrupt_handler(33, 7);
    t.register_interrupt_handler(33, 9);
    t.register_interrupt_handler(44, 1);
    assert_eq!(irq_handler(&t, 33).handler, Some(9));
    let b = irq_handler(&t, 44);
    assert_eq!(b.acks, vec![0xA0, 0x20]);
    assert_eq!(b.handler, Some(1));
    assert_eq!(irq_handler(&t, 32).handler, None);
    assert_eq!(irq_handler(&t, 300).handler, None);
}
