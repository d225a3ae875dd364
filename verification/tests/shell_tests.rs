use os_x86::e820::{E820Entry, E820_USABLE};
use os_x86::heap::Heap;
use os_x86::pmm::FrameAllocator;
use os_x86::shell::{arg_of, cmd_is, name_83_text, parse_command, run, state_name, to_83, upper, CmdKind, Reply};
use os_x86::task::Scheduler;

fn fat_set(fat: &mut [u8], c: usize, v: u16) {
    let fo = c + c / 2;
    if c % 2 == 0 {
        fat[fo] = (v & 0xFF) as u8;
        fat[fo + 1] = (fat[fo + 1] & 0xF0) | ((v >> 8) & 0x0F) as u8;
    } else {
        fat[fo] = (fat[fo] & 0x0F) | (((v & 0x0F) << 4) as u8);
        fat[fo + 1] = (v >> 4) as u8;
    }
}

fn make_disk(files: &[(&[u8; 11], &[u8])]) -> Vec<u8> {
    let mut clusters = 0;
    for (_, data) in files {
        clusters += (data.len() + 511) / 512;
    }
    let mut d = vec![0u8; (3 + clusters.max(1)) * 512];
    d[0x0C] = 0x02;
    d[0x0D] = 1;
    d[0x0E] = 1;
    d[0x10] = 1;
    d[0x11] = 16;
    d[0x16] = 1;
    let mut next = 2usize;
    for (k, (name, data)) in files.iter().enumerate() {
        let e = 2 * 512 + k * 32;
        d[e..e + 11].copy_from_slice(&name[..]);
        d[e + 11] = 0x20;
        let n = (data.len() + 511) / 512;
        let first = if n == 0 { 0 } else { next };
        d[e + 0x1A] = (first & 0xFF) as u8;
        d[e + 0x1B] = (first >> 8) as u8;
        d[e + 0x1C..e + 0x20].copy_from_slice(&(data.len() as u32).to_le_bytes());
        for i in 0..n {
            let c = next + i;
            let v = if i + 1 == n { 0xFFF } else { (c + 1) as u16 };
            let mut fat = [0u8; 512];
            fat.copy_from_slice(&d[512..1024]);
            fat_set(&mut fat, c, v);
            d[512..1024].copy_from_slice(&fat);
            let s = (3 + c - 2) * 512;
            let end = ((i + 1) * 512).min(data.len());
            d[s..s + (end - i * 512)].copy_from_slice(&data[i * 512..end]);
        }
        next += n;
    }
    d
}

struct Kernel {
    pmm: FrameAllocator,
    heap: Heap,
    sched: Scheduler,
    disk: Vec<u8>,
}

fn kernel() -> Kernel {
    let es = [
        E820Entry { base: 0, length: 0x9FC00, kind: E820_USABLE, attr: 0 },
        E820Entry { base: 0x10_0000, length: 0xF0_0000, kind: E820_USABLE, attr: 0 },
    ];
    let mut pmm = FrameAllocator::init(&es, 0x20_0000);
    let mut heap = Heap::new();
    heap.init(&mut pmm);
    let mut sched = Scheduler::new();
    sched.init(&mut heap, 0x1000, 0x2000);
    let disk = make_disk(&[(b"HELLO   TXT", b"Hello from disk"), (b"INIT    ELF", b"\x7fELF")]);
    Kernel { pmm, heap, sched, disk }
}

fn say(k: &mut Kernel, line: &str) -> Reply {
    let mut l = line.as_bytes().to_vec();
    l.push(0);
    run(&l, &k.pmm, &mut k.heap, &mut k.sched, &k.disk, 250, 0x3000, 0x2000)
}

fn text(r: &Reply) -> String {
    String::from_utf8(r.text()).unwrap()
}

#[test]
fn upper_only_changes_lowercase_letters() {
    assert_eq!(upper(b'a'), b'A');
    assert_eq!(upper(b'z'), b'Z');
    assert_eq!(upper(b'A'), b'A');
    assert_eq!(upper(b'.'), b'.');
    assert_eq!(upper(b'{'), b'{');
}

#[test]
fn cmd_is_matches_first_word() {
    assert!(cmd_is(b"cat hello.txt\0", b"cat"));
    assert!(cmd_is(b"cat\0", b"cat"));
    assert!(!cmd_is(b"category\0", b"cat"));
    assert!(!cmd_is(b"ca\0", b"cat"));
}

#[test]
fn arg_of_skips_word_and_spaces() {
    assert_eq!(arg_of(b"cat   hello.txt\0"), 6);
    assert_eq!(arg_of(b"ls\0"), 2);
    assert_eq!(arg_of(b"run  \0"), 5);
}

#[test]
fn to_83_pads_and_uppercases() {
    assert_eq!(&to_83(b"hello.txt\0"), b"HELLO   TXT");
    assert_eq!(&to_83(b"init.elf\0"), b"INIT    ELF");
    assert_eq!(&to_83(b"verylongname.text\0"), b"VERYLONGTEX");
    assert_eq!(&to_83(b"noext\0"), b"NOEXT      ");
    assert_eq!(&to_83(b"a.b.c\0"), b"A       B.C");
    assert_eq!(&to_83(b"\0"), b"           ");
}

#[test]
fn state_names() {
    assert_eq!(state_name(0), "unused");
    assert_eq!(state_name(1), "ready");
    assert_eq!(state_name(2), "running");
    assert_eq!(state_name(3), "blocked");
    assert_eq!(state_name(4), "finished");
    assert_eq!(state_name(9), "unused");
}

#[test]
fn name_83_text_shows_name_dot_ext() {
    assert_eq!(name_83_text(b"HELLO   TXT"), b"HELLO.TXT".to_vec());
    assert_eq!(name_83_text(b"README     "), b"README".to_vec());
}

#[test]
fn parse_command_kinds() {
    assert_eq!(parse_command(b"\0").kind, CmdKind::Empty);
    assert_eq!(parse_command(b"help\0").kind, CmdKind::Help);
    assert_eq!(parse_command(b"mem\0").kind, CmdKind::Mem);
    assert_eq!(parse_command(b"ps\0").kind, CmdKind::Ps);
    assert_eq!(parse_command(b"ls\0").kind, CmdKind::Ls);
    assert_eq!(parse_command(b"uptime\0").kind, CmdKind::Uptime);
    assert_eq!(parse_command(b"clear\0").kind, CmdKind::Clear);
    assert_eq!(parse_command(b"helpme\0").kind, CmdKind::Unknown);
    let c = parse_command(b"cat  hello.txt\0");
    assert_eq!(c.kind, CmdKind::Cat);
    assert_eq!(&c.name, b"HELLO   TXT");
    let r = parse_command(b"run init.elf\0");
    assert_eq!(r.kind, CmdKind::Run);
    assert_eq!(&r.name, b"INIT    ELF");
}

#[test]
fn help_and_unknown() {
    let mut k = kernel();
    assert_eq!(text(&say(&mut k, "help")), "commands: help mem ps ls cat <f> run <f> uptime clear\n");
    assert_eq!(text(&say(&mut k, "frobnicate")), "unknown command (try: help)\n");
    assert_eq!(text(&say(&mut k, "")), "");
    assert!(matches!(say(&mut k, "clear"), Reply::Clear));
}

#[test]
fn mem_reports_pmm_and_heap() {
    let mut k = kernel();
    let r = say(&mut k, "mem");
    assert_eq!(text(&r), "pmm: 3327 / 4096 frames free\nheap: 1040352 free / 8192 used bytes, 2 blocks\n");
}

#[test]
fn ps_lists_tasks() {
    let mut k = kernel();
    assert_eq!(text(&say(&mut k, "ps")), "task 0: running\ntask 1: ready\n");
}

#[test]
fn ls_lists_files() {
    let mut k = kernel();
    assert_eq!(text(&say(&mut k, "ls")), "HELLO.TXT\nINIT.ELF\n");
    k.disk = vec![0u8; 16];
    assert_eq!(text(&say(&mut k, "ls")), "(no files / no disk)\n");
}

#[test]
fn cat_prints_file_or_not_found() {
    let mut k = kernel();
    assert_eq!(text(&say(&mut k, "cat hello.txt")), "Hello from disk\n");
    assert_eq!(text(&say(&mut k, "cat missing.txt")), "cat: file not found\n");
}

#[test]
fn run_spawns_a_launcher_task() {
    let mut k = kernel();
    let r = say(&mut k, "run init.elf");
    match &r {
        Reply::Launched(name, Some(f)) => {
            assert_eq!(name, b"INIT    ELF");
            assert_eq!(f.entry, 0x3000);
            assert_eq!(f.exit_trampoline, 0x2000);
        }
        _ => panic!("expected a launch"),
    }
    assert_eq!(text(&r), "run: launched\n");
    assert_eq!(k.sched.count(), 3);
}

#[test]
fn uptime_in_seconds() {
    let mut k = kernel();
    assert_eq!(text(&say(&mut k, "uptime")), "5s\n");
}
