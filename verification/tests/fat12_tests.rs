use os_x86::fat12::{read_dir, read_faults, read_file, u16le, u32le, Bpb};

fn fat_set(fat: &mut [u8], c: usize, v: u16) {
    let fo = c + c / 2;
    if c % 2 == 0 {
        fat[fo] = (v & 0xFF) as u8;
        fat[fo + 1] = (fat[fo + 1] & 0xF0) | ((v >> 8) & 0x0F) as u8;
    } else {
        fat[fo] = (fat[fo] & 0x0F) | (((v & 0x0F) << 4) as u8);
        fat[fo + 1] = (v >> 4) as u8;
    }
}

/// A FAT12 image: 512-byte sectors, 1 sector per cluster, 1 reserved sector,
/// one 1-sector FAT, a 16-entry root directory; each file in consecutive
/// clusters from 2 on.
fn make_disk(files: &[(&[u8; 11], &[u8])]) -> Vec<u8> {
    let mut clusters = 0;
    for (_, data) in files {
        clusters += (data.len() + 511) / 512;
    }
    let mut d = vec![0u8; (3 + clusters.max(1)) * 512];
    d[0x0B] = 0x00;
    d[0x0C] = 0x02;
    d[0x0D] = 1;
    d[0x0E] = 1;
    d[0x10] = 1;
    d[0x11] = 16;
    d[0x16] = 1;
    let mut next = 2usize;
    for (k, (name, data)) in files.iter().enumerate() {
        let e = 2 * 512 + k * 32;
        d[e..e + 11].copy_from_slice(&name[..]);
        d[e + 11] = 0x20;
        let n = (data.len() + 511) / 512;
        let first = if n == 0 { 0 } else { next };
        d[e + 0x1A] = (first & 0xFF) as u8;
        d[e + 0x1B] = (first >> 8) as u8;
        d[e + 0x1C..e + 0x20].copy_from_slice(&(data.len() as u32).to_le_bytes());
        for i in 0..n {
            let c = next + i;
            let v = if i + 1 == n { 0xFFF } else { (c + 1) as u16 };
            let mut fat = [0u8; 512];
            fat.copy_from_slice(&d[512..1024]);
            fat_set(&mut fat, c, v);
            d[512..1024].copy_from_slice(&fat);
            let s = (3 + c - 2) * 512;
            let end = ((i + 1) * 512).min(data.len());
            d[s..s + (end - i * 512)].copy_from_slice(&data[i * 512..end]);
        }
        next += n;
    }
    d
}

#[test]
fn little_endian_helpers() {
    let b = [0x34u8, 0x12, 0x78, 0x56];
    assert_eq!(u16le(&b, 0), 0x1234);
    assert_eq!(u32le(&b, 0), 0x5678_1234);
}

#[test]
fn bpb_parse_reads_layout() {
    let d = make_disk(&[(b"HELLO   TXT", b"hi")]);
    let bpb = Bpb::parse(&d).unwrap();
    assert_eq!(bpb.bytes_per_sec, 512);
    assert_eq!(bpb.root_start(), 2);
    assert_eq!(bpb.root_sectors(), 1);
    assert!(Bpb::parse(&[0u8; 100]).is_none());
}

#[test]
fn read_file_reads_small_file() {
    let d = make_disk(&[(b"HELLO   TXT", b"Hello, FAT12!")]);
    let mut out = [0u8; 64];
    assert_eq!(read_file(&d, b"HELLO   TXT", &mut out, 64), Some(13));
    assert_eq!(&out[..13], b"Hello, FAT12!");
    assert_eq!(out[13], 0);
}

#[test]
fn read_file_follows_cluster_chain() {
    let data: Vec<u8> = (0..1300u32).map(|i| (i % 251) as u8).collect();
    let d = make_disk(&[(b"A       BIN", b"x"), (b"BIG     DAT", &data)]);
    let mut out = vec![0u8; 2048];
    assert_eq!(read_file(&d, b"BIG     DAT", &mut out, 2048), Some(1300));
    assert_eq!(&out[..1300], &data[..]);
}

#[test]
fn read_file_stops_at_max() {
    let data = vec![7u8; 600];
    let d = make_disk(&[(b"SEVEN   DAT", &data)]);
    let mut out = vec![0u8; 100];
    assert_eq!(read_file(&d, b"SEVEN   DAT", &mut out, 10), Some(600));
    assert_eq!(&out[..10], &[7u8; 10]);
    assert_eq!(out[10], 0);
}

#[test]
fn read_file_missing_or_no_disk() {
    let d = make_disk(&[(b"HELLO   TXT", b"hi")]);
    let mut out = [0u8; 8];
    assert_eq!(read_file(&d, b"NOPE    TXT", &mut out, 8), None);
    assert_eq!(read_file(&[0u8; 10], b"HELLO   TXT", &mut out, 8), None);
}

#[test]
fn read_dir_lists_names_and_skips_deleted() {
    let mut d = make_disk(&[(b"ONE     TXT", b"1"), (b"TWO     TXT", b"2"), (b"THREE   TXT", b"3")]);
    d[2 * 512 + 32] = 0xE5;
    let names = read_dir(&d, 32);
    assert_eq!(names, vec![*b"ONE     TXT", *b"THREE   TXT"]);
    assert_eq!(read_dir(&d, 1), vec![*b"ONE     TXT"]);
    assert!(read_dir(&[0u8; 3], 32).is_empty());
}

#[test]
fn read_faults_flags_a_chain_that_never_ends() {
    let data = [b'a'; 100];
    let mut d = make_disk(&[(b"LOOP    TXT", &data)]);
    assert!(!read_faults(&d, b"LOOP    TXT", 511));
    assert!(!read_faults(&d, b"NONE    TXT", 511));
    // Zero sectors per cluster: the walk copies nothing and the chain
    // 2 -> 2 never ends.
    d[0x0D] = 0;
    let mut fat = [0u8; 512];
    fat.copy_from_slice(&d[512..1024]);
    fat_set(&mut fat, 2, 2);
    d[512..1024].copy_from_slice(&fat);
    assert!(read_faults(&d, b"LOOP    TXT", 511));
}
