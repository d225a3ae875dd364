//! Minimal read-only FAT12 filesystem.
//!
//! FAT = File Allocation Table. FAT12 stores 12 bits per cluster in that
//! table, chaining the clusters of each file together. Layout of the disk:
//!
//!   [ boot sector + BPB ][ FAT copies ][ root directory ][ data clusters ]
//!
//! BPB = BIOS Parameter Block: geometry fields inside the boot sector. The
//! disk is given as its image: sector `s` is bytes `512 * s .. 512 * s + 512`,
//! and a sector past the end of the image is a failed read.
use vstd::prelude::*;

verus! {

/// Bytes per sector.
pub const SECTOR: usize = 512;

/// Steps after which a chain that copies nothing must have looped forever
/// (there are fewer data clusters than this).
pub const CHAIN_STEPS: u32 = 4096;

/// Little-endian 16-bit value at `o`.
pub open spec fn le16(b: Seq<u8>, o: int) -> int {
    b[o] + b[o + 1] * 256
}

/// Little-endian 32-bit value at `o`.
pub open spec fn le32(b: Seq<u8>, o: int) -> int {
    b[o] + b[o + 1] * 256 + b[o + 2] * 65536 + b[o + 3] * 16777216
}

/// Sector `s` can be read from the image.
pub open spec fn sector_ok(d: Seq<u8>, s: int) -> bool {
    0 <= s && s < d.len() / 512
}

pub open spec fn bytes_per_sec(d: Seq<u8>) -> int {
    le16(d, 0x0B)
}

pub open spec fn sec_per_clus(d: Seq<u8>) -> int {
    d[0x0D] as int
}

pub open spec fn reserved_secs(d: Seq<u8>) -> int {
    le16(d, 0x0E)
}

pub open spec fn num_fats(d: Seq<u8>) -> int {
    d[0x10] as int
}

pub open spec fn root_entries(d: Seq<u8>) -> int {
    le16(d, 0x11)
}

pub open spec fn sec_per_fat(d: Seq<u8>) -> int {
    le16(d, 0x16)
}

/// First sector of the root directory.
pub open spec fn root_start(d: Seq<u8>) -> int {
    reserved_secs(d) + num_fats(d) * sec_per_fat(d)
}

/// Sectors of the root directory.
pub open spec fn root_sectors(d: Seq<u8>) -> int {
    (root_entries(d) * 32 + 511) / 512
}

/// First sector of the data region.
pub open spec fn data_start(d: Seq<u8>) -> int {
    root_start(d) + root_sectors(d)
}

/// Image offset of root directory entry `j` (16 entries per sector).
pub open spec fn entry_off(d: Seq<u8>, j: int) -> int {
    (root_start(d) + j / 16) * 512 + (j % 16) * 32
}

/// Outcome of looking `name` up from root entry `j` on: `(0, _, _)` not
/// found, `(1, first_cluster, size)` found, `(2, _, _)` a sector failed to read.
pub open spec fn find_from(d: Seq<u8>, name: Seq<u8>, j: int) -> (int, int, int)
    decreases root_sectors(d) * 16 - j,
{
    if j < 0 || j >= root_sectors(d) * 16 {
        (0, 0, 0)
    } else if !sector_ok(d, root_start(d) + j / 16) {
        (2, 0, 0)
    } else {
        let o = entry_off(d, j);
        if d[o] == 0 {
            (0, 0, 0)
        } else if d[o] == 0xE5 || d[o + 11] & 0x0F == 0x0F {
            find_from(d, name, j + 1)
        } else if d.subrange(o, o + 11) == name {
            (1, le16(d, o + 0x1A), le32(d, o + 0x1C))
        } else {
            find_from(d, name, j + 1)
        }
    }
}

/// A file size read from a directory entry fits in 32 bits.
pub proof fn lemma_find_size(d: Seq<u8>, name: Seq<u8>, j: int)
    ensures
        find_from(d, name, j).0 == 1 ==> 0 <= find_from(d, name, j).2 < 0x1_0000_0000,
    decreases root_sectors(d) * 16 - j,
{
    if j < 0 || j >= root_sectors(d) * 16 || !sector_ok(d, root_start(d) + j / 16) {
    } else {
        let o = entry_off(d, j);
        if d[o] == 0 {
        } else if d[o] == 0xE5 || d[o + 11] & 0x0F == 0x0F || d.subrange(o, o + 11) != name {
            lemma_find_size(d, name, j + 1);
        }
    }
}

/// Next cluster of the chain: the 12-bit FAT entry of cluster `c` (the FAT
/// starts right after the reserved sectors).
pub open spec fn fat_next(d: Seq<u8>, c: int) -> int {
    let fo = reserved_secs(d) * 512 + c + c / 2;
    let raw = d[fo] + d[fo + 1] * 256;
    if c % 2 == 1 { raw / 16 } else { raw % 4096 }
}

/// Copies sectors `s..spc` of the cluster starting at sector `first` onto
/// `acc`, stopping at `limit` bytes; `false` when a sector fails to read.
pub open spec fn copy_cluster(d: Seq<u8>, first: int, spc: int, s: int, limit: int, acc: Seq<u8>) -> (bool, Seq<u8>)
    decreases spc - s,
{
    if s >= spc {
        (true, acc)
    } else if !sector_ok(d, first + s) {
        (false, acc)
    } else {
        let room = if acc.len() < limit { limit - acc.len() } else { 0 };
        let take = if room < 512 { room } else { 512 };
        let start = (first + s) * 512;
        copy_cluster(d, first, spc, s + 1, limit, acc + d.subrange(start, start + take))
    }
}

pub proof fn lemma_copy_cluster(d: Seq<u8>, first: int, spc: int, s: int, limit: int, acc: Seq<u8>)
    requires
        acc.len() <= limit,
        0 <= first,
        0 <= s,
    ensures
        acc.len() <= copy_cluster(d, first, spc, s, limit, acc).1.len() <= limit,
        copy_cluster(d, first, spc, s, limit, acc).1.subrange(0, acc.len() as int) == acc,
        copy_cluster(d, first, spc, s, limit, acc).0 && s < spc && acc.len() < limit
            ==> acc.len() < copy_cluster(d, first, spc, s, limit, acc).1.len(),
    decreases spc - s,
{
    if s >= spc {
        assert(acc.subrange(0, acc.len() as int) =~= acc);
    } else if !sector_ok(d, first + s) {
        assert(acc.subrange(0, acc.len() as int) =~= acc);
    } else {
        let room = if acc.len() < limit { limit - acc.len() } else { 0 };
        let take = if room < 512 { room } else { 512 };
        let start = (first + s) * 512;
        let acc2 = acc + d.subrange(start, start + take);
        lemma_copy_cluster(d, first, spc, s + 1, limit, acc2);
        let r = copy_cluster(d, first, spc, s + 1, limit, acc2).1;
        assert(r.subrange(0, acc.len() as int) =~= r.subrange(0, acc2.len() as int).subrange(0, acc.len() as int));
        assert(acc2.subrange(0, acc.len() as int) =~= acc);
    }
}

/// Follows the cluster chain from `c`, copying data until `limit` bytes.
/// Status 0: chain ended or limit reached; 1: a sector failed to read;
/// 2: the FAT lookup would run off the FAT, or the walk would never end.
pub open spec fn walk(d: Seq<u8>, c: int, limit: int, acc: Seq<u8>, fuel: nat) -> (int, Seq<u8>)
    decreases limit - acc.len(), fuel,
{
    if !(2 <= c < 0xFF8 && acc.len() < limit) {
        (0, acc)
    } else {
        let spc = sec_per_clus(d);
        let first = data_start(d) + (c - 2) * spc;
        let (ok, acc2) = copy_cluster(d, first, spc, 0, limit, acc);
        if !ok {
            (1, acc2)
        } else if c + c / 2 + 1 >= sec_per_fat(d) * 512 {
            (2, acc2)
        } else if spc == 0 {
            if fuel == 0 {
                (2, acc2)
            } else {
                walk(d, fat_next(d, c), limit, acc2, (fuel - 1) as nat)
            }
        } else {
            proof {
                lemma_copy_cluster(d, first, spc, 0, limit, acc);
            }
            walk(d, fat_next(d, c), limit, acc2, fuel)
        }
    }
}

proof fn lemma_layout_nonneg(d: Seq<u8>)
    ensures
        data_start(d) >= 0,
        sec_per_clus(d) >= 0,
{
    assert(num_fats(d) * sec_per_fat(d) >= 0) by (nonlinear_arith)
        requires
            num_fats(d) >= 0,
            sec_per_fat(d) >= 0,
    ;
}

/// The chain walk never copies more than `limit` bytes.
pub proof fn lemma_walk_bound(d: Seq<u8>, c: int, limit: int, acc: Seq<u8>, fuel: nat)
    requires
        acc.len() <= limit,
    ensures
        walk(d, c, limit, acc, fuel).1.len() <= limit,
    decreases limit - acc.len(), fuel,
{
    if !(2 <= c < 0xFF8 && acc.len() < limit) {
    } else {
        let spc = sec_per_clus(d);
        let first = data_start(d) + (c - 2) * spc;
        lemma_layout_nonneg(d);
        assert(first >= 0) by (nonlinear_arith)
            requires
                first == data_start(d) + (c - 2) * spc,
                data_start(d) >= 0,
                c >= 2,
                spc >= 0,
        ;
        lemma_copy_cluster(d, first, spc, 0, limit, acc);
        let (ok, acc2) = copy_cluster(d, first, spc, 0, limit, acc);
        if !ok || c + c / 2 + 1 >= sec_per_fat(d) * 512 {
        } else if spc == 0 {
            if fuel > 0 {
                lemma_walk_bound(d, fat_next(d, c), limit, acc2, (fuel - 1) as nat);
            }
        } else {
            lemma_walk_bound(d, fat_next(d, c), limit, acc2, fuel);
        }
    }
}

/// Result of reading file `name` with room for `max` bytes: `(code, size,
/// data)`. Code 0: found, the file size is `size`; 1: not found or a read
/// failed; 2: the reader would fault or never return. `data` is what was
/// copied out.
pub open spec fn read_file_spec(d: Seq<u8>, name: Seq<u8>, max: int) -> (int, int, Seq<u8>) {
    if !sector_ok(d, 0) || bytes_per_sec(d) != 512 {
        (1, 0, Seq::empty())
    } else {
        let (st, fc, size) = find_from(d, name, 0);
        let fat_start = reserved_secs(d);
        let spf = sec_per_fat(d);
        if st != 1 {
            (1, 0, Seq::empty())
        } else if spf > 0 && !sector_ok(d, fat_start + spf - 1) {
            (1, 0, Seq::empty())
        } else {
            let limit = if size < max { size } else { max };
            let (ws, data) = walk(d, fc, limit, Seq::empty(), CHAIN_STEPS as nat);
            if ws == 0 {
                (0, size, data)
            } else if ws == 2 {
                (2, 0, data)
            } else {
                (1, 0, data)
            }
        }
    }
}

/// Root directory listing from entry `j` on, appended to `acc`, at most `max` names.
pub open spec fn dir_from(d: Seq<u8>, j: int, max: int, acc: Seq<Seq<u8>>) -> Seq<Seq<u8>>
    decreases root_sectors(d) * 16 - j,
{
    if j < 0 || j >= root_sectors(d) * 16 || !sector_ok(d, root_start(d) + j / 16) {
        acc
    } else {
        let o = entry_off(d, j);
        let attr = d[o + 11];
        if d[o] == 0 {
            acc
        } else if d[o] == 0xE5 || attr & 0x0F == 0x0F || attr & 0x08 != 0 {
            dir_from(d, j + 1, max, acc)
        } else if acc.len() >= max {
            acc
        } else {
            dir_from(d, j + 1, max, acc.push(d.subrange(o, o + 11)))
        }
    }
}

/// The 8.3 names the root directory lists, at most `max` of them.
pub open spec fn read_dir_spec(d: Seq<u8>, max: int) -> Seq<Seq<u8>> {
    if !sector_ok(d, 0) || bytes_per_sec(d) != 512 {
        Seq::empty()
    } else {
        dir_from(d, 0, max, Seq::empty())
    }
}


/// The cluster `k` steps along the FAT chain that starts at cluster `c`.
pub open spec fn chain_nth(d: Seq<u8>, c: int, k: nat) -> int
    decreases k,
{
    if k == 0 {
        c
    } else {
        chain_nth(d, fat_next(d, c), (k - 1) as nat)
    }
}

/// Image offset of byte `x` of a file whose chain starts at cluster `c`:
/// cluster `n` holds the sectors `data_start + (n - 2) * sec_per_clus` on,
/// and the file is its clusters' sectors in chain order.
pub open spec fn file_byte(d: Seq<u8>, c: int, x: int) -> int {
    let cs = sec_per_clus(d) * 512;
    (data_start(d) + (chain_nth(d, c, (x / cs) as nat) - 2) * sec_per_clus(d)) * 512 + x % cs
}

proof fn lemma_copy_bytes(d: Seq<u8>, first: int, spc: int, s: int, limit: int, acc: Seq<u8>)
    requires
        acc.len() <= limit,
        0 <= first,
        0 <= s,
    ensures
        ({
            let (ok, r) = copy_cluster(d, first, spc, s, limit, acc);
            let room = if spc > s { (spc - s) * 512 } else { 0 };
            &&& forall|i: int| acc.len() <= i < r.len() ==> #[trigger] r[i] == d[(first + s) * 512 + (i - acc.len())]
            &&& r.len() <= acc.len() + room
            &&& ok ==> r.len() == (if limit < acc.len() + room { limit } else { acc.len() + room })
        }),
    decreases spc - s,
{
    lemma_copy_cluster(d, first, spc, s, limit, acc);
    if s >= spc {
    } else if !sector_ok(d, first + s) {
    } else {
        let room = if acc.len() < limit { limit - acc.len() } else { 0 };
        let take = if room < 512 { room } else { 512 };
        let start = (first + s) * 512;
        assert(start + 512 <= d.len());
        let acc2 = acc + d.subrange(start, start + take);
        lemma_copy_bytes(d, first, spc, s + 1, limit, acc2);
        lemma_copy_cluster(d, first, spc, s + 1, limit, acc2);
        let r = copy_cluster(d, first, spc, s + 1, limit, acc2).1;
        assert forall|i: int| acc.len() <= i < r.len() implies #[trigger] r[i] == d[(first + s) * 512 + (i - acc.len())] by {
            if i < acc2.len() {
                assert(r[i] == r.subrange(0, acc2.len() as int)[i]);
            } else {
                assert((first + s + 1) * 512 + (i - acc2.len()) == (first + s) * 512 + (i - acc.len()));
            }
        }
    }
}

proof fn lemma_walk_bytes(d: Seq<u8>, c: int, limit: int, acc: Seq<u8>, fuel: nat)
    requires
        acc.len() <= limit,
    ensures
        ({
            let r = walk(d, c, limit, acc, fuel).1;
            &&& r.subrange(0, acc.len() as int) == acc
            &&& acc.len() <= r.len() <= limit
            &&& sec_per_clus(d) == 0 ==> r == acc
            &&& forall|i: int| acc.len() <= i < r.len() ==> #[trigger] r[i] == d[file_byte(d, c, i - acc.len())]
        }),
    decreases limit - acc.len(), fuel,
{
    let r = walk(d, c, limit, acc, fuel).1;
    if !(2 <= c < 0xFF8 && acc.len() < limit) {
        assert(acc.subrange(0, acc.len() as int) =~= acc);
    } else {
        let spc = sec_per_clus(d);
        let first = data_start(d) + (c - 2) * spc;
        lemma_layout_nonneg(d);
        assert(first >= 0) by (nonlinear_arith)
            requires
                first == data_start(d) + (c - 2) * spc,
                data_start(d) >= 0,
                c >= 2,
                spc >= 0,
        ;
        lemma_copy_cluster(d, first, spc, 0, limit, acc);
        lemma_copy_bytes(d, first, spc, 0, limit, acc);
        let (ok, acc2) = copy_cluster(d, first, spc, 0, limit, acc);
        let cs = spc * 512;
        if spc == 0 {
            assert(acc2 == acc);
        }
        if !ok || c + c / 2 + 1 >= sec_per_fat(d) * 512 || (spc == 0 && fuel == 0) {
            assert(r == acc2);
        } else {
            let nf = if spc == 0 { (fuel - 1) as nat } else { fuel };
            lemma_walk_bytes(d, fat_next(d, c), limit, acc2, nf);
            assert(r == walk(d, fat_next(d, c), limit, acc2, nf).1);
            assert(r.subrange(0, acc.len() as int) =~= r.subrange(0, acc2.len() as int).subrange(0, acc.len() as int));
        }
        if spc > 0 {
            assert forall|i: int| acc.len() <= i < r.len() implies #[trigger] r[i] == d[file_byte(d, c, i - acc.len())] by {
                let x = i - acc.len();
                if i < acc2.len() {
                    assert(r[i] == r.subrange(0, acc2.len() as int)[i]);
                    assert(x / cs == 0 && x % cs == x) by (nonlinear_arith)
                        requires
                            0 <= x < cs,
                    ;
                    assert(chain_nth(d, c, 0) == c);
                } else {
                    assert(acc2.len() == acc.len() + cs);
                    let y = i - acc2.len();
                    assert(y == x - cs);
                    assert(x / cs == y / cs + 1 && x % cs == y % cs) by (nonlinear_arith)
                        requires
                            y == x - cs,
                            y >= 0,
                            cs > 0,
                    ;
                    assert(chain_nth(d, c, (x / cs) as nat) == chain_nth(d, fat_next(d, c), (y / cs) as nat));
                }
            }
        }
    }
}

/// Law: the bytes `read_file` copies out of a file are its clusters'
/// sectors in chain order (cluster `n` being the `sec_per_clus` sectors from
/// `data_start + (n - 2) * sec_per_clus` on), cut at the file size and at
/// the room given.
pub proof fn lemma_read_file_bytes(d: Seq<u8>, name: Seq<u8>, max: int)
    requires
        max >= 0,
    ensures
        ({
            let (code, size, data) = read_file_spec(d, name, max);
            let first = find_from(d, name, 0).1;
            &&& code == 0 ==> data.len() <= size && data.len() <= max
            &&& forall|i: int| 0 <= i < data.len() ==> #[trigger] data[i] == d[file_byte(d, first, i)]
        }),
{
    if sector_ok(d, 0) && bytes_per_sec(d) == 512 {
        let (st, fc, size) = find_from(d, name, 0);
        let limit = if size < max { size } else { max };
        lemma_find_size(d, name, 0);
        if st == 1 {
            lemma_walk_bytes(d, fc, limit, Seq::empty(), CHAIN_STEPS as nat);
        }
    }
}

/// Root directory entry `k` is in use (first byte neither 0 nor 0xE5), is
/// neither a volume label (attribute bit 0x08) nor a long-name fragment
/// (attribute 0x0F), and carries the 11-byte name `name`.
pub open spec fn listed_entry(d: Seq<u8>, k: int, name: Seq<u8>) -> bool {
    let o = entry_off(d, k);
    &&& 0 <= k < root_sectors(d) * 16
    &&& name == d.subrange(o, o + 11)
    &&& d[o] != 0 && d[o] != 0xE5
    &&& d[o + 11] & 0x08 == 0
    &&& d[o + 11] & 0x0F != 0x0F
}

/// `name` is that of a listed root entry.
pub open spec fn is_listed_name(d: Seq<u8>, name: Seq<u8>) -> bool {
    exists|k: int| #[trigger] listed_entry(d, k, name)
}

/// Law: every name the root listing gives is the 11-byte name of a root
/// directory entry in use (first byte neither 0 nor 0xE5) that is neither a
/// volume label (attribute bit 0x08) nor a long-name fragment (attribute
/// 0x0F), and there are at most `max` of them.
pub proof fn lemma_read_dir_names(d: Seq<u8>, max: int)
    requires
        max >= 0,
    ensures
        ({
            let r = read_dir_spec(d, max);
            &&& r.len() <= max
            &&& forall|i: int| #![trigger r[i]] 0 <= i < r.len() ==> is_listed_name(d, r[i])
        }),
{
    if sector_ok(d, 0) && bytes_per_sec(d) == 512 {
        lemma_dir_from_names(d, 0, max, Seq::empty());
    }
    assert(all_listed(d, read_dir_spec(d, max)));
}

/// Every name in `names` is that of a listed root entry.
spec fn all_listed(d: Seq<u8>, names: Seq<Seq<u8>>) -> bool {
    forall|i: int| #![trigger names[i]] 0 <= i < names.len() ==> is_listed_name(d, names[i])
}

proof fn lemma_listed_push(d: Seq<u8>, names: Seq<Seq<u8>>, name: Seq<u8>, j: int)
    requires
        all_listed(d, names),
        listed_entry(d, j, name),
    ensures
        all_listed(d, names.push(name)),
{
    let n2 = names.push(name);
    assert forall|i: int| #![trigger n2[i]] 0 <= i < n2.len() implies is_listed_name(d, n2[i]) by {
        if i < names.len() {
            assert(n2[i] == names[i]);
        } else {
            assert(n2[i] == name);
            assert(listed_entry(d, j, n2[i]));
        }
    }
}

proof fn lemma_dir_from_names(d: Seq<u8>, j: int, max: int, acc: Seq<Seq<u8>>)
    requires
        acc.len() <= max,
        0 <= j,
        all_listed(d, acc),
    ensures
        dir_from(d, j, max, acc).len() <= max,
        all_listed(d, dir_from(d, j, max, acc)),
    decreases root_sectors(d) * 16 - j,
{
    if j >= root_sectors(d) * 16 || !sector_ok(d, root_start(d) + j / 16) {
    } else {
        let o = entry_off(d, j);
        let attr = d[o + 11];
        if d[o] == 0 {
        } else if d[o] == 0xE5 || attr & 0x0F == 0x0F || attr & 0x08 != 0 {
            lemma_dir_from_names(d, j + 1, max, acc);
        } else if acc.len() >= max {
        } else {
            let acc2 = acc.push(d.subrange(o, o + 11));
            assert(listed_entry(d, j, d.subrange(o, o + 11)));
            lemma_listed_push(d, acc, d.subrange(o, o + 11), j);
            lemma_dir_from_names(d, j + 1, max, acc2);
        }
    }
}

/// The boot sector fields the reader uses.
pub struct Bpb {
    pub bytes_per_sec: u32,
    pub sec_per_clus: u32,
    pub reserved: u32,
    pub num_fats: u32,
    pub root_entries: u32,
    pub sec_per_fat: u32,
}

impl Bpb {
    /// The fields match the image's boot sector.
    pub open spec fn matches(&self, d: Seq<u8>) -> bool {
        &&& self.bytes_per_sec == bytes_per_sec(d)
        &&& self.sec_per_clus == sec_per_clus(d)
        &&& self.reserved == reserved_secs(d)
        &&& self.num_fats == num_fats(d)
        &&& self.root_entries == root_entries(d)
        &&& self.sec_per_fat == sec_per_fat(d)
    }

    /// Reads the BPB out of the boot sector; `None` when it cannot be read.
    pub fn parse(disk: &[u8]) -> (r: Option<Bpb>)
        ensures
            r is Some <==> sector_ok(disk@, 0),
            r matches Some(b) ==> b.matches(disk@),
    {
        if !sector_readable(disk, 0) {
            return None;
        }
        Some(Bpb {
            bytes_per_sec: u16le(disk, 0x0B),
            sec_per_clus: disk[0x0D] as u32,
            reserved: u16le(disk, 0x0E),
            num_fats: disk[0x10] as u32,
            root_entries: u16le(disk, 0x11),
            sec_per_fat: u16le(disk, 0x16),
        })
    }

    /// First sector of the root directory.
    pub fn root_start(&self) -> (r: u32)
        requires
            self.reserved < 65536,
            self.num_fats < 256,
            self.sec_per_fat < 65536,
        ensures
            r == self.reserved + self.num_fats * self.sec_per_fat,
            r < 0x100_0000,
    {
        assert(self.num_fats * self.sec_per_fat <= 255 * 65535) by (nonlinear_arith)
            requires
                self.num_fats < 256,
                self.sec_per_fat < 65536,
        ;
        self.reserved + self.num_fats * self.sec_per_fat
    }

    /// Sectors of the root directory (for 512-byte sectors).
    pub fn root_sectors(&self) -> (r: u32)
        requires
            self.root_entries < 65536,
        ensures
            r == (self.root_entries * 32 + 511) / 512,
            r <= 4096,
    {
        (self.root_entries * 32 + 511) / 512
    }
}

proof fn lemma_bpb_ranges(d: Seq<u8>)
    requires
        sector_ok(d, 0),
    ensures
        0 <= reserved_secs(d) < 65536,
        0 <= num_fats(d) < 256,
        0 <= sec_per_fat(d) < 65536,
        0 <= root_entries(d) < 65536,
        0 <= sec_per_clus(d) < 256,
        0 <= root_start(d) < 0x100_0000,
        0 <= root_sectors(d) <= 4096,
{
    assert(num_fats(d) * sec_per_fat(d) <= 255 * 65535) by (nonlinear_arith)
        requires
            0 <= num_fats(d) < 256,
            0 <= sec_per_fat(d) < 65536,
    ;
    assert(num_fats(d) * sec_per_fat(d) >= 0) by (nonlinear_arith)
        requires
            0 <= num_fats(d) < 256,
            0 <= sec_per_fat(d) < 65536,
    ;
}

/// Root entry `j` holds exactly `name`.
fn name_at(disk: &[u8], o: usize, name: &[u8; 11]) -> (r: bool)
    requires
        o + 11 <= disk.len(),
    ensures
        r == (disk@.subrange(o as int, o + 11) == name@),
{
    let mut k: usize = 0;
    while k < 11
        invariant
            o + 11 <= disk.len(),
            k <= 11,
            forall|m: int| 0 <= m < k ==> disk@[o + m] == name@[m],
        decreases 11 - k,
    {
        if disk[o + k] != name[k] {
            proof {
                assert(disk@.subrange(o as int, o + 11)[k as int] != name@[k as int]);
            }
            return false;
        }
        k += 1;
    }
    proof {
        assert(disk@.subrange(o as int, o + 11) =~= name@);
    }
    true
}

/// Looks `name` up in the root directory: `(status, first cluster, size)` as
/// in `find_from`.
fn find_entry(disk: &[u8], bpb: &Bpb, name: &[u8; 11]) -> (r: (u8, u32, u32))
    requires
        sector_ok(disk@, 0),
        bpb.matches(disk@),
    ensures
        r.0 as int == find_from(disk@, name@, 0).0,
        r.0 == 1 ==> r.1 as int == find_from(disk@, name@, 0).1 && r.2 as int == find_from(disk@, name@, 0).2,
{
    proof {
        lemma_bpb_ranges(disk@);
    }
    let rs = bpb.root_start();
    let n = bpb.root_sectors() as usize * 16;
    let mut j: usize = 0;
    while j < n
        invariant
            sector_ok(disk@, 0),
            bpb.matches(disk@),
            rs == root_start(disk@),
            rs < 0x100_0000,
            n == root_sectors(disk@) * 16,
            n <= 4096 * 16,
            j <= n,
            find_from(disk@, name@, 0) == find_from(disk@, name@, j as int),
        decreases n - j,
    {
        let sec = rs + (j / 16) as u32;
        if !sector_readable(disk, sec) {
            return (2, 0, 0);
        }
        assert((sec as int) * 512 + 512 <= disk.len()) by (nonlinear_arith)
            requires
                sec < disk.len() / 512,
        ;
        let o = (sec as usize) * SECTOR + (j % 16) * 32;
        assert(o == entry_off(disk@, j as int));
        if disk[o] == 0 {
            return (0, 0, 0);
        }
        if disk[o] == 0xE5 || disk[o + 11] & 0x0F == 0x0F {
            j += 1;
            continue;
        }
        if name_at(disk, o, name) {
            return (1, u16le(disk, o + 0x1A), u32le(disk, o + 0x1C));
        }
        j += 1;
    }
    (0, 0, 0)
}

/// Follows the cluster chain from `start_cluster`, copying up to `limit`
/// bytes into `out`. Returns the walk's status (0 done, 1 a sector failed,
/// 2 the chain runs off the FAT or never ends) and the bytes copied.
fn copy_chain(disk: &[u8], bpb: &Bpb, start_cluster: u32, limit: usize, out: &mut [u8]) -> (r: (u8, usize))
    requires
        sector_ok(disk@, 0),
        bpb.matches(disk@),
        bytes_per_sec(disk@) == 512,
        sec_per_fat(disk@) > 0 ==> sector_ok(disk@, reserved_secs(disk@) + sec_per_fat(disk@) - 1),
        limit <= old(out)@.len(),
    ensures
        ({
            let w = walk(disk@, start_cluster as int, limit as int, Seq::empty(), CHAIN_STEPS as nat);
            &&& r.0 == w.0
            &&& r.0 <= 2
            &&& r.1 == w.1.len()
            &&& final(out)@ == w.1 + old(out)@.subrange(w.1.len() as int, old(out)@.len() as int)
        }),
{
    let ghost d = disk@;
    let ghost total = walk(d, start_cluster as int, limit as int, Seq::empty(), CHAIN_STEPS as nat);
    proof {
        lemma_bpb_ranges(d);
        if sec_per_fat(d) > 0 {
            assert((reserved_secs(d) + sec_per_fat(d)) * 512 <= d.len()) by (nonlinear_arith)
                requires
                    reserved_secs(d) + sec_per_fat(d) - 1 < d.len() / 512,
            ;
        }
    }
    let spc = bpb.sec_per_clus;
    let ds = bpb.root_start() + bpb.root_sectors();
    let fat_off = bpb.reserved as usize * SECTOR;
    let fat_len = bpb.sec_per_fat as usize * SECTOR;
    let mut written: usize = 0;
    let mut cluster = start_cluster;
    let mut fuel: u32 = CHAIN_STEPS;
    proof {
        assert(out@.subrange(0, 0) =~= Seq::<u8>::empty());
    }
    while cluster >= 2 && cluster < 0xFF8 && written < limit
        invariant
            d == disk@,
            sector_ok(d, 0),
            bpb.matches(d),
            spc == sec_per_clus(d),
            spc < 256,
            ds == data_start(d),
            ds < 0x100_0000 + 4096,
            fat_off == reserved_secs(d) * 512,
            fat_len == sec_per_fat(d) * 512,
            fat_len > 0 ==> fat_off + fat_len <= d.len(),
            limit <= out@.len(),
            out@.len() == old(out)@.len(),
            written <= limit,
            out@.subrange(written as int, out@.len() as int) == old(out)@.subrange(written as int, old(out)@.len() as int),
            walk(d, cluster as int, limit as int, out@.subrange(0, written as int), fuel as nat) == total,
            total == walk(d, start_cluster as int, limit as int, Seq::empty(), CHAIN_STEPS as nat),
        decreases limit - written, fuel,
    {
        assert(((cluster - 2) as int) * spc <= 4096 * 256) by (nonlinear_arith)
            requires
                2 <= cluster < 0xFF8,
                spc < 256,
        ;
        let first = ds + (cluster - 2) * spc;
        let ghost acc0 = out@.subrange(0, written as int);
        let ghost w0 = written;
        let mut s: u32 = 0;
        while s < spc
            invariant
                d == disk@,
                    2 <= cluster < 0xFF8,
                acc0.len() == w0,
                walk(d, cluster as int, limit as int, acc0, fuel as nat) == total,
                total == walk(d, start_cluster as int, limit as int, Seq::empty(), CHAIN_STEPS as nat),
                spc == sec_per_clus(d),
                first == data_start(d) + (cluster - 2) * spc,
                first < 0x200_0000,
                spc < 256,
                s <= spc,
                limit <= out@.len(),
                out@.len() == old(out)@.len(),
                w0 <= written <= limit,
                w0 < limit,
                s > 0 ==> w0 < written,
                out@.subrange(written as int, out@.len() as int) == old(out)@.subrange(written as int, old(out)@.len() as int),
                copy_cluster(d, first as int, spc as int, s as int, limit as int, out@.subrange(0, written as int))
                    == copy_cluster(d, first as int, spc as int, 0, limit as int, acc0),
            decreases spc - s,
        {
            if !sector_readable(disk, first + s) {
                proof {
                    let cur = out@.subrange(0, written as int);
                    assert(copy_cluster(d, first as int, spc as int, s as int, limit as int, cur) == (false, cur));
                    assert(copy_cluster(d, first as int, spc as int, 0, limit as int, acc0) == (false, cur));
                    assert(first as int == data_start(d) + (cluster as int - 2) * sec_per_clus(d));
                    assert(acc0.len() < limit);
                    assert(walk(d, cluster as int, limit as int, acc0, fuel as nat) == (1int, cur));
                    assert(total == (1int, cur));
                    assert(out@ =~= out@.subrange(0, written as int) + out@.subrange(written as int, out@.len() as int));
                }
                return (1, written);
            }
            assert(((first + s) as int) * 512 + 512 <= disk.len()) by (nonlinear_arith)
                requires
                    first + s < disk.len() / 512,
            ;
            let start = (first + s) as usize * SECTOR;
            let ghost acc1 = out@.subrange(0, written as int);
            let ghost w1 = written;
            let mut i: usize = 0;
            while i < SECTOR && written < limit
                invariant
                    d == disk@,
                    start + 512 <= disk.len(),
                    limit <= out@.len(),
                    out@.len() == old(out)@.len(),
                    i <= 512,
                    written == w1 + i,
                    written <= limit,
                    out@.subrange(0, written as int) == acc1 + d.subrange(start as int, start + i),
                    out@.subrange(written as int, out@.len() as int) == old(out)@.subrange(written as int, old(out)@.len() as int),
                decreases 512 - i,
            {
                let ghost before = out@;
                out[written] = disk[start + i];
                proof {
                    assert(out@.subrange(0, written + 1) =~= before.subrange(0, written as int).push(d[start + i]));
                    assert(d.subrange(start as int, start + i + 1) =~= d.subrange(start as int, start + i).push(d[start + i]));
                    assert(out@.subrange(written + 1, out@.len() as int) =~= before.subrange(written + 1, before.len() as int));
                    assert(before.subrange(written + 1, before.len() as int) =~= before.subrange(written as int, before.len() as int).subrange(1, before.len() - written));
                    assert(old(out)@.subrange(written + 1, old(out)@.len() as int) =~= old(out)@.subrange(written as int, old(out)@.len() as int).subrange(1, old(out)@.len() - written));
                }
                written += 1;
                i += 1;
            }
            s += 1;
        }
        let fo = cluster as usize + (cluster / 2) as usize;
        let ghost acc2 = out@.subrange(0, written as int);
        proof {
            assert(copy_cluster(d, first as int, spc as int, spc as int, limit as int, acc2) == (true, acc2));
            if spc > 0 {
                lemma_copy_cluster(d, first as int, spc as int, 0, limit as int, acc0);
            }
        }
        proof {
            assert(copy_cluster(d, first as int, spc as int, 0, limit as int, acc0) == (true, acc2));
            assert(out@ =~= out@.subrange(0, written as int) + out@.subrange(written as int, out@.len() as int));
        }
        if fo + 1 >= fat_len {
            return (2, written);
        }
        if spc == 0 && fuel == 0 {
            return (2, written);
        }
        let raw = u16le(disk, fat_off + fo);
        let next = if cluster & 1 == 1 { raw >> 4 } else { raw & 0xFFF };
        proof {
            assert(raw < 65536);
            if cluster & 1 == 1 {
                assert(cluster % 2 == 1) by (bit_vector)
                    requires cluster & 1 == 1;
                assert(raw >> 4 == raw / 16) by (bit_vector);
            } else {
                assert(cluster % 2 == 0) by (bit_vector)
                    requires cluster & 1 != 1;
                assert(raw & 0xFFF == raw % 4096) by (bit_vector);
            }
            assert(next == fat_next(d, cluster as int));
        }
        if spc == 0 {
            fuel = fuel - 1;
        }
        cluster = next;
    }
    proof {
        assert(out@ =~= out@.subrange(0, written as int) + out@.subrange(written as int, out@.len() as int));
    }
    (0, written)
}

/// Reads file `name` into `out` (at most `max` bytes); returns the code of
/// `read_file_spec` and, for code 0, the file size.
fn read_into(disk: &[u8], name: &[u8; 11], out: &mut [u8], max: usize) -> (r: (u8, usize))
    requires
        max <= old(out)@.len(),
    ensures
        ({
            let (code, size, data) = read_file_spec(disk@, name@, max as int);
            &&& r.0 == code
            &&& code == 0 ==> r.1 == size as usize
            &&& data.len() <= max
            &&& final(out)@ == data + old(out)@.subrange(data.len() as int, old(out)@.len() as int)
        }),
{
    proof {
        assert(old(out)@ =~= Seq::<u8>::empty() + old(out)@.subrange(0, old(out)@.len() as int));
    }
    let bpb = match Bpb::parse(disk) {
        Some(b) => b,
        None => return (1, 0),
    };
    if bpb.bytes_per_sec != 512 {
        return (1, 0);
    }
    proof {
        lemma_bpb_ranges(disk@);
    }
    let found = find_entry(disk, &bpb, name);
    if found.0 != 1 {
        return (1, 0);
    }
    let spf = bpb.sec_per_fat;
    if spf > 0 && !sector_readable(disk, bpb.reserved + spf - 1) {
        return (1, 0);
    }
    let size = found.2 as usize;
    let limit = if size < max { size } else { max };
    proof {
        let (st, fc, sz) = find_from(disk@, name@, 0);
        assert(found.1 == fc);
        assert(found.2 == sz);
        lemma_walk_bound(disk@, fc, limit as int, Seq::empty(), CHAIN_STEPS as nat);
    }
    let (status, _n) = copy_chain(disk, &bpb, found.1, limit, out);
    proof {
        let w = walk(disk@, found.1 as int, limit as int, Seq::empty(), CHAIN_STEPS as nat);
        assert(read_file_spec(disk@, name@, max as int) == (if w.0 == 0 {
            (0int, found.2 as int, w.1)
        } else if w.0 == 2 {
            (2int, 0int, w.1)
        } else {
            (1int, 0int, w.1)
        }));
        assert(w.1.len() <= limit);
    }
    (status, size)
}

/// Reads file `name` (an 11-byte 8.3 name, space-padded, e.g. `HELLO   TXT`)
/// into `out`, copying at most `max` bytes. Returns the file size on success.
pub fn read_file(disk: &[u8], name: &[u8; 11], out: &mut [u8], max: usize) -> (r: Option<usize>)
    requires
        max <= old(out)@.len(),
        read_file_spec(disk@, name@, max as int).0 != 2,
    ensures
        ({
            let (code, size, data) = read_file_spec(disk@, name@, max as int);
            &&& code == 0 ==> r == Some(size as usize)
            &&& code == 1 ==> r is None
            &&& data.len() <= max
            &&& final(out)@ == data + old(out)@.subrange(data.len() as int, old(out)@.len() as int)
        }),
{
    let (code, size) = read_into(disk, name, out, max);
    if code == 0 { Some(size) } else { None }
}

/// Reading `name` with room for `max` bytes would run off the FAT or
/// follow a cluster chain that never ends (where the reader faults or
/// hangs).
pub fn read_faults(disk: &[u8], name: &[u8; 11], max: usize) -> (r: bool)
    ensures
        r == (read_file_spec(disk@, name@, max as int).0 == 2),
{
    let mut scratch: Vec<u8> = Vec::new();
    let mut i: usize = 0;
    while i < max
        invariant
            i <= max,
            scratch@.len() == i,
        decreases max - i,
    {
        scratch.push(0);
        i += 1;
    }
    let (code, _size) = read_into(disk, name, scratch.as_mut_slice(), max);
    code == 2
}

/// Contents of a list of 8.3 names.
pub open spec fn names_view(v: Seq<[u8; 11]>) -> Seq<Seq<u8>> {
    Seq::new(v.len(), |i: int| v[i]@)
}

/// Copies the 11-byte name at `o`.
fn name_from(disk: &[u8], o: usize) -> (r: [u8; 11])
    requires
        o + 11 <= disk.len(),
    ensures
        r@ == disk@.subrange(o as int, o + 11),
{
    let mut nm = [0u8; 11];
    let mut k: usize = 0;
    while k < 11
        invariant
            o + 11 <= disk.len(),
            k <= 11,
            forall|m: int| 0 <= m < k ==> nm@[m] == disk@[o + m],
        decreases 11 - k,
    {
        nm[k] = disk[o + k];
        k += 1;
    }
    proof {
        assert(nm@ =~= disk@.subrange(o as int, o + 11));
    }
    nm
}

/// Lists the root directory: up to `max` 11-byte 8.3 names, skipping
/// deleted entries, long-filename fragments and the volume label.
pub fn read_dir(disk: &[u8], max: usize) -> (r: Vec<[u8; 11]>)
    ensures
        names_view(r@) == read_dir_spec(disk@, max as int),
{
    let mut names: Vec<[u8; 11]> = Vec::new();
    proof {
        assert(names_view(names@) =~= Seq::<Seq<u8>>::empty());
    }
    let bpb = match Bpb::parse(disk) {
        Some(b) => b,
        None => return names,
    };
    if bpb.bytes_per_sec != 512 {
        return names;
    }
    proof {
        lemma_bpb_ranges(disk@);
    }
    let rs = bpb.root_start();
    let n = bpb.root_sectors() as usize * 16;
    let mut j: usize = 0;
    while j < n
        invariant
            sector_ok(disk@, 0),
            bpb.matches(disk@),
            bytes_per_sec(disk@) == 512,
            rs == root_start(disk@),
            rs < 0x100_0000,
            n == root_sectors(disk@) * 16,
            n <= 4096 * 16,
            j <= n,
            names@.len() <= max,
            read_dir_spec(disk@, max as int) == dir_from(disk@, j as int, max as int, names_view(names@)),
        decreases n - j,
    {
        let sec = rs + (j / 16) as u32;
        if !sector_readable(disk, sec) {
            return names;
        }
        assert((sec as int) * 512 + 512 <= disk.len()) by (nonlinear_arith)
            requires
                sec < disk.len() / 512,
        ;
        let o = (sec as usize) * SECTOR + (j % 16) * 32;
        assert(o == entry_off(disk@, j as int));
        if disk[o] == 0 {
            return names;
        }
        let attr = disk[o + 11];
        if disk[o] == 0xE5 || attr & 0x0F == 0x0F || attr & 0x08 != 0 {
            j += 1;
            continue;
        }
        if names.len() >= max {
            return names;
        }
        let nm = name_from(disk, o);
        let ghost before = names@;
        names.push(nm);
        proof {
            assert(names_view(names@) =~= names_view(before).push(disk@.subrange(o as int, o + 11)));
        }
        j += 1;
    }
    names
}

/// Little-endian 16-bit value at `off`.
pub fn u16le(b: &[u8], off: usize) -> (r: u32)
    requires
        off + 1 < b@.len(),
    ensures
        r == le16(b@, off as int),
{
    let x = b[off];
    let y = b[off + 1];
    let r = x as u32 | (y as u32) << 8;
    assert(r == x + y * 256) by (bit_vector)
        requires
            r == x as u32 | (y as u32) << 8;
    r
}

/// Little-endian 32-bit value at `off`.
pub fn u32le(b: &[u8], off: usize) -> (r: u32)
    requires
        off + 3 < b@.len(),
    ensures
        r == le32(b@, off as int),
{
    let x = b[off];
    let y = b[off + 1];
    let z = b[off + 2];
    let w = b[off + 3];
    let r = x as u32 | (y as u32) << 8 | (z as u32) << 16 | (w as u32) << 24;
    assert(r == x + y * 256 + z * 65536 + w * 16777216) by (bit_vector)
        requires
            r == x as u32 | (y as u32) << 8 | (z as u32) << 16 | (w as u32) << 24;
    r
}

/// Sector `s` lies inside the image.
fn sector_readable(disk: &[u8], s: u32) -> (r: bool)
    ensures
        r == sector_ok(disk@, s as int),
{
    (s as usize) < disk.len() / SECTOR
}

} // verus!
