//! ATA (IDE) disk, primary master, PIO mode with 28-bit LBA: the register
//! values and the status decisions. The caller does the port I/O.
use vstd::prelude::*;
use crate::string::hex_str;
use crate::text::{ascii, push_str, push_hex};

verus! {

pub const DATA: u16 = 0x1F0;
pub const SECCOUNT: u16 = 0x1F2;
pub const LBA_LO: u16 = 0x1F3;
pub const LBA_MID: u16 = 0x1F4;
pub const LBA_HI: u16 = 0x1F5;
pub const DRIVE: u16 = 0x1F6;
pub const STATUS_CMD: u16 = 0x1F7;
pub const CMD_READ_SECTORS: u8 = 0x20;
pub const ST_ERR: u8 = 0x01;
pub const ST_DRQ: u8 = 0x08;
pub const ST_BSY: u8 = 0x80;
/// Status polls before giving up.
pub const TIMEOUT: u32 = 1_000_000;

/// Outcome of one status poll.
#[derive(Clone, Copy, PartialEq, Eq, Structural, Debug)]
pub enum WaitStep {
    Ready,
    Fail,
    /// Poll again; the new poll count.
    Spin(u32),
}

/// Waiting for the drive to leave BSY: a floating bus (0xFF) means no
/// drive; give up after `TIMEOUT` polls.
pub fn wait_not_busy_step(status: u8, spin: u32) -> (r: WaitStep)
    requires
        spin <= TIMEOUT,
    ensures
        status == 0xFF ==> r == WaitStep::Fail,
        status != 0xFF && status & ST_BSY == 0 ==> r == WaitStep::Ready,
        status != 0xFF && status & ST_BSY != 0 ==> r == (if spin + 1 > TIMEOUT { WaitStep::Fail } else { WaitStep::Spin((spin + 1) as u32) }),
{
    if status == 0xFF {
        return WaitStep::Fail;
    }
    if status & ST_BSY == 0 {
        return WaitStep::Ready;
    }
    let s = spin + 1;
    if s > TIMEOUT { WaitStep::Fail } else { WaitStep::Spin(s) }
}

/// Waiting for data: fails on a floating bus or ERR, ready once BSY is clear
/// and DRQ set; gives up after `TIMEOUT` polls.
pub fn wait_data_ready_step(status: u8, spin: u32) -> (r: WaitStep)
    requires
        spin <= TIMEOUT,
    ensures
        status == 0xFF || status & ST_ERR != 0 ==> r == WaitStep::Fail,
        !(status == 0xFF || status & ST_ERR != 0) && status & ST_BSY == 0 && status & ST_DRQ != 0 ==> r == WaitStep::Ready,
        !(status == 0xFF || status & ST_ERR != 0) && !(status & ST_BSY == 0 && status & ST_DRQ != 0)
            ==> r == (if spin + 1 > TIMEOUT { WaitStep::Fail } else { WaitStep::Spin((spin + 1) as u32) }),
{
    if status == 0xFF || status & ST_ERR != 0 {
        return WaitStep::Fail;
    }
    if status & ST_BSY == 0 && status & ST_DRQ != 0 {
        return WaitStep::Ready;
    }
    let s = spin + 1;
    if s > TIMEOUT { WaitStep::Fail } else { WaitStep::Spin(s) }
}

/// Drive/head register value: LBA mode, master, LBA bits 24..28.
pub fn drive_select(lba: u32) -> (r: u8)
    ensures
        r == 0xE0 + (lba / 0x100_0000) % 16,
{
    let r = 0xE0u8 | ((lba >> 24) & 0x0F) as u8;
    assert(r == 0xE0 + (lba / 0x100_0000) % 16) by (bit_vector)
        requires
            r == 0xE0u8 | ((lba >> 24) & 0x0F) as u8;
    r
}

/// The register writes that start reading `count` sectors at `lba` (after
/// the drive select): count, LBA bits 0..8, 8..16, 16..24, READ SECTORS.
pub fn command_writes(lba: u32, count: u8) -> (r: Vec<(u16, u8)>)
    ensures
        r@ == seq![
            (SECCOUNT, count),
            (LBA_LO, (lba % 256) as u8),
            (LBA_MID, ((lba / 256) % 256) as u8),
            (LBA_HI, ((lba / 0x10000) % 256) as u8),
            (STATUS_CMD, CMD_READ_SECTORS),
        ],
{
    let lo = (lba & 0xFF) as u8;
    let mid = ((lba >> 8) & 0xFF) as u8;
    let hi = ((lba >> 16) & 0xFF) as u8;
    assert(lo == lba % 256 && mid == (lba / 256) % 256 && hi == (lba / 0x10000) % 256) by (bit_vector)
        requires
            lo == (lba & 0xFF) as u8,
            mid == ((lba >> 8) & 0xFF) as u8,
            hi == ((lba >> 16) & 0xFF) as u8,
    ;
    let mut v: Vec<(u16, u8)> = Vec::new();
    v.push((SECCOUNT, count));
    v.push((LBA_LO, lo));
    v.push((LBA_MID, mid));
    v.push((LBA_HI, hi));
    v.push((STATUS_CMD, CMD_READ_SECTORS));
    proof {
        assert(v@ =~= seq![
            (SECCOUNT, count),
            (LBA_LO, (lba % 256) as u8),
            (LBA_MID, ((lba / 256) % 256) as u8),
            (LBA_HI, ((lba / 0x10000) % 256) as u8),
            (STATUS_CMD, CMD_READ_SECTORS),
        ]);
    }
    v
}

/// Stores a data word read from the drive: low byte first.
pub fn store_word(buf: &mut [u8], off: usize, w: u16)
    requires
        off + 1 < old(buf)@.len(),
    ensures
        final(buf)@ == old(buf)@.update(off as int, (w % 256) as u8).update(off + 1, (w / 256) as u8),
{
    let lo = (w & 0xFF) as u8;
    let hi = (w >> 8) as u8;
    assert(lo == w % 256 && hi == w / 256) by (bit_vector)
        requires
            lo == (w & 0xFF) as u8,
            hi == (w >> 8) as u8,
    ;
    buf[off] = lo;
    buf[off + 1] = hi;
}

/// The hex dump of the first `k` bytes of `sector`, each after a space.
pub open spec fn hex_bytes(sector: Seq<u8>, k: int) -> Seq<u8>
    decreases k,
{
    if k <= 0 {
        Seq::empty()
    } else {
        hex_bytes(sector, k - 1) + seq![32u8, 48u8, 120u8] + hex_str(sector[k - 1] as u32)
    }
}

/// What the probe reports: a read error, or the first 16 bytes of sector 0.
pub open spec fn probe_text_spec(ok: bool, sector: Seq<u8>) -> Seq<u8> {
    if !ok {
        ascii("ata: read error (no disk?)\n"@)
    } else {
        ascii("ata: sector 0 ="@) + hex_bytes(sector, 16) + seq![10u8]
    }
}

/// The probe report for sector 0 (`ok`: whether it could be read).
pub fn probe_text(ok: bool, sector: &[u8]) -> (r: Vec<u8>)
    requires
        ok ==> sector@.len() >= 16,
    ensures
        r@ == probe_text_spec(ok, sector@),
{
    let mut out: Vec<u8> = Vec::new();
    if !ok {
        proof {
            reveal_strlit("ata: read error (no disk?)\n");
        }
        push_str(&mut out, "ata: read error (no disk?)\n");
        return out;
    }
    proof {
        reveal_strlit("ata: sector 0 =");
    }
    push_str(&mut out, "ata: sector 0 =");
    let ghost head = out@;
    let mut i: usize = 0;
    while i < 16
        invariant
            i <= 16,
            sector@.len() >= 16,
            out@ == head + hex_bytes(sector@, i as int),
        decreases 16 - i,
    {
        out.push(32);
        push_hex(&mut out, sector[i] as u32);
        i += 1;
        proof {
            assert(out@ =~= head + hex_bytes(sector@, i as int));
        }
    }
    out.push(10);
    out
}

} // verus!
