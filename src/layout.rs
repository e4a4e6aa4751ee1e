//! Geometry of the flash array and the two partitioning rules built on it:
//! page-bounded program chunks and greedy aligned erase units.
use vstd::prelude::*;

verus! {

/// Bytes in one program page.
pub const PAGE_SIZE: usize = 256;

/// Bytes in one sector, the smallest erasable unit.
pub const SECTOR_SIZE: usize = 4096;

/// Bytes in a 32 KiB block.
pub const BLOCK32_SIZE: usize = 32768;

/// Bytes in a 64 KiB block.
pub const BLOCK64_SIZE: usize = 65536;

/// Manufacturer and device identification.
pub const CMD_IDENTIFY: u8 = 0x90;

/// Page program.
pub const CMD_PAGE_PROGRAM: u8 = 0x02;

/// Read data without a dummy phase.
pub const CMD_READ_DATA: u8 = 0x03;

/// Read data after one dummy byte.
pub const CMD_FAST_READ: u8 = 0x0B;

/// Read status register 1.
pub const CMD_READ_STATUS1: u8 = 0x05;

/// Read status register 2.
pub const CMD_READ_STATUS2: u8 = 0x35;

/// Set the write-enable latch.
pub const CMD_WRITE_ENABLE: u8 = 0x06;

/// Erase one 4 KiB sector.
pub const CMD_SECTOR_ERASE: u8 = 0x20;

/// Erase one 32 KiB block.
pub const CMD_BLOCK32_ERASE: u8 = 0x52;

/// Erase one 64 KiB block.
pub const CMD_BLOCK64_ERASE: u8 = 0xD8;

/// Erase the whole array.
pub const CMD_CHIP_ERASE: u8 = 0xC7;

/// Arm the software reset.
pub const CMD_ENABLE_RESET: u8 = 0x66;

/// Software reset.
pub const CMD_RESET: u8 = 0x99;

/// Manufacturer code that identification must return.
pub const MANUFACTURER_ID: u8 = 0xEF;

/// Device code of the 128 Mbit part.
pub const DEVICE_ID: u8 = 0x17;

/// Busy bit of status register 1.
pub const STATUS_BUSY: u8 = 0x01;

/// Write-enable-latch bit of status register 1.
pub const STATUS_WRITE_ENABLE: u8 = 0x02;

/// Size of the region that an erase opcode clears.
pub open spec fn unit_size(op: u8) -> nat {
    if op == CMD_BLOCK64_ERASE {
        65536
    } else if op == CMD_BLOCK32_ERASE {
        32768
    } else {
        4096
    }
}

/// The erase opcode chosen at `addr` with `remaining` bytes left to erase:
/// the largest unit that is aligned at `addr` and fits in what remains.
pub open spec fn greedy_op(addr: nat, remaining: nat) -> u8 {
    if addr % 65536 == 0 && remaining >= 65536 {
        CMD_BLOCK64_ERASE
    } else if addr % 32768 == 0 && remaining >= 32768 {
        CMD_BLOCK32_ERASE
    } else {
        CMD_SECTOR_ERASE
    }
}

/// The erase units, as (opcode, start address), that cover `len` bytes from `addr`.
pub open spec fn erase_units(addr: nat, len: nat) -> Seq<(u8, nat)>
    decreases len,
{
    if len < 4096 {
        seq![]
    } else {
        let op = greedy_op(addr, len);
        seq![(op, addr)] + erase_units(addr + unit_size(op), (len - unit_size(op)) as nat)
    }
}

/// Sum of the sizes of a sequence of erase units.
pub open spec fn units_total(units: Seq<(u8, nat)>) -> nat
    decreases units.len(),
{
    if units.len() == 0 {
        0
    } else {
        unit_size(units[0].0) + units_total(units.drop_first())
    }
}

/// Bytes that one program command may carry at `addr` when `remaining` are left:
/// up to the end of the page that holds `addr`.
pub open spec fn chunk_len(addr: nat, remaining: nat) -> nat {
    let room = (256 - addr % 256) as nat;
    if remaining < room {
        remaining
    } else {
        room
    }
}

/// The program chunks, as (address, payload), that write `data` from `addr`.
pub open spec fn write_pieces(addr: nat, data: Seq<u8>) -> Seq<(nat, Seq<u8>)>
    decreases data.len(),
{
    if data.len() == 0 {
        seq![]
    } else {
        let n = chunk_len(addr, data.len());
        seq![(addr, data.take(n as int))] + write_pieces(addr + n, data.skip(n as int))
    }
}

/// The payloads of a sequence of program chunks, in order.
pub open spec fn payloads(pieces: Seq<(nat, Seq<u8>)>) -> Seq<Seq<u8>> {
    pieces.map_values(|p: (nat, Seq<u8>)| p.1)
}

/// A sector-aligned range of whole sectors is covered exactly, with no gap and
/// no overlap, by its erase units; each unit is aligned to its own size and
/// carries the opcode that the greedy rule picks at its start address.
pub proof fn lemma_erase_units_cover(addr: nat, len: nat)
    requires
        addr % 4096 == 0,
        len % 4096 == 0,
    ensures
        units_total(erase_units(addr, len)) == len,
        len > 0 ==> erase_units(addr, len).len() > 0 && erase_units(addr, len)[0].1 == addr,
        forall|i: int|
            0 <= i < erase_units(addr, len).len() ==> {
                let u = #[trigger] erase_units(addr, len)[i];
                &&& u.0 == greedy_op(u.1, (addr + len - u.1) as nat)
                &&& u.1 % unit_size(u.0) == 0
                &&& addr <= u.1
                &&& u.1 + unit_size(u.0) <= addr + len
            },
        forall|i: int|
            0 <= i < erase_units(addr, len).len() - 1 ==> #[trigger] erase_units(addr, len)[i
                + 1].1 == erase_units(addr, len)[i].1 + unit_size(erase_units(addr, len)[i].0),
    decreases len,
{
    if len >= 4096 {
        let op = greedy_op(addr, len);
        let step = unit_size(op);
        let rest = erase_units(addr + step, (len - step) as nat);
        let u = erase_units(addr, len);
        assert(u == seq![(op, addr)] + rest);
        assert((addr + step) % 4096 == 0);
        lemma_erase_units_cover(addr + step, (len - step) as nat);
        assert(u.drop_first() == rest);
        assert forall|i: int| 0 <= i < u.len() implies {
            let w = #[trigger] u[i];
            &&& w.0 == greedy_op(w.1, (addr + len - w.1) as nat)
            &&& w.1 % unit_size(w.0) == 0
            &&& addr <= w.1
            &&& w.1 + unit_size(w.0) <= addr + len
        } by {
            if i > 0 {
                assert(u[i] == rest[i - 1]);
            }
        }
        assert forall|i: int| 0 <= i < u.len() - 1 implies #[trigger] u[i + 1].1 == u[i].1
            + unit_size(u[i].0) by {
            assert(u[i + 1] == rest[i]);
            if i > 0 {
                assert(u[i] == rest[i - 1]);
            }
        }
    }
}

/// Writing `data` from `addr` takes one chunk per page touched; no chunk
/// crosses a page boundary, each carries 1 to 256 bytes, chunk addresses are
/// consecutive, and the payloads concatenated in order give back `data`.
pub proof fn lemma_write_pieces_split(addr: nat, data: Seq<u8>)
    ensures
        payloads(write_pieces(addr, data)).flatten() == data,
        data.len() > 0 ==> write_pieces(addr, data).len() == (addr % 256 + data.len() + 255)
            / 256,
        data.len() > 0 ==> write_pieces(addr, data)[0].0 == addr,
        forall|i: int|
            0 <= i < write_pieces(addr, data).len() ==> {
                let p = #[trigger] write_pieces(addr, data)[i];
                &&& 1 <= p.1.len() <= 256
                &&& p.0 / 256 == (p.0 + p.1.len() - 1) / 256
            },
        forall|i: int|
            0 <= i < write_pieces(addr, data).len() - 1 ==> #[trigger] write_pieces(addr, data)[i
                + 1].0 == write_pieces(addr, data)[i].0 + write_pieces(addr, data)[i].1.len(),
    decreases data.len(),
{
    let w = write_pieces(addr, data);
    if data.len() > 0 {
        let n = chunk_len(addr, data.len());
        let rest = write_pieces(addr + n, data.skip(n as int));
        assert(w == seq![(addr, data.take(n as int))] + rest);
        lemma_write_pieces_split(addr + n, data.skip(n as int));
        assert(payloads(w) == seq![data.take(n as int)] + payloads(rest));
        assert(payloads(w).drop_first() == payloads(rest));
        assert(payloads(w).flatten() == data.take(n as int) + payloads(rest).flatten());
        assert(data.take(n as int) + data.skip(n as int) == data);
        if data.len() > n {
            assert((addr + n) % 256 == 0);
            assert((addr % 256 + data.len() + 255) / 256 == 1 + ((data.len() - n) + 255) / 256);
        }
        assert(addr / 256 == (addr + n - 1) / 256);
        assert forall|i: int| 0 <= i < w.len() implies {
            let p = #[trigger] w[i];
            &&& 1 <= p.1.len() <= 256
            &&& p.0 / 256 == (p.0 + p.1.len() - 1) / 256
        } by {
            if i > 0 {
                assert(w[i] == rest[i - 1]);
            }
        }
        assert forall|i: int| 0 <= i < w.len() - 1 implies #[trigger] w[i + 1].0 == w[i].0
            + w[i].1.len() by {
            assert(w[i + 1] == rest[i]);
            if i > 0 {
                assert(w[i] == rest[i - 1]);
                let j = i - 1;
                assert(rest[j + 1].0 == rest[j].0 + rest[j].1.len());
            } else {
                assert(data.skip(n as int).len() > 0);
                assert(w[0].1.len() == n);
            }
        }
    } else {
        assert(payloads(w) == Seq::<Seq<u8>>::empty());
    }
}

} // verus!
