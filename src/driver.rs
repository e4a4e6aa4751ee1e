//! The chip driver: command framing, status polling, the write-enable
//! handshake, and the read, program and erase engines.
use vstd::prelude::*;
use vstd::slice::slice_subrange;
use crate::bus::{
    busy_bit, busy_polls, lemma_mutations_concat, lemma_mutations_extend, mutates, command, enabled_then, guarded, guarded_run, header, latch_bit, lemma_enabled,
    lemma_guarded_compose, lemma_guarded_run_enabled, lemma_guarded_run_push, lemma_prefix_concat,
    lemma_prefix_push, lemma_prefix_trans, mutations_enabled, ready_polls, status_poll, zeros,
    SelectLine, Transceiver, Txn,
};
use crate::layout::{
    erase_units, greedy_op, unit_size, write_pieces, chunk_len, CMD_BLOCK32_ERASE,
    CMD_BLOCK64_ERASE, CMD_CHIP_ERASE, CMD_ENABLE_RESET, CMD_FAST_READ, CMD_IDENTIFY,
    CMD_PAGE_PROGRAM, CMD_READ_DATA, CMD_READ_STATUS1, CMD_READ_STATUS2, CMD_RESET,
    CMD_SECTOR_ERASE, CMD_WRITE_ENABLE, DEVICE_ID, MANUFACTURER_ID, PAGE_SIZE, SECTOR_SIZE,
    BLOCK32_SIZE, BLOCK64_SIZE, STATUS_BUSY, STATUS_WRITE_ENABLE,
};

verus! {

/// Why an operation failed.
#[derive(Debug, Clone, Copy, PartialEq, Eq, Structural)]
pub enum Error {
    /// Identification returned other bytes than the expected manufacturer and device codes.
    IdMismatch,
    /// A status register other than 1 or 2 was asked for.
    InvalidRegister,
    /// An erase range that does not start and end on a sector boundary.
    Misaligned,
    /// A range that runs past the end of the 32-bit address space.
    OutOfRange,
    /// An empty buffer, or a program payload over one page.
    InvalidSize,
    /// The write-enable latch did not read back as set.
    WriteEnable,
    /// The transceiver failed to write or read.
    Bus,
    /// The busy bit stayed set for the whole poll budget.
    Timeout,
}

/// Status polls a busy wait makes before it gives up, unless set otherwise.
pub const DEFAULT_POLL_LIMIT: u32 = 1000000;

/// What a transaction received, given how it ended.
pub open spec fn received_of(r: Result<Vec<u8>, Error>) -> Seq<u8> {
    match r {
        Ok(v) => v@,
        Err(_) => seq![],
    }
}

/// The status-register opcode for register `reg` (1 or 2).
pub open spec fn status_opcode(reg: u8) -> u8 {
    if reg == 1 {
        CMD_READ_STATUS1
    } else {
        CMD_READ_STATUS2
    }
}

/// The identification bytes of the supported chip.
pub open spec fn expected_id() -> Seq<u8> {
    seq![MANUFACTURER_ID, DEVICE_ID]
}

/// The frames of the erase commands that clear `len` bytes from `address`.
pub open spec fn erase_frames(address: u32, len: nat) -> Seq<Seq<u8>> {
    erase_units(address as nat, len).map_values(|u: (u8, nat)| header(u.0, u.1 as u32))
}

/// The frames of the page-program commands that write `data` from `address`.
pub open spec fn program_frames(address: u32, data: Seq<u8>) -> Seq<Seq<u8>> {
    write_pieces(address as nat, data).map_values(
        |p: (nat, Seq<u8>)| header(CMD_PAGE_PROGRAM, p.0 as u32) + p.1,
    )
}

/// Status polls a busy wait makes at most: the limit, and at least one.
pub open spec fn poll_budget(limit: u32) -> nat {
    if limit == 0 {
        1
    } else {
        limit as nat
    }
}

/// What the transactions `seg` of a failed operation end with, for the
/// failures that the chip or the bus cause: a transaction that failed on
/// the bus; a whole poll budget of busy reads; or the write-enable command
/// followed by a status read with the latch clear. No other error issues
/// anything.
pub open spec fn shows_failure(seg: Seq<Txn>, e: Error, limit: u32) -> bool {
    match e {
        Error::Bus => seg.len() >= 1 && !seg.last().ok,
        Error::Timeout => seg.len() >= poll_budget(limit) && busy_polls(
            seg.skip(seg.len() - poll_budget(limit)),
        ),
        Error::WriteEnable => seg.len() >= 2 && seg[seg.len() - 2] == command(
            seq![CMD_WRITE_ENABLE],
        ) && status_poll(seg.last()) && !latch_bit(seg.last().received[0]),
        _ => seg.len() == 0,
    }
}

/// The failure evidence at the end of the later part of a log is also at
/// the end of any longer tail of it.
proof fn lemma_shows_failure_extend(a: Seq<Txn>, b: Seq<Txn>, c: Seq<Txn>, e: Error, limit: u32)
    requires
        a.is_prefix_of(b),
        b.is_prefix_of(c),
        e == Error::Bus || e == Error::Timeout || e == Error::WriteEnable,
        shows_failure(c.skip(b.len() as int), e, limit),
    ensures
        shows_failure(c.skip(a.len() as int), e, limit),
{
    let s1 = c.skip(a.len() as int);
    let s2 = c.skip(b.len() as int);
    assert(s1.len() == s2.len() + (b.len() - a.len()));
    assert(s1.last() == s2.last());
    if e == Error::Timeout {
        let p = poll_budget(limit) as int;
        assert(s1.skip(s1.len() - p) == s2.skip(s2.len() - p));
    }
    if e == Error::WriteEnable {
        assert(s1[s1.len() - 2] == s2[s2.len() - 2]);
    }
}

/// The chip behaved during `seg`: every transaction succeeded, no poll
/// budget of consecutive status reads all found the chip busy, and every
/// status read right after the write-enable command found the latch set.
pub open spec fn chip_behaved(seg: Seq<Txn>, limit: u32) -> bool {
    &&& forall|j: int| 0 <= j < seg.len() ==> (#[trigger] seg[j]).ok
    &&& forall|i: int|
        0 <= i && i + poll_budget(limit) <= seg.len() ==> !busy_polls(
            #[trigger] seg.subrange(i, i + poll_budget(limit)),
        )
    &&& forall|j: int|
        1 <= j < seg.len() && seg[j - 1] == command(seq![CMD_WRITE_ENABLE]) && status_poll(
            #[trigger] seg[j],
        ) ==> latch_bit(seg[j].received[0])
}

/// When the chip behaves, none of the failures it or the bus can cause shows
/// in the log; so every operation whose errors all come with such evidence
/// (`busy_wait`'s callers: `write`, `erase`, `chip_erase`, `init`) succeeds
/// on a well-behaved chip, apart from the argument errors its contract names.
pub proof fn lemma_behaved_chip_shows_no_failure(seg: Seq<Txn>, e: Error, limit: u32)
    requires
        chip_behaved(seg, limit),
        e == Error::Bus || e == Error::Timeout || e == Error::WriteEnable,
    ensures
        !shows_failure(seg, e, limit),
{
    if shows_failure(seg, e, limit) {
        if e == Error::Bus {
            assert(seg[seg.len() - 1].ok);
        } else if e == Error::Timeout {
            let p = poll_budget(limit) as int;
            assert(seg.skip(seg.len() - p) == seg.subrange(seg.len() - p, seg.len() as int));
            assert(!busy_polls(seg.subrange(seg.len() - p, (seg.len() - p) + p)));
        } else {
            assert(latch_bit(seg[seg.len() - 1].received[0]));
        }
    }
}

/// Nothing in `ts` programs or erases.
pub open spec fn quiet(ts: Seq<Txn>) -> bool {
    forall|j: int| 0 <= j < ts.len() ==> !mutates(#[trigger] ts[j])
}

/// The only transaction in `ts` that programs or erases, if any, is the last
/// one, and what it sent is the start of `cmd`.
pub open spec fn attempt_only(ts: Seq<Txn>, cmd: Seq<u8>) -> bool {
    forall|j: int|
        0 <= j < ts.len() && mutates(#[trigger] ts[j]) ==> j == ts.len() - 1
            && ts[j].sent.is_prefix_of(cmd)
}

/// `seg` is a run toward `cmds` that stopped early: some first `k` commands
/// went through guarded, and after them nothing programs or erases except,
/// as the very last transaction, an attempt at command `k`.
pub open spec fn stopped_run(seg: Seq<Txn>, cmds: Seq<Seq<u8>>) -> bool {
    exists|k: int, m: int|
        #![trigger guarded_run(seg.take(m), cmds.take(k))]
        0 <= k < cmds.len() && 0 <= m <= seg.len() && guarded_run(seg.take(m), cmds.take(k))
            && attempt_only(seg.skip(m), cmds[k])
}

/// A quiet stretch followed by one attempt is still one attempt.
proof fn lemma_attempt_after_quiet(a: Seq<Txn>, b: Seq<Txn>, c: Seq<Txn>, cmd: Seq<u8>)
    requires
        a.is_prefix_of(b),
        b.is_prefix_of(c),
        quiet(b.skip(a.len() as int)),
        attempt_only(c.skip(b.len() as int), cmd),
    ensures
        attempt_only(c.skip(a.len() as int), cmd),
{
    let x = b.skip(a.len() as int);
    let y = c.skip(b.len() as int);
    let t = c.skip(a.len() as int);
    assert(t == x + y);
    assert forall|j: int| 0 <= j < t.len() && mutates(#[trigger] t[j]) implies j == t.len() - 1
        && t[j].sent.is_prefix_of(cmd) by {
        if j < x.len() {
            assert(t[j] == x[j]);
        } else {
            assert(t[j] == y[j - x.len()]);
        }
    }
}

/// A run that failed during command `done.len()` of `frames` stopped early.
proof fn lemma_stopped(
    start: Seq<Txn>,
    segs: Seq<Seq<Txn>>,
    done: Seq<Seq<u8>>,
    frames: Seq<Seq<u8>>,
    mid: Seq<Txn>,
    last: Seq<Txn>,
)
    requires
        mid == start + segs.flatten(),
        segs.len() == done.len(),
        forall|i: int| 0 <= i < segs.len() ==> guarded(#[trigger] segs[i], done[i]),
        done.len() < frames.len(),
        done == frames.take(done.len() as int),
        mid.is_prefix_of(last),
        attempt_only(last.skip(mid.len() as int), frames[done.len() as int]),
    ensures
        stopped_run(last.skip(start.len() as int), frames),
{
    let seg = last.skip(start.len() as int);
    let k = done.len() as int;
    let m = segs.flatten().len() as int;
    assert forall|i: int| 0 <= i < m implies #[trigger] seg.take(m)[i] == segs.flatten()[i] by {
        assert(mid[start.len() + i] == last.subrange(0, mid.len() as int)[start.len() + i]);
    }
    assert(seg.take(m) =~= segs.flatten());
    assert(seg.skip(m) == last.skip(mid.len() as int));
    assert(guarded_run(seg.take(m), frames.take(k)));
}

/// Checks the two identification bytes against the supported chip.
pub fn check_identification(id: &[u8]) -> (r: Result<(), Error>)
    ensures
        r is Ok <==> id@ == expected_id(),
        r is Err ==> r == Err::<(), Error>(Error::IdMismatch),
{
    if id.len() != 2 || id[0] != MANUFACTURER_ID || id[1] != DEVICE_ID {
        assert(id@.len() != 2 || id@[0] != MANUFACTURER_ID || id@[1] != DEVICE_ID);
        return Err(Error::IdMismatch);
    }
    assert(id@ == expected_id());
    Ok(())
}

/// A W25Qxx flash chip, driven through a transceiver and a chip-select line
/// that it owns.
pub struct W25qxx<S, C> {
    spi: S,
    cs: C,
    poll_limit: u32,
    log: Ghost<Seq<Txn>>,
    released_at_start: Ghost<bool>,
    waits: Ghost<nat>,
}

impl<S, C> W25qxx<S, C> {
    /// Whether the select line was released when the driver was made, and
    /// after every transaction since, whatever path the transaction took.
    pub closed spec fn line_released(&self) -> bool {
        &&& self.released_at_start@
        &&& forall|j: int| 0 <= j < self.log@.len() ==> (#[trigger] self.log@[j]).released
    }

    /// How many poll intervals the driver has waited.
    pub closed spec fn waits(&self) -> nat {
        self.waits@
    }
}

impl<S: Transceiver, C: SelectLine> W25qxx<S, C> {
    /// Every transaction this driver has issued, oldest first.
    pub closed spec fn transactions(&self) -> Seq<Txn> {
        self.log@
    }

    /// Status polls a busy wait makes before it reports a timeout.
    pub closed spec fn poll_limit(&self) -> u32 {
        self.poll_limit
    }

    /// Takes the transceiver and the select line, and releases the chip
    /// before anything else.
    pub fn new(spi: S, cs: C) -> (r: Result<Self, Error>)
        ensures
            r matches Ok(f) && f.transactions() == Seq::<Txn>::empty() && f.poll_limit()
                == DEFAULT_POLL_LIMIT && f.line_released() && f.waits() == 0,
    {
        let mut cs = cs;
        cs.set_high();
        let log: Ghost<Seq<Txn>> = Ghost(Seq::empty());
        let flash = W25qxx {
            spi,
            cs,
            poll_limit: DEFAULT_POLL_LIMIT,
            log,
            released_at_start: Ghost(true),
            waits: Ghost(0),
        };
        Ok(flash)
    }

    /// Sets how many status polls a busy wait makes before it gives up.
    pub fn set_poll_limit(&mut self, limit: u32)
        ensures
            final(self).poll_limit() == limit,
            old(self).line_released() ==> final(self).line_released(),
            final(self).transactions() == old(self).transactions(),
            final(self).waits() == old(self).waits(),
    {
        self.poll_limit = limit;
    }

    /// One transaction: `op` and `address`, then `payload` if the header went
    /// out and the payload is not empty. The chip is released on every path.
    fn transmit(&mut self, op: u8, address: u32, payload: &[u8]) -> (r: Result<(), Error>)
        ensures
            final(self).transactions() == old(self).transactions().push(
                final(self).transactions().last(),
            ),
            final(self).transactions().last().ok == r is Ok,
            final(self).transactions().last().received == Seq::<u8>::empty(),
            r is Ok ==> final(self).transactions().last().sent == header(op, address) + payload@,
            r is Ok ==> final(self).transactions().last().delivered == header(op, address)
                + payload@,
            r is Err ==> (final(self).transactions().last().sent == header(op, address)
                && final(self).transactions().last().delivered == Seq::<u8>::empty()) || (
            payload@.len() > 0 && final(self).transactions().last().sent == header(op, address)
                + payload@ && final(self).transactions().last().delivered == header(op, address)),
            final(self).transactions().last().released,
            final(self).poll_limit() == old(self).poll_limit(),
            old(self).line_released() ==> final(self).line_released(),
            final(self).waits() == old(self).waits(),
            r is Err ==> r == Err::<(), Error>(Error::Bus),
    {
        let tx: [u8; 4] = [
            op,
            ((address >> 16u32) & 0xffu32) as u8,
            ((address >> 8u32) & 0xffu32) as u8,
            (address & 0xffu32) as u8,
        ];
        assert(tx@ == header(op, address));
        let ghost mut sent = tx@;
        let ghost mut delivered = Seq::<u8>::empty();
        self.cs.set_low();
        let mut ok = self.spi.write(&tx).is_ok();
        proof {
            if ok {
                delivered = tx@;
            }
        }
        if ok && payload.len() > 0 {
            ok = self.spi.write(payload).is_ok();
            proof {
                sent = sent + payload@;
                if ok {
                    delivered = sent;
                }
            }
        }
        proof {
            if payload@.len() == 0 {
                assert(sent + payload@ == sent);
            }
        }
        self.cs.set_high();
        let ghost released = true;
        self.log = Ghost(self.log@.push(Txn { sent, delivered, received: seq![], ok, released }));
        proof {
            if old(self).line_released() {
                assert forall|j: int| 0 <= j < self.log@.len() implies (
                #[trigger] self.log@[j]).released by {
                    if j < self.log@.len() - 1 {
                        assert(self.log@[j] == old(self).log@[j]);
                    }
                }
            }
        }
        if ok {
            Ok(())
        } else {
            Err(Error::Bus)
        }
    }

    /// One transaction: `tx`, then `dummy` zero bytes, then `rx_len` bytes
    /// read back. It stops at the first failure; the chip is released on
    /// every path.
    fn transmit_and_receive(&mut self, tx: &[u8], rx_len: usize, dummy: usize) -> (r: Result<
        Vec<u8>,
        Error,
    >)
        ensures
            final(self).transactions() == old(self).transactions().push(
                final(self).transactions().last(),
            ),
            final(self).transactions().last().ok == r is Ok,
            final(self).transactions().last().received == received_of(r),
            r is Ok ==> final(self).transactions().last().sent == tx@ + zeros(dummy as nat),
            r is Err ==> final(self).transactions().last().sent == tx@ || final(self).transactions().last().sent == tx@ + zeros(dummy as nat),
            final(self).transactions().last().delivered.is_prefix_of(
                final(self).transactions().last().sent,
            ),
            r is Ok ==> final(self).transactions().last().delivered == tx@ + zeros(dummy as nat),
            r is Err ==> ({
                let t = final(self).transactions().last();
                ||| t.sent == tx@ && (t.delivered == Seq::<u8>::empty() || t.delivered == tx@)
                ||| dummy > 0 && t.sent == tx@ + zeros(dummy as nat) && (t.delivered == tx@
                    || t.delivered == t.sent)
            }),
            final(self).transactions().last().released,
            final(self).poll_limit() == old(self).poll_limit(),
            old(self).line_released() ==> final(self).line_released(),
            final(self).waits() == old(self).waits(),
            r matches Ok(v) ==> v@.len() == rx_len,
            r is Err ==> r == Err::<Vec<u8>, Error>(Error::Bus),
    {
        let ghost mut sent = tx@;
        let ghost mut delivered = Seq::<u8>::empty();
        self.cs.set_low();
        let mut ok = true;
        if tx.len() > 0 {
            ok = self.spi.write(tx).is_ok();
        }
        proof {
            if ok {
                delivered = tx@;
            }
        }
        if ok && dummy > 0 {
            let mut pad: Vec<u8> = Vec::new();
            while pad.len() < dummy
                invariant
                    pad.len() <= dummy,
                    pad@ == zeros(pad.len() as nat),
                decreases dummy - pad.len(),
            {
                pad.push(0u8);
                assert(pad@ == zeros(pad.len() as nat));
            }
            ok = self.spi.write(pad.as_slice()).is_ok();
            proof {
                sent = tx@ + zeros(dummy as nat);
                if ok {
                    delivered = sent;
                }
            }
        }
        proof {
            if dummy == 0 {
                assert(tx@ + zeros(0) == tx@);
            }
        }
        let mut data: Vec<u8> = Vec::new();
        if ok && rx_len > 0 {
            match self.spi.read(rx_len) {
                Ok(v) => {
                    if v.len() == rx_len {
                        data = v;
                    } else {
                        ok = false;
                    }
                },
                Err(_) => {
                    ok = false;
                },
            }
        }
        self.cs.set_high();
        let r = if ok {
            Ok(data)
        } else {
            Err(Error::Bus)
        };
        let ghost released = true;
        proof {
            assert(delivered =~= sent.subrange(0, delivered.len() as int));
        }
        self.log = Ghost(
            self.log@.push(Txn { sent, delivered, received: received_of(r), ok, released }),
        );
        proof {
            if old(self).line_released() {
                assert forall|j: int| 0 <= j < self.log@.len() implies (
                #[trigger] self.log@[j]).released by {
                    if j < self.log@.len() - 1 {
                        assert(self.log@[j] == old(self).log@[j]);
                    }
                }
            }
        }
        r
    }

    /// Reads status register `reg`, which must be 1 or 2.
    fn read_status_register(&mut self, reg: u8) -> (r: Result<u8, Error>)
        ensures
            reg != 1 && reg != 2 ==> r == Err::<u8, Error>(Error::InvalidRegister)
                && final(self).transactions() == old(self).transactions(),
            reg == 1 || reg == 2 ==> {
                &&& final(self).transactions() == old(self).transactions().push(
                    final(self).transactions().last(),
                )
                &&& final(self).transactions().last().sent == seq![status_opcode(reg)]
                &&& final(self).transactions().last().ok == r is Ok
                &&& r matches Ok(s) ==> final(self).transactions().last().received == seq![s]
                &&& r is Err ==> r == Err::<u8, Error>(Error::Bus)
            },
            final(self).waits() == old(self).waits(),
            final(self).poll_limit() == old(self).poll_limit(),
            old(self).line_released() ==> final(self).line_released(),
    {
        let op: u8;
        if reg == 1 {
            op = CMD_READ_STATUS1;
        } else if reg == 2 {
            op = CMD_READ_STATUS2;
        } else {
            return Err(Error::InvalidRegister);
        }
        let tx: [u8; 1] = [op];
        assert(tx@ + zeros(0) == seq![op]);
        assert(tx@ == seq![op]);
        let rx = self.transmit_and_receive(&tx, 1, 0)?;
        assert(rx@ == seq![rx@[0]]);
        Ok(rx[0])
    }

    /// Whether the chip is busy with a program or erase.
    fn is_busy(&mut self) -> (r: Result<bool, Error>)
        ensures
            final(self).transactions() == old(self).transactions().push(
                final(self).transactions().last(),
            ),
            final(self).transactions().last().sent == seq![CMD_READ_STATUS1],
            final(self).transactions().last().ok == r is Ok,
            r matches Ok(b) ==> status_poll(final(self).transactions().last()) && b == busy_bit(
                final(self).transactions().last().received[0],
            ),
            r is Err ==> r == Err::<bool, Error>(Error::Bus),
            final(self).waits() == old(self).waits(),
            final(self).poll_limit() == old(self).poll_limit(),
            old(self).line_released() ==> final(self).line_released(),
    {
        let s = self.read_status_register(1)?;
        Ok((s & STATUS_BUSY) != 0)
    }

    /// Polls the busy bit until it reads clear, waiting one poll interval
    /// after each read that finds the chip busy; gives up after the poll
    /// limit.
    fn busy_wait(&mut self) -> (r: Result<(), Error>)
        ensures
            old(self).transactions().is_prefix_of(final(self).transactions()),
            r is Ok ==> ready_polls(
                final(self).transactions().skip(old(self).transactions().len() as int),
            ),
            r == Err::<(), Error>(Error::Timeout) ==> final(self).transactions().skip(
                old(self).transactions().len() as int,
            ).len() == poll_budget(old(self).poll_limit()) && busy_polls(
                final(self).transactions().skip(old(self).transactions().len() as int),
            ),
            r == Err::<(), Error>(Error::Bus) ==> {
                let seg = final(self).transactions().skip(old(self).transactions().len() as int);
                &&& seg.len() >= 1
                &&& busy_polls(seg.drop_last())
                &&& seg.last().sent == seq![CMD_READ_STATUS1]
                &&& !seg.last().ok
            },
            r matches Err(e) ==> (e == Error::Bus || e == Error::Timeout) && shows_failure(
                final(self).transactions().skip(old(self).transactions().len() as int),
                e,
                old(self).poll_limit(),
            ),
            mutations_enabled(final(self).transactions().skip(old(self).transactions().len() as int)),
            final(self).waits() == old(self).waits() + final(self).transactions().skip(
                old(self).transactions().len() as int,
            ).len() - 1,
            quiet(final(self).transactions().skip(old(self).transactions().len() as int)),
            final(self).poll_limit() == old(self).poll_limit(),
            old(self).line_released() ==> final(self).line_released(),
    {
        let ghost start = self.log@;
        let mut polls: u32 = 0;
        loop
            invariant
                start == old(self).log@,
                start.is_prefix_of(self.log@),
                polls < u32::MAX,
                polls < poll_budget(self.poll_limit),
                self.log@.len() == start.len() + polls,
                self.waits@ == old(self).waits@ + polls,
                busy_polls(self.log@.skip(start.len() as int)),
                self.poll_limit == old(self).poll_limit,
                old(self).line_released() ==> self.line_released(),
            decreases u32::MAX - polls,
        {
            let ghost prev = self.log@;
            let busy = self.is_busy();
            proof {
                lemma_prefix_push(prev, self.log@.last());
                lemma_prefix_trans(start, prev, self.log@);
                let seg = self.log@.skip(start.len() as int);
                assert(seg.drop_last() == prev.skip(start.len() as int));
                assert(seg.last() == self.log@.last());
                assert forall|j: int| 0 <= j < seg.len() implies !mutates(#[trigger] seg[j]) by {
                    if j < seg.len() - 1 {
                        assert(seg[j] == seg.drop_last()[j]);
                    }
                }
            }
            let busy = busy?;
            if !busy {
                let ghost seg = self.log@.skip(start.len() as int);
                assert forall|i: int| 0 <= i < seg.len() implies status_poll(#[trigger] seg[i])
                    && (busy_bit(seg[i].received[0]) <==> i < seg.len() - 1) by {
                    if i < seg.len() - 1 {
                        assert(seg[i] == seg.drop_last()[i]);
                    }
                }
                return Ok(());
            }
            proof {
                let seg = self.log@.skip(start.len() as int);
                assert forall|i: int| 0 <= i < seg.len() implies status_poll(#[trigger] seg[i])
                    && busy_bit(seg[i].received[0]) by {
                    if i < seg.len() - 1 {
                        assert(seg[i] == seg.drop_last()[i]);
                    }
                }
            }
            polls = polls + 1;
            if polls >= self.poll_limit || polls == u32::MAX {
                proof {
                    let seg = self.log@.skip(start.len() as int);
                    assert(seg.skip(seg.len() - poll_budget(self.poll_limit)) == seg);
                }
                return Err(Error::Timeout);
            }
            self.spi.wait_poll_interval();
            self.waits = Ghost(self.waits@ + 1);
        }
    }

    /// Whether the write-enable latch is set.
    fn is_write_enable(&mut self) -> (r: Result<bool, Error>)
        ensures
            final(self).transactions() == old(self).transactions().push(
                final(self).transactions().last(),
            ),
            final(self).transactions().last().sent == seq![CMD_READ_STATUS1],
            final(self).transactions().last().ok == r is Ok,
            r matches Ok(b) ==> status_poll(final(self).transactions().last()) && b == latch_bit(
                final(self).transactions().last().received[0],
            ),
            r is Err ==> r == Err::<bool, Error>(Error::Bus),
            final(self).poll_limit() == old(self).poll_limit(),
            old(self).line_released() ==> final(self).line_released(),
    {
        let s = self.read_status_register(1)?;
        Ok((s & STATUS_WRITE_ENABLE) != 0)
    }

    /// Sends write-enable, then reads the latch back; fails unless it is set.
    fn write_enable(&mut self) -> (r: Result<(), Error>)
        ensures
            old(self).transactions().is_prefix_of(final(self).transactions()),
            ({
                let seg = final(self).transactions().skip(old(self).transactions().len() as int);
                &&& 1 <= seg.len() <= 2
                &&& seg[0].sent == seq![CMD_WRITE_ENABLE]
                &&& seg[0].received == Seq::<u8>::empty()
                &&& seg.len() == 2 ==> seg[0] == command(seq![CMD_WRITE_ENABLE]) && seg[1].sent
                    == seq![CMD_READ_STATUS1]
                &&& r is Ok ==> seg.len() == 2 && status_poll(seg[1]) && latch_bit(
                    seg[1].received[0],
                )
                &&& r == Err::<(), Error>(Error::WriteEnable) <==> seg.len() == 2 && status_poll(
                    seg[1],
                ) && !latch_bit(seg[1].received[0])
                &&& r == Err::<(), Error>(Error::Bus) <==> !seg.last().ok
                &&& mutations_enabled(seg)
                &&& quiet(seg)
            }),
            r matches Err(e) ==> (e == Error::Bus || e == Error::WriteEnable) && shows_failure(
                final(self).transactions().skip(old(self).transactions().len() as int),
                e,
                old(self).poll_limit(),
            ),
            final(self).poll_limit() == old(self).poll_limit(),
            old(self).line_released() ==> final(self).line_released(),
    {
        let tx: [u8; 1] = [CMD_WRITE_ENABLE];
        assert(tx@ + zeros(0) == seq![CMD_WRITE_ENABLE]);
        assert(tx@ == seq![CMD_WRITE_ENABLE]);
        let ghost before = self.log@;
        let sent = self.transmit_and_receive(&tx, 0, 0);
        proof {
            lemma_prefix_push(before, self.log@.last());
            let seg = self.log@.skip(before.len() as int);
            assert(seg == seq![self.log@.last()]);
            assert(received_of(sent) =~= Seq::<u8>::empty());
        }
        let sent = sent?;
        let ghost mid = self.log@;
        let set = self.is_write_enable();
        proof {
            lemma_prefix_push(mid, self.log@.last());
            lemma_prefix_trans(before, mid, self.log@);
            let seg = self.log@.skip(before.len() as int);
            assert(seg == seq![mid.last(), self.log@.last()]);
            assert(seg[0] == command(seq![CMD_WRITE_ENABLE]));
        }
        let set = set?;
        if !set {
            return Err(Error::WriteEnable);
        }
        Ok(())
    }

    /// The write-enable handshake, then one transaction of `op`, `address`
    /// and `payload`.
    fn enable_and_transmit(&mut self, op: u8, address: u32, payload: &[u8]) -> (r: Result<
        (),
        Error,
    >)
        ensures
            old(self).transactions().is_prefix_of(final(self).transactions()),
            r is Ok ==> enabled_then(
                final(self).transactions().skip(old(self).transactions().len() as int),
                header(op, address) + payload@,
            ),
            r == Err::<(), Error>(Error::WriteEnable) ==> final(self).transactions().len() == old(self).transactions().len() + 2,
            r matches Err(e) ==> (e == Error::Bus || e == Error::WriteEnable) && shows_failure(
                final(self).transactions().skip(old(self).transactions().len() as int),
                e,
                old(self).poll_limit(),
            ),
            mutations_enabled(final(self).transactions().skip(old(self).transactions().len() as int)),
            attempt_only(
                final(self).transactions().skip(old(self).transactions().len() as int),
                header(op, address) + payload@,
            ),
            final(self).poll_limit() == old(self).poll_limit(),
            old(self).line_released() ==> final(self).line_released(),
    {
        let ghost before = self.log@;
        self.write_enable()?;
        let ghost mid = self.log@;
        let sent = self.transmit(op, address, payload);
        proof {
            lemma_prefix_push(mid, self.log@.last());
            lemma_prefix_trans(before, mid, self.log@);
            let seg = self.log@.skip(before.len() as int);
            let m = mid.skip(before.len() as int);
            assert(seg == m.push(self.log@.last()));
            assert(seg[0] == m[0]);
            assert(seg[1] == m[1]);
            assert(seg[0] == command(seq![CMD_WRITE_ENABLE]));
            if sent is Ok {
                assert(seg[2] == command(header(op, address) + payload@));
            }
            assert(seg.last() == self.log@.last());
            assert(header(op, address).is_prefix_of(header(op, address) + payload@));
            assert forall|j: int| 0 <= j < seg.len() && mutates(#[trigger] seg[j]) implies j
                == seg.len() - 1 && seg[j].sent.is_prefix_of(header(op, address) + payload@) by {
                if j < seg.len() - 1 {
                    assert(seg[j] == m[j]);
                }
            }
        }
        sent
    }

    /// Programs `data`, 1 to 256 bytes, at `address` after the write-enable handshake.
    fn page_program(&mut self, address: u32, data: &[u8]) -> (r: Result<(), Error>)
        ensures
            data@.len() == 0 || data@.len() > 256 ==> r == Err::<(), Error>(Error::InvalidSize)
                && final(self).transactions() == old(self).transactions(),
            old(self).transactions().is_prefix_of(final(self).transactions()),
            r is Ok ==> enabled_then(
                final(self).transactions().skip(old(self).transactions().len() as int),
                header(CMD_PAGE_PROGRAM, address) + data@,
            ),
            r == Err::<(), Error>(Error::WriteEnable) ==> final(self).transactions().len() == old(self).transactions().len() + 2,
            r matches Err(e) ==> (e == Error::InvalidSize && (data@.len() == 0 || data@.len()
                > 256)) || ((e == Error::Bus || e == Error::WriteEnable) && shows_failure(
                final(self).transactions().skip(old(self).transactions().len() as int),
                e,
                old(self).poll_limit(),
            )),
            mutations_enabled(final(self).transactions().skip(old(self).transactions().len() as int)),
            attempt_only(
                final(self).transactions().skip(old(self).transactions().len() as int),
                header(CMD_PAGE_PROGRAM, address) + data@,
            ),
            final(self).poll_limit() == old(self).poll_limit(),
            old(self).line_released() ==> final(self).line_released(),
    {
        if data.len() == 0 || data.len() > PAGE_SIZE {
            proof {
                lemma_prefix_concat(self.log@, seq![]);
                assert(self.log@ + seq![] == self.log@);
            }
            return Err(Error::InvalidSize);
        }
        self.enable_and_transmit(CMD_PAGE_PROGRAM, address, data)
    }

    /// Erases the unit that `op` names at `address` after the write-enable handshake.
    fn erase_cmd(&mut self, address: u32, op: u8) -> (r: Result<(), Error>)
        ensures
            old(self).transactions().is_prefix_of(final(self).transactions()),
            r is Ok ==> enabled_then(
                final(self).transactions().skip(old(self).transactions().len() as int),
                header(op, address),
            ),
            r == Err::<(), Error>(Error::WriteEnable) ==> final(self).transactions().len() == old(self).transactions().len() + 2,
            r matches Err(e) ==> (e == Error::Bus || e == Error::WriteEnable) && shows_failure(
                final(self).transactions().skip(old(self).transactions().len() as int),
                e,
                old(self).poll_limit(),
            ),
            mutations_enabled(final(self).transactions().skip(old(self).transactions().len() as int)),
            attempt_only(
                final(self).transactions().skip(old(self).transactions().len() as int),
                header(op, address),
            ),
            final(self).poll_limit() == old(self).poll_limit(),
            old(self).line_released() ==> final(self).line_released(),
    {
        let none: [u8; 0] = [];
        assert(header(op, address) + none@ == header(op, address));
        self.enable_and_transmit(op, address, &none)
    }

    /// Writes `buffer` from `address`, one page-program per page touched, each
    /// after a busy wait and the write-enable handshake. Stops at the first
    /// failure; what was programmed before it stays programmed.
    pub fn write(&mut self, address: u32, buffer: &[u8]) -> (r: Result<(), Error>)
        ensures
            address + buffer@.len() > 0x1_0000_0000 ==> r == Err::<(), Error>(Error::OutOfRange)
                && final(self).transactions() == old(self).transactions(),
            r == Err::<(), Error>(Error::OutOfRange) <==> address + buffer@.len() > 0x1_0000_0000,
            buffer@.len() == 0 ==> r == Ok::<(), Error>(()) && final(self).transactions() == old(self).transactions(),
            r matches Err(e) ==> e == Error::OutOfRange || stopped_run(
                final(self).transactions().skip(old(self).transactions().len() as int),
                program_frames(address, buffer@),
            ),
            r matches Err(e) ==> e == Error::OutOfRange || (e == Error::Bus || e == Error::WriteEnable
                || e == Error::Timeout) && shows_failure(
                final(self).transactions().skip(old(self).transactions().len() as int),
                e,
                old(self).poll_limit(),
            ),
            old(self).transactions().is_prefix_of(final(self).transactions()),
            r is Ok ==> guarded_run(
                final(self).transactions().skip(old(self).transactions().len() as int),
                program_frames(address, buffer@),
            ),
            mutations_enabled(final(self).transactions().skip(old(self).transactions().len() as int)),
            r is Err ==> r == Err::<(), Error>(Error::OutOfRange) || r == Err::<(), Error>(
                Error::Bus,
            ) || r == Err::<(), Error>(Error::WriteEnable) || r == Err::<(), Error>(
                Error::Timeout,
            ),
            final(self).poll_limit() == old(self).poll_limit(),
            old(self).line_released() ==> final(self).line_released(),
    {
        let ghost start = self.log@;
        proof {
            lemma_prefix_concat(start, seq![]);
            assert(start + seq![] == start);
        }
        if buffer.len() as u64 > 0x1_0000_0000u64 - address as u64 {
            return Err(Error::OutOfRange);
        }
        let mut offset: usize = 0;
        let mut addr: u64 = address as u64;
        let ghost mut segs: Seq<Seq<Txn>> = seq![];
        let ghost mut done: Seq<Seq<u8>> = seq![];
        assert(buffer@.skip(0) == buffer@);
        assert(segs.flatten() == Seq::<Txn>::empty());
        while offset < buffer.len()
            invariant
                start == old(self).log@,
                offset <= buffer@.len(),
                addr == address + offset,
                address + buffer@.len() <= 0x1_0000_0000,
                segs.len() == done.len(),
                self.log@ == start + segs.flatten(),
                mutations_enabled(self.log@.skip(start.len() as int)),
                forall|i: int| 0 <= i < segs.len() ==> guarded(#[trigger] segs[i], done[i]),
                done + program_frames(addr as u32, buffer@.skip(offset as int)) == program_frames(
                    address,
                    buffer@,
                ),
                self.poll_limit == old(self).poll_limit,
                old(self).line_released() ==> self.line_released(),
            decreases buffer@.len() - offset,
        {
            let room: usize = PAGE_SIZE - (addr % (PAGE_SIZE as u64)) as usize;
            let left: usize = buffer.len() - offset;
            let n: usize = if left < room {
                left
            } else {
                room
            };
            let ghost rest = buffer@.skip(offset as int);
            let ghost frames = program_frames(address, buffer@);
            let ghost next = header(CMD_PAGE_PROGRAM, addr as u32) + rest.take(n as int);
            proof {
                lemma_program_frames_unfold(addr as nat, rest);
                assert(n == chunk_len(addr as nat, rest.len()));
                lemma_prefix_concat(start, segs.flatten());
                assert(frames[done.len() as int] == next);
                assert(frames.take(done.len() as int) == done);
            }
            let ghost mid0 = self.log@;
            let waited = self.busy_wait();
            proof {
                lemma_prefix_trans(start, mid0, self.log@);
                lemma_mutations_extend(start, mid0, self.log@);
                if let Err(e) = waited {
                    lemma_shows_failure_extend(start, mid0, self.log@, e, self.poll_limit);
                    lemma_stopped(start, segs, done, frames, mid0, self.log@);
                }
            }
            waited?;
            let ghost mid1 = self.log@;
            let chunk = slice_subrange(buffer, offset, offset + n);
            assert(chunk@ == rest.take(n as int));
            assert(1 <= chunk@.len() <= 256);
            let programmed = self.page_program(addr as u32, chunk);
            proof {
                lemma_prefix_trans(mid0, mid1, self.log@);
                lemma_prefix_trans(start, mid1, self.log@);
                lemma_mutations_extend(start, mid1, self.log@);
                if let Err(e) = programmed {
                    lemma_shows_failure_extend(start, mid1, self.log@, e, self.poll_limit);
                    lemma_attempt_after_quiet(mid0, mid1, self.log@, next);
                    lemma_stopped(start, segs, done, frames, mid0, self.log@);
                }
            }
            programmed?;
            let ghost cmd = header(CMD_PAGE_PROGRAM, addr as u32) + chunk@;
            proof {
                assert(chunk@ == rest.take(n as int));
                lemma_guarded_compose(mid0, mid1, self.log@, cmd);
                lemma_guarded_run_push(start, segs, done, mid0, self.log@, cmd);
                assert(rest.skip(n as int) == buffer@.skip(offset + n));
                assert(done.push(cmd) + program_frames((addr + n) as u32, rest.skip(n as int))
                    == done + program_frames(addr as u32, rest));
                segs = segs.push(self.log@.skip(mid0.len() as int));
                done = done.push(cmd);
            }
            offset = offset + n;
            addr = addr + n as u64;
        }
        proof {
            assert(buffer@.skip(offset as int).len() == 0);
            assert(done == program_frames(address, buffer@));
            lemma_prefix_concat(start, segs.flatten());
            lemma_guarded_run_enabled(self.log@.skip(start.len() as int), done);
        }
        Ok(())
    }

    /// Erases `len` bytes from `address`, both multiples of the sector size,
    /// with the largest aligned units that fit: 64 KiB, then 32 KiB, then
    /// 4 KiB. Each erase comes after a busy wait and the write-enable
    /// handshake. A misaligned request is refused before any transaction.
    pub fn erase(&mut self, address: u32, len: usize) -> (r: Result<(), Error>)
        ensures
            address % 4096 != 0 || len % 4096 != 0 ==> r == Err::<(), Error>(Error::Misaligned)
                && final(self).transactions() == old(self).transactions(),
            address % 4096 == 0 && len % 4096 == 0 && address + len > 0x1_0000_0000 ==> r
                == Err::<(), Error>(Error::OutOfRange) && final(self).transactions() == old(self).transactions(),
            r == Err::<(), Error>(Error::Misaligned) <==> address % 4096 != 0 || len % 4096 != 0,
            r == Err::<(), Error>(Error::OutOfRange) <==> address % 4096 == 0 && len % 4096 == 0
                && address + len > 0x1_0000_0000,
            address % 4096 == 0 && len == 0 ==> r == Ok::<(), Error>(()) && final(self).transactions()
                == old(self).transactions(),
            r matches Err(e) ==> e == Error::Misaligned || e == Error::OutOfRange || stopped_run(
                final(self).transactions().skip(old(self).transactions().len() as int),
                erase_frames(address, len as nat),
            ),
            r matches Err(e) ==> e == Error::Misaligned || e == Error::OutOfRange || (e == Error::Bus
                || e == Error::WriteEnable || e == Error::Timeout) && shows_failure(
                final(self).transactions().skip(old(self).transactions().len() as int),
                e,
                old(self).poll_limit(),
            ),
            old(self).transactions().is_prefix_of(final(self).transactions()),
            r is Ok ==> guarded_run(
                final(self).transactions().skip(old(self).transactions().len() as int),
                erase_frames(address, len as nat),
            ),
            mutations_enabled(final(self).transactions().skip(old(self).transactions().len() as int)),
            r is Err ==> r == Err::<(), Error>(Error::Misaligned) || r == Err::<(), Error>(
                Error::OutOfRange,
            ) || r == Err::<(), Error>(Error::Bus) || r == Err::<(), Error>(Error::WriteEnable)
                || r == Err::<(), Error>(Error::Timeout),
            final(self).poll_limit() == old(self).poll_limit(),
            old(self).line_released() ==> final(self).line_released(),
    {
        let ghost start = self.log@;
        proof {
            lemma_prefix_concat(start, seq![]);
            assert(start + seq![] == start);
        }
        if address % (SECTOR_SIZE as u32) != 0 || len % SECTOR_SIZE != 0 {
            return Err(Error::Misaligned);
        }
        if len as u64 > 0x1_0000_0000u64 - address as u64 {
            return Err(Error::OutOfRange);
        }
        let mut size: usize = len;
        let mut addr: u64 = address as u64;
        let ghost mut segs: Seq<Seq<Txn>> = seq![];
        let ghost mut done: Seq<Seq<u8>> = seq![];
        assert(segs.flatten() == Seq::<Txn>::empty());
        while size > 0
            invariant
                start == old(self).log@,
                address % 4096 == 0,
                len % 4096 == 0,
                addr % 4096 == 0,
                size % 4096 == 0,
                addr + size == address + len,
                address + len <= 0x1_0000_0000,
                segs.len() == done.len(),
                self.log@ == start + segs.flatten(),
                mutations_enabled(self.log@.skip(start.len() as int)),
                forall|i: int| 0 <= i < segs.len() ==> guarded(#[trigger] segs[i], done[i]),
                done + erase_frames(addr as u32, size as nat) == erase_frames(address, len as nat),
                self.poll_limit == old(self).poll_limit,
                old(self).line_released() ==> self.line_released(),
            decreases size,
        {
            let op: u8;
            let step: usize;
            if addr % (BLOCK64_SIZE as u64) == 0 && size >= BLOCK64_SIZE {
                op = CMD_BLOCK64_ERASE;
                step = BLOCK64_SIZE;
            } else if addr % (BLOCK32_SIZE as u64) == 0 && size >= BLOCK32_SIZE {
                op = CMD_BLOCK32_ERASE;
                step = BLOCK32_SIZE;
            } else {
                op = CMD_SECTOR_ERASE;
                step = SECTOR_SIZE;
            }
            proof {
                assert(op == greedy_op(addr as nat, size as nat));
                assert(step == unit_size(op));
                lemma_erase_frames_unfold(addr as nat, size as nat);
                lemma_prefix_concat(start, segs.flatten());
            }
            let ghost frames = erase_frames(address, len as nat);
            let ghost next = header(op, addr as u32);
            proof {
                assert(frames[done.len() as int] == next);
                assert(frames.take(done.len() as int) == done);
            }
            let ghost mid0 = self.log@;
            let waited = self.busy_wait();
            proof {
                lemma_prefix_trans(start, mid0, self.log@);
                lemma_mutations_extend(start, mid0, self.log@);
                if let Err(e) = waited {
                    lemma_shows_failure_extend(start, mid0, self.log@, e, self.poll_limit);
                    lemma_stopped(start, segs, done, frames, mid0, self.log@);
                }
            }
            waited?;
            let ghost mid1 = self.log@;
            let erased = self.erase_cmd(addr as u32, op);
            proof {
                lemma_prefix_trans(mid0, mid1, self.log@);
                lemma_prefix_trans(start, mid1, self.log@);
                lemma_mutations_extend(start, mid1, self.log@);
                if let Err(e) = erased {
                    lemma_shows_failure_extend(start, mid1, self.log@, e, self.poll_limit);
                    lemma_attempt_after_quiet(mid0, mid1, self.log@, next);
                    lemma_stopped(start, segs, done, frames, mid0, self.log@);
                }
            }
            erased?;
            let ghost cmd = header(op, addr as u32);
            proof {
                lemma_guarded_compose(mid0, mid1, self.log@, cmd);
                lemma_guarded_run_push(start, segs, done, mid0, self.log@, cmd);
                assert(done.push(cmd) + erase_frames((addr + step) as u32, (size - step) as nat)
                    == done + erase_frames(addr as u32, size as nat));
                segs = segs.push(self.log@.skip(mid0.len() as int));
                done = done.push(cmd);
            }
            size = size - step;
            addr = addr + step as u64;
        }
        proof {
            assert(done == erase_frames(address, len as nat));
            lemma_prefix_concat(start, segs.flatten());
            lemma_guarded_run_enabled(self.log@.skip(start.len() as int), done);
        }
        Ok(())
    }

    /// One read transaction: `op` and `address`, `dummy` zero bytes, then as
    /// many bytes as `buffer` holds, copied into it.
    fn read_into(&mut self, op: u8, dummy: usize, address: u32, buffer: &mut [u8]) -> (r: Result<
        (),
        Error,
    >)
        ensures
            old(buffer)@.len() == 0 ==> r == Err::<(), Error>(Error::InvalidSize)
                && final(self).transactions() == old(self).transactions(),
            old(buffer)@.len() > 0 ==> final(self).transactions() == old(self).transactions().push(
                final(self).transactions().last(),
            ),
            old(buffer)@.len() > 0 ==> final(self).transactions().last().ok == r is Ok,
            r is Ok ==> final(self).transactions().last() == (Txn {
                sent: header(op, address) + zeros(dummy as nat),
                delivered: header(op, address) + zeros(dummy as nat),
                received: final(buffer)@,
                ok: true,
                released: true,
            }),
            r == Err::<(), Error>(Error::Bus) ==> final(self).transactions().last().received
                == Seq::<u8>::empty() && (final(self).transactions().last().sent == header(op, address)
                || final(self).transactions().last().sent == header(op, address) + zeros(dummy as nat)),
            r is Ok ==> final(buffer)@.len() == old(buffer)@.len(),
            r is Err ==> final(buffer)@ == old(buffer)@,
            r is Err ==> (r == Err::<(), Error>(Error::InvalidSize) && old(buffer)@.len() == 0)
                || r == Err::<(), Error>(Error::Bus),
            final(self).poll_limit() == old(self).poll_limit(),
            old(self).line_released() ==> final(self).line_released(),
    {
        let len = buffer.len();
        if len == 0 {
            return Err(Error::InvalidSize);
        }
        let tx: [u8; 4] = [
            op,
            ((address >> 16u32) & 0xffu32) as u8,
            ((address >> 8u32) & 0xffu32) as u8,
            (address & 0xffu32) as u8,
        ];
        assert(tx@ == header(op, address));
        let data = self.transmit_and_receive(&tx, len, dummy)?;
        let mut i: usize = 0;
        while i < len
            invariant
                len == data@.len(),
                buffer@.len() == len,
                i <= len,
                forall|j: int| 0 <= j < i ==> buffer@[j] == data@[j],
            decreases len - i,
        {
            buffer[i] = data[i];
            i = i + 1;
        }
        assert(buffer@ == data@);
        Ok(())
    }

    /// Fast read of `buffer.len()` bytes from `address`: the opcode, the
    /// address and one dummy byte, then the data.
    fn fast_read(&mut self, address: u32, buffer: &mut [u8]) -> (r: Result<(), Error>)
        ensures
            old(buffer)@.len() == 0 ==> r == Err::<(), Error>(Error::InvalidSize)
                && final(self).transactions() == old(self).transactions(),
            old(buffer)@.len() > 0 ==> final(self).transactions() == old(self).transactions().push(
                final(self).transactions().last(),
            ),
            old(buffer)@.len() > 0 ==> final(self).transactions().last().ok == r is Ok,
            r is Ok ==> final(self).transactions().last() == (Txn {
                sent: header(CMD_FAST_READ, address) + seq![0u8],
                delivered: header(CMD_FAST_READ, address) + seq![0u8],
                received: final(buffer)@,
                ok: true,
                released: true,
            }),
            r == Err::<(), Error>(Error::Bus) ==> final(self).transactions().last().received
                == Seq::<u8>::empty() && (final(self).transactions().last().sent == header(CMD_FAST_READ, address)
                || final(self).transactions().last().sent == header(CMD_FAST_READ, address) + seq![0u8]),
            r is Ok ==> final(buffer)@.len() == old(buffer)@.len(),
            r is Err ==> final(buffer)@ == old(buffer)@,
            r is Err ==> (r == Err::<(), Error>(Error::InvalidSize) && old(buffer)@.len() == 0)
                || r == Err::<(), Error>(Error::Bus),
            final(self).poll_limit() == old(self).poll_limit(),
            old(self).line_released() ==> final(self).line_released(),
    {
        assert(zeros(1) == seq![0u8]);
        self.read_into(CMD_FAST_READ, 1, address, buffer)
    }

    /// Plain read of `buffer.len()` bytes from `address`, with no dummy byte.
    #[allow(dead_code)]
    fn slow_read(&mut self, address: u32, buffer: &mut [u8]) -> (r: Result<(), Error>)
        ensures
            old(buffer)@.len() == 0 ==> r == Err::<(), Error>(Error::InvalidSize)
                && final(self).transactions() == old(self).transactions(),
            old(buffer)@.len() > 0 ==> final(self).transactions() == old(self).transactions().push(
                final(self).transactions().last(),
            ),
            old(buffer)@.len() > 0 ==> final(self).transactions().last().ok == r is Ok,
            r is Ok ==> final(self).transactions().last() == (Txn {
                sent: header(CMD_READ_DATA, address),
                delivered: header(CMD_READ_DATA, address),
                received: final(buffer)@,
                ok: true,
                released: true,
            }),
            r == Err::<(), Error>(Error::Bus) ==> final(self).transactions().last().received
                == Seq::<u8>::empty() && final(self).transactions().last().sent == header(
                CMD_READ_DATA,
                address,
            ),
            r is Ok ==> final(buffer)@.len() == old(buffer)@.len(),
            r is Err ==> final(buffer)@ == old(buffer)@,
            r is Err ==> (r == Err::<(), Error>(Error::InvalidSize) && old(buffer)@.len() == 0)
                || r == Err::<(), Error>(Error::Bus),
            final(self).poll_limit() == old(self).poll_limit(),
            old(self).line_released() ==> final(self).line_released(),
    {
        assert(header(CMD_READ_DATA, address) + zeros(0) == header(CMD_READ_DATA, address));
        self.read_into(CMD_READ_DATA, 0, address, buffer)
    }

    /// Reads `buffer.len()` bytes from `address` into `buffer` in one fast-read
    /// transaction. An empty buffer is refused before any transaction.
    pub fn read(&mut self, address: u32, buffer: &mut [u8]) -> (r: Result<(), Error>)
        ensures
            old(buffer)@.len() == 0 ==> r == Err::<(), Error>(Error::InvalidSize)
                && final(self).transactions() == old(self).transactions(),
            r == Err::<(), Error>(Error::InvalidSize) <==> old(buffer)@.len() == 0,
            old(buffer)@.len() > 0 ==> final(self).transactions() == old(self).transactions().push(
                final(self).transactions().last(),
            ),
            old(buffer)@.len() > 0 ==> final(self).transactions().last().ok == r is Ok,
            r is Ok ==> final(self).transactions().last() == (Txn {
                sent: header(CMD_FAST_READ, address) + seq![0u8],
                delivered: header(CMD_FAST_READ, address) + seq![0u8],
                received: final(buffer)@,
                ok: true,
                released: true,
            }),
            r == Err::<(), Error>(Error::Bus) ==> final(self).transactions().last().received
                == Seq::<u8>::empty() && (final(self).transactions().last().sent == header(CMD_FAST_READ, address)
                || final(self).transactions().last().sent == header(CMD_FAST_READ, address) + seq![0u8]),
            r is Ok ==> final(buffer)@.len() == old(buffer)@.len(),
            r is Err ==> final(buffer)@ == old(buffer)@,
            r is Err ==> (r == Err::<(), Error>(Error::InvalidSize) && old(buffer)@.len() == 0)
                || r == Err::<(), Error>(Error::Bus),
            final(self).poll_limit() == old(self).poll_limit(),
            old(self).line_released() ==> final(self).line_released(),
    {
        self.fast_read(address, buffer)
    }

    /// Erases the whole array: a busy wait, the write-enable handshake, then
    /// the chip-erase command.
    pub fn chip_erase(&mut self) -> (r: Result<(), Error>)
        ensures
            old(self).transactions().is_prefix_of(final(self).transactions()),
            r is Ok ==> guarded(
                final(self).transactions().skip(old(self).transactions().len() as int),
                seq![CMD_CHIP_ERASE],
            ),
            r matches Err(e) ==> (e == Error::Bus || e == Error::WriteEnable || e
                == Error::Timeout) && shows_failure(
                final(self).transactions().skip(old(self).transactions().len() as int),
                e,
                old(self).poll_limit(),
            ),
            mutations_enabled(final(self).transactions().skip(old(self).transactions().len() as int)),
            final(self).poll_limit() == old(self).poll_limit(),
            old(self).line_released() ==> final(self).line_released(),
    {
        let ghost start = self.log@;
        self.busy_wait()?;
        let ghost mid0 = self.log@;
        let enabled = self.write_enable();
        proof {
            lemma_prefix_trans(start, mid0, self.log@);
            lemma_mutations_extend(start, mid0, self.log@);
            if let Err(e) = enabled {
                lemma_shows_failure_extend(start, mid0, self.log@, e, self.poll_limit);
            }
        }
        enabled?;
        let ghost mid1 = self.log@;
        let tx: [u8; 1] = [CMD_CHIP_ERASE];
        assert(tx@ == seq![CMD_CHIP_ERASE]);
        let sent = self.transmit_and_receive(&tx, 0, 0);
        proof {
            assert(tx@ + zeros(0) == seq![CMD_CHIP_ERASE]);
            assert(received_of(sent) =~= Seq::<u8>::empty());
            lemma_prefix_push(mid1, self.log@.last());
            assert(self.log@ == mid1.push(self.log@.last()));
            lemma_prefix_trans(start, mid1, self.log@);
            let tail = self.log@.skip(mid0.len() as int);
            let m = mid1.skip(mid0.len() as int);
            assert(tail == m.push(self.log@.last()));
            assert(tail[0] == m[0]);
            assert(tail[1] == m[1]);
            assert(tail[0] == command(seq![CMD_WRITE_ENABLE]));
            assert forall|j: int| 0 <= j < tail.len() && mutates(#[trigger] tail[j]) implies {
                &&& j >= 2
                &&& tail[j - 2] == command(seq![CMD_WRITE_ENABLE])
                &&& status_poll(tail[j - 1])
                &&& latch_bit(tail[j - 1].received[0])
            } by {
                assert(j == 2);
            }
            lemma_mutations_extend(start, mid0, self.log@);
            if let Err(e) = sent {
                assert(shows_failure(self.log@.skip(mid1.len() as int), e, self.poll_limit));
                lemma_shows_failure_extend(start, mid1, self.log@, e, self.poll_limit);
            }
        }
        let _ = sent?;
        proof {
            lemma_enabled(mid0, mid1, self.log@, seq![CMD_CHIP_ERASE]);
            lemma_guarded_compose(start, mid0, self.log@, seq![CMD_CHIP_ERASE]);
        }
        Ok(())
    }

    /// Software reset: a busy wait, then enable-reset and reset as two
    /// single-byte transactions. The chip acknowledges neither.
    fn reset(&mut self) -> (r: Result<(), Error>)
        ensures
            old(self).transactions().is_prefix_of(final(self).transactions()),
            r is Ok ==> {
                let seg = final(self).transactions().skip(old(self).transactions().len() as int);
                &&& seg.len() >= 3
                &&& ready_polls(seg.take(seg.len() - 2))
                &&& seg[seg.len() - 2] == command(seq![CMD_ENABLE_RESET])
                &&& seg[seg.len() - 1] == command(seq![CMD_RESET])
            },
            r matches Err(e) ==> (e == Error::Bus || e == Error::Timeout) && shows_failure(
                final(self).transactions().skip(old(self).transactions().len() as int),
                e,
                old(self).poll_limit(),
            ),
            final(self).poll_limit() == old(self).poll_limit(),
            old(self).line_released() ==> final(self).line_released(),
    {
        let ghost start = self.log@;
        self.busy_wait()?;
        let ghost mid0 = self.log@;
        let arm: [u8; 1] = [CMD_ENABLE_RESET];
        let first = self.transmit_and_receive(&arm, 0, 0);
        proof {
            assert(arm@ + zeros(0) == seq![CMD_ENABLE_RESET]);
            assert(received_of(first) =~= Seq::<u8>::empty());
            lemma_prefix_push(mid0, self.log@.last());
            assert(self.log@ == mid0.push(self.log@.last()));
            lemma_prefix_trans(start, mid0, self.log@);
            if let Err(e) = first {
                lemma_shows_failure_extend(start, mid0, self.log@, e, self.poll_limit);
            }
        }
        let _ = first?;
        let ghost mid1 = self.log@;
        let go: [u8; 1] = [CMD_RESET];
        let second = self.transmit_and_receive(&go, 0, 0);
        proof {
            assert(go@ + zeros(0) == seq![CMD_RESET]);
            assert(received_of(second) =~= Seq::<u8>::empty());
            lemma_prefix_push(mid1, self.log@.last());
            assert(self.log@ == mid1.push(self.log@.last()));
            lemma_prefix_trans(start, mid1, self.log@);
            if let Err(e) = second {
                lemma_shows_failure_extend(start, mid1, self.log@, e, self.poll_limit);
            }
        }
        let _ = second?;
        proof {
            let seg = self.log@.skip(start.len() as int);
            assert(seg.take(seg.len() - 2) == mid0.skip(start.len() as int));
            assert(seg[seg.len() - 2] == self.log@[mid0.len() as int]);
            assert(self.log@[mid0.len() as int] == mid1[mid0.len() as int]);
        }
        Ok(())
    }

    /// Asks for the manufacturer and device codes (the identification opcode
    /// and four zero placeholder bytes, then two bytes back) and checks them.
    fn read_jedec_register(&mut self) -> (r: Result<(), Error>)
        ensures
            final(self).transactions() == old(self).transactions().push(
                final(self).transactions().last(),
            ),
            final(self).transactions().last().sent == seq![CMD_IDENTIFY, 0u8, 0u8, 0u8, 0u8],
            r is Ok <==> final(self).transactions().last().received == expected_id(),
            r == Err::<(), Error>(Error::IdMismatch) <==> final(self).transactions().last().received.len() == 2 && final(self).transactions().last().received != expected_id(),
            r == Err::<(), Error>(Error::Bus) <==> !final(self).transactions().last().ok,
            r is Err ==> r == Err::<(), Error>(Error::IdMismatch) || r == Err::<(), Error>(
                Error::Bus,
            ),
            final(self).poll_limit() == old(self).poll_limit(),
            old(self).line_released() ==> final(self).line_released(),
    {
        let tx: [u8; 5] = [CMD_IDENTIFY, 0, 0, 0, 0];
        assert(tx@ == seq![CMD_IDENTIFY, 0u8, 0u8, 0u8, 0u8]);
        let got = self.transmit_and_receive(&tx, 2, 0);
        proof {
            assert(tx@ + zeros(0) == seq![CMD_IDENTIFY, 0u8, 0u8, 0u8, 0u8]);
            assert(expected_id().len() == 2);
        }
        let id = got?;
        check_identification(id.as_slice())
    }

    /// Identifies the chip, then resets it. Fails on the first step that fails.
    pub fn init(&mut self) -> (r: Result<(), Error>)
        ensures
            old(self).transactions().is_prefix_of(final(self).transactions()),
            final(self).transactions().len() > old(self).transactions().len(),
            final(self).transactions()[old(self).transactions().len() as int].sent == seq![
                CMD_IDENTIFY,
                0u8,
                0u8,
                0u8,
                0u8,
            ],
            r is Ok ==> final(self).transactions()[old(self).transactions().len() as int].received
                == expected_id(),
            r == Err::<(), Error>(Error::IdMismatch) <==> final(self).transactions()[old(self).transactions().len() as int].received.len() == 2 && final(self).transactions()[old(self).transactions().len() as int].received != expected_id(),
            r == Err::<(), Error>(Error::IdMismatch) ==> final(self).transactions().len() == old(self).transactions().len() + 1,
            r is Ok ==> {
                let seg = final(self).transactions().skip(old(self).transactions().len() + 1int);
                &&& seg.len() >= 3
                &&& ready_polls(seg.take(seg.len() - 2))
                &&& seg[seg.len() - 2] == command(seq![CMD_ENABLE_RESET])
                &&& seg[seg.len() - 1] == command(seq![CMD_RESET])
            },
            r matches Err(e) ==> e == Error::IdMismatch || (e == Error::Bus || e == Error::Timeout)
                && shows_failure(
                final(self).transactions().skip(old(self).transactions().len() as int),
                e,
                old(self).poll_limit(),
            ),
            final(self).poll_limit() == old(self).poll_limit(),
            old(self).line_released() ==> final(self).line_released(),
    {
        let ghost before = self.log@;
        let id = self.read_jedec_register();
        proof {
            lemma_prefix_push(before, self.log@.last());
            if id == Err::<(), Error>(Error::Bus) {
                assert(self.log@.skip(before.len() as int) == seq![self.log@.last()]);
            }
        }
        id?;
        let ghost mid = self.log@;
        let done = self.reset();
        proof {
            lemma_prefix_trans(before, mid, self.log@);
            assert(mid[before.len() as int] == self.log@.subrange(0, mid.len() as int)[before.len() as int]);
            if let Err(e) = done {
                lemma_shows_failure_extend(before, mid, self.log@, e, self.poll_limit);
            }
        }
        done
    }
}

/// One step of `program_frames`: the first chunk, then the frames of the rest.
proof fn lemma_program_frames_unfold(a: nat, d: Seq<u8>)
    requires
        d.len() > 0,
        a + d.len() <= 0x1_0000_0000,
    ensures
        program_frames(a as u32, d) == seq![
            header(CMD_PAGE_PROGRAM, a as u32) + d.take(chunk_len(a, d.len()) as int),
        ] + program_frames((a + chunk_len(a, d.len())) as u32, d.skip(chunk_len(a, d.len()) as int)),
{
    let n = chunk_len(a, d.len());
    let f = |p: (nat, Seq<u8>)| header(CMD_PAGE_PROGRAM, p.0 as u32) + p.1;
    let rest = write_pieces(a + n, d.skip(n as int));
    assert(write_pieces(a, d) == seq![(a, d.take(n as int))] + rest);
    if a + n == 0x1_0000_0000 {
        assert(d.skip(n as int).len() == 0);
        assert(write_pieces(((a + n) as u32) as nat, d.skip(n as int)) == rest);
    }
    assert(program_frames((a + n) as u32, d.skip(n as int)) == rest.map_values(f));
    assert(program_frames(a as u32, d) == (seq![(a, d.take(n as int))] + rest).map_values(f));
    assert((seq![(a, d.take(n as int))] + rest).map_values(f) == seq![f((a, d.take(n as int)))]
        + rest.map_values(f));
}

/// One step of `erase_frames`: the greedy unit at `a`, then the frames of the rest.
proof fn lemma_erase_frames_unfold(a: nat, len: nat)
    requires
        len >= 4096,
        a + len <= 0x1_0000_0000,
    ensures
        erase_frames(a as u32, len) == seq![header(greedy_op(a, len), a as u32)] + erase_frames(
            (a + unit_size(greedy_op(a, len))) as u32,
            (len - unit_size(greedy_op(a, len))) as nat,
        ),
{
    let op = greedy_op(a, len);
    let step = unit_size(op);
    let f = |u: (u8, nat)| header(u.0, u.1 as u32);
    let rest = erase_units(a + step, (len - step) as nat);
    assert(erase_units(a, len) == seq![(op, a)] + rest);
    if a + step == 0x1_0000_0000 {
        assert(erase_units(((a + step) as u32) as nat, (len - step) as nat) == rest);
    }
    assert(erase_frames((a + step) as u32, (len - step) as nat) == rest.map_values(f));
    assert((seq![(op, a)] + rest).map_values(f) == seq![f((op, a))] + rest.map_values(f));
}

} // verus!
