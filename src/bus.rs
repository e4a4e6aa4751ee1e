//! The two capabilities the driver is built on, and the vocabulary in which
//! its contracts describe what it puts on the bus.
use vstd::prelude::*;
use crate::layout::{
    CMD_BLOCK32_ERASE, CMD_BLOCK64_ERASE, CMD_CHIP_ERASE, CMD_PAGE_PROGRAM, CMD_READ_STATUS1,
    CMD_SECTOR_ERASE, CMD_WRITE_ENABLE, STATUS_BUSY, STATUS_WRITE_ENABLE,
};

verus! {

/// A byte transceiver on the serial bus.
pub trait Transceiver {
    /// Clocks out `bytes`.
    fn write(&mut self, bytes: &[u8]) -> Result<(), ()>;

    /// Clocks in `len` bytes.
    fn read(&mut self, len: usize) -> Result<Vec<u8>, ()>;

    /// Waits one poll interval (about a millisecond) before the next status read.
    fn wait_poll_interval(&mut self);
}

/// The chip-select output: the chip listens while the line is low.
pub trait SelectLine {
    /// Selects the chip.
    fn set_low(&mut self);

    /// Releases the chip.
    fn set_high(&mut self);
}

/// One transaction: the bytes the driver handed to the transceiver while the
/// chip was selected, those of them whose write calls succeeded, the bytes it
/// received back, whether every transceiver call in it succeeded, and whether
/// the chip was released after it.
pub struct Txn {
    pub sent: Seq<u8>,
    pub delivered: Seq<u8>,
    pub received: Seq<u8>,
    pub ok: bool,
    pub released: bool,
}

/// `n` zero bytes.
pub open spec fn zeros(n: nat) -> Seq<u8> {
    Seq::new(n, |i: int| 0u8)
}

/// A 24-bit address, most significant byte first.
pub open spec fn address_bytes(a: u32) -> Seq<u8> {
    seq![((a >> 16u32) & 0xffu32) as u8, ((a >> 8u32) & 0xffu32) as u8, (a & 0xffu32) as u8]
}

/// An opcode followed by its address.
pub open spec fn header(op: u8, a: u32) -> Seq<u8> {
    seq![op] + address_bytes(a)
}

/// A transaction that sent `cmd`, received nothing, and succeeded.
pub open spec fn command(cmd: Seq<u8>) -> Txn {
    Txn { sent: cmd, delivered: cmd, received: seq![], ok: true, released: true }
}

/// A read of status register 1 that succeeded and returned its byte.
pub open spec fn status_poll(t: Txn) -> bool {
    t.sent == seq![CMD_READ_STATUS1] && t.ok && t.received.len() == 1
}

/// Status polls that all succeeded and all read busy.
pub open spec fn busy_polls(ts: Seq<Txn>) -> bool {
    forall|i: int| 0 <= i < ts.len() ==> status_poll(#[trigger] ts[i]) && busy_bit(ts[i].received[0])
}

/// The busy bit of a status-register-1 value.
pub open spec fn busy_bit(s: u8) -> bool {
    s & STATUS_BUSY != 0
}

/// The write-enable-latch bit of a status-register-1 value.
pub open spec fn latch_bit(s: u8) -> bool {
    s & STATUS_WRITE_ENABLE != 0
}

/// A busy wait that ended: status polls, all of them busy but the last.
pub open spec fn ready_polls(ts: Seq<Txn>) -> bool {
    &&& ts.len() >= 1
    &&& forall|i: int|
        0 <= i < ts.len() ==> status_poll(#[trigger] ts[i]) && (busy_bit(ts[i].received[0]) <==> i
            < ts.len() - 1)
}

/// The write-enable command, then a status poll that saw the latch set, then `cmd`.
pub open spec fn enabled_then(ts: Seq<Txn>, cmd: Seq<u8>) -> bool {
    &&& ts.len() == 3
    &&& ts[0] == command(seq![CMD_WRITE_ENABLE])
    &&& status_poll(ts[1])
    &&& latch_bit(ts[1].received[0])
    &&& ts[2] == command(cmd)
}

/// A mutating command as the chip requires it: a busy wait until ready, the
/// write-enable handshake, then the command `cmd` itself.
pub open spec fn guarded(ts: Seq<Txn>, cmd: Seq<u8>) -> bool {
    &&& ts.len() >= 4
    &&& ready_polls(ts.take(ts.len() - 3))
    &&& enabled_then(ts.skip(ts.len() - 3), cmd)
}

/// `ts` is a run of guarded commands sending `cmds`, one after the other.
pub open spec fn guarded_run(ts: Seq<Txn>, cmds: Seq<Seq<u8>>) -> bool {
    exists|segs: Seq<Seq<Txn>>|
        #![trigger segs.flatten()]
        segs.len() == cmds.len() && segs.flatten() == ts && forall|i: int|
            0 <= i < segs.len() ==> guarded(#[trigger] segs[i], cmds[i])
}

/// A transaction that programs or erases.
pub open spec fn mutates(t: Txn) -> bool {
    t.sent.len() > 0 && {
        let op = t.sent[0];
        op == CMD_PAGE_PROGRAM || op == CMD_SECTOR_ERASE || op == CMD_BLOCK32_ERASE || op
            == CMD_BLOCK64_ERASE || op == CMD_CHIP_ERASE
    }
}

/// Each transaction at `j` that programs or erases comes right after the
/// write-enable command and a status poll that saw the latch set.
pub open spec fn mutations_enabled(ts: Seq<Txn>) -> bool {
    forall|j: int|
        0 <= j < ts.len() && mutates(#[trigger] ts[j]) ==> {
            &&& j >= 2
            &&& ts[j - 2] == command(seq![CMD_WRITE_ENABLE])
            &&& status_poll(ts[j - 1])
            &&& latch_bit(ts[j - 1].received[0])
        }
}

/// In a run of guarded commands, whatever the commands are, every transaction
/// that programs or erases is immediately preceded by the write-enable command
/// and by a status read that found the write-enable latch set.
pub proof fn lemma_guarded_run_enabled(ts: Seq<Txn>, cmds: Seq<Seq<u8>>)
    requires
        guarded_run(ts, cmds),
    ensures
        mutations_enabled(ts),
{
    let segs = choose|segs: Seq<Seq<Txn>>|
        #![trigger segs.flatten()]
        segs.len() == cmds.len() && segs.flatten() == ts && forall|i: int|
            0 <= i < segs.len() ==> guarded(#[trigger] segs[i], cmds[i]);
    lemma_segments_enabled(segs, cmds);
}

proof fn lemma_segments_enabled(segs: Seq<Seq<Txn>>, cmds: Seq<Seq<u8>>)
    requires
        segs.len() == cmds.len(),
        forall|i: int| 0 <= i < segs.len() ==> guarded(#[trigger] segs[i], cmds[i]),
    ensures
        mutations_enabled(segs.flatten()),
    decreases segs.len(),
{
    broadcast use Seq::lemma_flatten_push;

    if segs.len() > 0 {
        let init = segs.drop_last();
        let seg = segs.last();
        assert(segs == init.push(seg));
        assert forall|i: int| 0 <= i < init.len() implies guarded(
            #[trigger] init[i],
            cmds.drop_last()[i],
        ) by {
            assert(init[i] == segs[i]);
        }
        lemma_segments_enabled(init, cmds.drop_last());
        let f = init.flatten();
        let ts = segs.flatten();
        assert(ts == f + seg);
        assert(guarded(seg, cmds.last()));
        let n = seg.len();
        assert forall|j: int| 0 <= j < ts.len() && mutates(#[trigger] ts[j]) implies {
            &&& j >= 2
            &&& ts[j - 2] == command(seq![CMD_WRITE_ENABLE])
            &&& status_poll(ts[j - 1])
            &&& latch_bit(ts[j - 1].received[0])
        } by {
            if j < f.len() {
                assert(ts[j] == f[j]);
                assert(ts[j - 2] == f[j - 2]);
                assert(ts[j - 1] == f[j - 1]);
            } else {
                let p = j - f.len();
                assert(ts[j] == seg[p]);
                if p < n - 3 {
                    assert(seg[p] == seg.take(n - 3)[p]);
                } else if p < n - 1 {
                    assert(seg[p] == seg.skip(n - 3)[p - (n - 3)]);
                } else {
                    assert(ts[j - 2] == seg.skip(n - 3)[0]);
                    assert(ts[j - 1] == seg.skip(n - 3)[1]);
                }
            }
        }
    } else {
        assert(segs.flatten() == Seq::<Txn>::empty());
    }
}

/// Two logs in which programs and erases follow the handshake make one.
pub proof fn lemma_mutations_concat(a: Seq<Txn>, b: Seq<Txn>)
    requires
        mutations_enabled(a),
        mutations_enabled(b),
    ensures
        mutations_enabled(a + b),
{
    let ts = a + b;
    assert forall|j: int| 0 <= j < ts.len() && mutates(#[trigger] ts[j]) implies {
        &&& j >= 2
        &&& ts[j - 2] == command(seq![CMD_WRITE_ENABLE])
        &&& status_poll(ts[j - 1])
        &&& latch_bit(ts[j - 1].received[0])
    } by {
        if j < a.len() {
            assert(ts[j] == a[j]);
            assert(ts[j - 2] == a[j - 2]);
            assert(ts[j - 1] == a[j - 1]);
        } else {
            let k = j - a.len();
            assert(ts[j] == b[k]);
            assert(mutates(b[k]));
            assert(ts[j - 2] == b[k - 2]);
            assert(ts[j - 1] == b[k - 1]);
        }
    }
}

/// The log after `a` splits at `b` into what came before and after `b`, and
/// programs and erases follow the handshake in it when they do in both parts.
pub proof fn lemma_mutations_extend(a: Seq<Txn>, b: Seq<Txn>, c: Seq<Txn>)
    requires
        a.is_prefix_of(b),
        b.is_prefix_of(c),
        mutations_enabled(b.skip(a.len() as int)),
        mutations_enabled(c.skip(b.len() as int)),
    ensures
        mutations_enabled(c.skip(a.len() as int)),
{
    assert(c.skip(a.len() as int) == b.skip(a.len() as int) + c.skip(b.len() as int));
    lemma_mutations_concat(b.skip(a.len() as int), c.skip(b.len() as int));
}

/// Being a prefix is transitive.
pub proof fn lemma_prefix_trans(a: Seq<Txn>, b: Seq<Txn>, c: Seq<Txn>)
    requires
        a.is_prefix_of(b),
        b.is_prefix_of(c),
    ensures
        a.is_prefix_of(c),
{
    assert(a =~= c.subrange(0, a.len() as int));
}

/// A log is a prefix of itself with one more transaction.
pub proof fn lemma_prefix_push(a: Seq<Txn>, t: Txn)
    ensures
        a.is_prefix_of(a.push(t)),
{
    assert(a =~= a.push(t).subrange(0, a.len() as int));
}

/// A log is a prefix of itself followed by anything.
pub proof fn lemma_prefix_concat(a: Seq<Txn>, b: Seq<Txn>)
    ensures
        a.is_prefix_of(a + b),
        (a + b).skip(a.len() as int) == b,
{
    assert(a =~= (a + b).subrange(0, a.len() as int));
    assert((a + b).skip(a.len() as int) =~= b);
}

/// The write-enable command, a poll that saw the latch set, and one more
/// command make up `enabled_then`.
pub proof fn lemma_enabled(before: Seq<Txn>, mid: Seq<Txn>, after: Seq<Txn>, cmd: Seq<u8>)
    requires
        before.is_prefix_of(mid),
        mid.len() == before.len() + 2,
        mid[before.len() as int] == command(seq![CMD_WRITE_ENABLE]),
        status_poll(mid.last()),
        latch_bit(mid.last().received[0]),
        after == mid.push(command(cmd)),
    ensures
        before.is_prefix_of(after),
        enabled_then(after.skip(before.len() as int), cmd),
{
    lemma_prefix_push(mid, command(cmd));
    lemma_prefix_trans(before, mid, after);
    let seg = after.skip(before.len() as int);
    assert(seg[0] == mid[before.len() as int]);
    assert(seg[1] == mid.last());
}

/// A busy wait followed by polls, a write-enable handshake and a command is a
/// guarded command.
pub proof fn lemma_guarded_compose(a: Seq<Txn>, b: Seq<Txn>, c: Seq<Txn>, cmd: Seq<u8>)
    requires
        a.is_prefix_of(b),
        ready_polls(b.skip(a.len() as int)),
        b.is_prefix_of(c),
        enabled_then(c.skip(b.len() as int), cmd),
    ensures
        a.is_prefix_of(c),
        guarded(c.skip(a.len() as int), cmd),
{
    let seg = c.skip(a.len() as int);
    assert(seg.take(seg.len() - 3) == b.skip(a.len() as int));
    assert(seg.skip(seg.len() - 3) == c.skip(b.len() as int));
}

/// Extending a guarded run by one more guarded command.
pub proof fn lemma_guarded_run_push(
    start: Seq<Txn>,
    segs: Seq<Seq<Txn>>,
    cmds: Seq<Seq<u8>>,
    mid: Seq<Txn>,
    last: Seq<Txn>,
    cmd: Seq<u8>,
)
    requires
        segs.len() == cmds.len(),
        mid == start + segs.flatten(),
        forall|i: int| 0 <= i < segs.len() ==> guarded(#[trigger] segs[i], cmds[i]),
        mid.is_prefix_of(last),
        guarded(last.skip(mid.len() as int), cmd),
    ensures
        last == start + segs.push(last.skip(mid.len() as int)).flatten(),
        forall|i: int|
            0 <= i < segs.len() + 1 ==> guarded(
                #[trigger] segs.push(last.skip(mid.len() as int))[i],
                cmds.push(cmd)[i],
            ),
{
    broadcast use Seq::lemma_flatten_push;

    let seg = last.skip(mid.len() as int);
    assert(last == mid + seg);
    assert(segs.push(seg).flatten() == segs.flatten() + seg);
    assert(last == start + segs.push(seg).flatten());
    assert forall|i: int| 0 <= i < segs.len() + 1 implies guarded(
        #[trigger] segs.push(seg)[i],
        cmds.push(cmd)[i],
    ) by {
        if i < segs.len() {
            assert(segs.push(seg)[i] == segs[i]);
            assert(cmds.push(cmd)[i] == cmds[i]);
        }
    }
}

} // verus!
