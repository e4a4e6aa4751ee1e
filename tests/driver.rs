use std::cell::RefCell;
use std::collections::VecDeque;
use std::rc::Rc;

use w25qxx::{check_identification, gpio_get_pin, Error, SelectLine, Transceiver, W25qxx};

#[derive(Debug, Clone, PartialEq)]
enum Event {
    Low,
    High,
    Write(Vec<u8>),
    Read(usize),
}

struct Chip {
    events: Vec<Event>,
    status: VecDeque<u8>,
    idle_status: u8,
    id: [u8; 2],
    fail_writes: bool,
    fail_opcode: Option<u8>,
    pauses: usize,
}

type Shared = Rc<RefCell<Chip>>;

struct Spi(Shared);
struct Cs(Shared);

impl Chip {
    /// Bytes written since the last select.
    fn current_command(&self) -> Vec<u8> {
        let mut sent = Vec::new();
        for e in self.events.iter().rev() {
            match e {
                Event::Low => break,
                Event::Write(b) => {
                    let mut b = b.clone();
                    b.extend(sent);
                    sent = b;
                }
                _ => {}
            }
        }
        sent
    }
}

impl Transceiver for Spi {
    fn write(&mut self, bytes: &[u8]) -> Result<(), ()> {
        let mut c = self.0.borrow_mut();
        c.events.push(Event::Write(bytes.to_vec()));
        if c.fail_writes || c.fail_opcode == bytes.first().copied() {
            Err(())
        } else {
            Ok(())
        }
    }

    fn read(&mut self, len: usize) -> Result<Vec<u8>, ()> {
        let mut c = self.0.borrow_mut();
        let cmd = c.current_command();
        c.events.push(Event::Read(len));
        let out = match cmd.first() {
            Some(0x05) => {
                let s = c.status.pop_front().unwrap_or(c.idle_status);
                vec![s; len]
            }
            Some(0x90) => c.id[..len].to_vec(),
            _ => (0..len).map(|i| (i as u8) ^ 0x5A).collect(),
        };
        Ok(out)
    }

    fn wait_poll_interval(&mut self) {
        self.0.borrow_mut().pauses += 1;
    }
}

impl SelectLine for Cs {
    fn set_low(&mut self) {
        self.0.borrow_mut().events.push(Event::Low);
    }

    fn set_high(&mut self) {
        self.0.borrow_mut().events.push(Event::High);
    }
}

fn chip() -> (W25qxx<Spi, Cs>, Shared) {
    let shared = Rc::new(RefCell::new(Chip {
        events: Vec::new(),
        status: VecDeque::new(),
        idle_status: 0x02,
        id: [0xEF, 0x17],
        fail_writes: false,
        fail_opcode: None,
        pauses: 0,
    }));
    let flash = W25qxx::new(Spi(shared.clone()), Cs(shared.clone())).unwrap();
    assert_eq!(shared.borrow().events, vec![Event::High]);
    shared.borrow_mut().events.clear();
    (flash, shared)
}

/// (bytes sent, bytes read) of each transaction between select and release.
fn transactions(shared: &Shared) -> Vec<(Vec<u8>, usize)> {
    let mut out = Vec::new();
    let mut cur: Option<(Vec<u8>, usize)> = None;
    for e in shared.borrow().events.iter() {
        match e {
            Event::Low => cur = Some((Vec::new(), 0)),
            Event::High => out.push(cur.take().expect("release without select")),
            Event::Write(b) => cur.as_mut().expect("write outside a transaction").0.extend(b),
            Event::Read(n) => cur.as_mut().expect("read outside a transaction").1 += n,
        }
    }
    assert!(cur.is_none(), "chip left selected");
    out
}

fn is_mutating(op: u8) -> bool {
    matches!(op, 0x02 | 0x20 | 0x52 | 0xD8 | 0xC7)
}

/// The mutating commands, each checked to follow a write-enable and a status read.
fn mutating(shared: &Shared) -> Vec<Vec<u8>> {
    let txs = transactions(shared);
    let mut out = Vec::new();
    for (i, (sent, _)) in txs.iter().enumerate() {
        if is_mutating(sent[0]) {
            assert!(i >= 2);
            assert_eq!(txs[i - 2], (vec![0x06], 0));
            assert_eq!(txs[i - 1], (vec![0x05], 1));
            out.push(sent.clone());
        }
    }
    out
}

#[test]
fn erase_one_sector_at_zero() {
    let (mut flash, shared) = chip();
    assert_eq!(flash.erase(0, 4096), Ok(()));
    assert_eq!(mutating(&shared), vec![vec![0x20, 0, 0, 0]]);
}

#[test]
fn erase_one_block64_at_zero() {
    let (mut flash, shared) = chip();
    assert_eq!(flash.erase(0, 65536), Ok(()));
    assert_eq!(mutating(&shared), vec![vec![0xD8, 0, 0, 0]]);
}

#[test]
fn erase_one_block32() {
    let (mut flash, shared) = chip();
    assert_eq!(flash.erase(0x8000, 32768), Ok(()));
    assert_eq!(mutating(&shared), vec![vec![0x52, 0x00, 0x80, 0x00]]);
}

#[test]
fn erase_mixed_units_follow_greedy_rule() {
    let (mut flash, shared) = chip();
    assert_eq!(flash.erase(0x7000, 0x1A000), Ok(()));
    assert_eq!(
        mutating(&shared),
        vec![
            vec![0x20, 0x00, 0x70, 0x00],
            vec![0x52, 0x00, 0x80, 0x00],
            vec![0xD8, 0x01, 0x00, 0x00],
            vec![0x20, 0x02, 0x00, 0x00],
        ]
    );
}

#[test]
fn erase_advances_sum_to_length() {
    let (mut flash, shared) = chip();
    let len = 0x3B000usize;
    assert_eq!(flash.erase(0x5000, len), Ok(()));
    let mut next = 0x5000u32;
    let mut total = 0usize;
    for cmd in mutating(&shared) {
        let addr = u32::from_be_bytes([0, cmd[1], cmd[2], cmd[3]]);
        assert_eq!(addr, next);
        let size = match cmd[0] {
            0xD8 => 65536,
            0x52 => 32768,
            0x20 => 4096,
            other => panic!("unexpected opcode {other:#x}"),
        };
        assert_eq!(addr as usize % size, 0);
        total += size;
        next += size as u32;
    }
    assert_eq!(total, len);
}

#[test]
fn erase_zero_length_issues_nothing() {
    let (mut flash, shared) = chip();
    assert_eq!(flash.erase(4096, 0), Ok(()));
    assert!(shared.borrow().events.is_empty());
}

#[test]
fn erase_misaligned_address_is_refused() {
    let (mut flash, shared) = chip();
    assert_eq!(flash.erase(100, 4096), Err(Error::Misaligned));
    assert!(shared.borrow().events.is_empty());
}

#[test]
fn erase_misaligned_length_is_refused() {
    let (mut flash, shared) = chip();
    assert_eq!(flash.erase(4096, 100), Err(Error::Misaligned));
    assert!(shared.borrow().events.is_empty());
}

#[test]
fn erase_past_address_space_is_refused() {
    let (mut flash, shared) = chip();
    assert_eq!(flash.erase(0xFFFF_F000, 0x2000), Err(Error::OutOfRange));
    assert!(shared.borrow().events.is_empty());
}

#[test]
fn erase_up_to_end_of_address_space() {
    let (mut flash, shared) = chip();
    assert_eq!(flash.erase(0xFFFF_F000, 0x1000), Ok(()));
    assert_eq!(mutating(&shared), vec![vec![0x20, 0xFF, 0xF0, 0x00]]);
}

#[test]
fn chip_erase_follows_write_enable() {
    let (mut flash, shared) = chip();
    assert_eq!(flash.chip_erase(), Ok(()));
    assert_eq!(mutating(&shared), vec![vec![0xC7]]);
}

#[test]
fn write_300_bytes_from_zero() {
    let (mut flash, shared) = chip();
    let data: Vec<u8> = (0..300).map(|i| i as u8).collect();
    assert_eq!(flash.write(0, &data), Ok(()));
    let cmds = mutating(&shared);
    assert_eq!(cmds.len(), 2);
    assert_eq!(cmds[0][..4], [0x02, 0, 0, 0]);
    assert_eq!(cmds[0].len() - 4, 256);
    assert_eq!(cmds[1][..4], [0x02, 0x00, 0x01, 0x00]);
    assert_eq!(cmds[1].len() - 4, 44);
    let mut joined = cmds[0][4..].to_vec();
    joined.extend(&cmds[1][4..]);
    assert_eq!(joined, data);
}

#[test]
fn write_never_crosses_a_page() {
    let (mut flash, shared) = chip();
    let data: Vec<u8> = (0..700).map(|i| (i * 7) as u8).collect();
    assert_eq!(flash.write(250, &data), Ok(()));
    let cmds = mutating(&shared);
    // ceil((250 % 256 + 700) / 256) chunks
    assert_eq!(cmds.len(), (250 + 700 + 255) / 256);
    let mut joined: Vec<u8> = Vec::new();
    let mut next = 250u32;
    for cmd in &cmds {
        assert_eq!(cmd[0], 0x02);
        let addr = u32::from_be_bytes([0, cmd[1], cmd[2], cmd[3]]);
        let n = cmd.len() as u32 - 4;
        assert_eq!(addr, next);
        assert!(n >= 1 && n <= 256);
        assert_eq!(addr / 256, (addr + n - 1) / 256);
        joined.extend(&cmd[4..]);
        next += n;
    }
    assert_eq!(cmds[0].len() - 4, 6);
    assert_eq!(joined, data);
}

#[test]
fn write_empty_buffer_issues_nothing() {
    let (mut flash, shared) = chip();
    assert_eq!(flash.write(0x100, &[]), Ok(()));
    assert!(shared.borrow().events.is_empty());
}

#[test]
fn write_past_address_space_is_refused() {
    let (mut flash, shared) = chip();
    assert_eq!(flash.write(0xFFFF_FFFF, &[1, 2]), Err(Error::OutOfRange));
    assert!(shared.borrow().events.is_empty());
}

#[test]
fn read_64_bytes_from_zero() {
    let (mut flash, shared) = chip();
    let mut buf = [0u8; 64];
    assert_eq!(flash.read(0, &mut buf), Ok(()));
    assert_eq!(transactions(&shared), vec![(vec![0x0B, 0, 0, 0, 0], 64)]);
    let expected: Vec<u8> = (0..64).map(|i| (i as u8) ^ 0x5A).collect();
    assert_eq!(buf.to_vec(), expected);
}

#[test]
fn read_sends_address_big_endian() {
    let (mut flash, shared) = chip();
    let mut buf = [0u8; 1000];
    assert_eq!(flash.read(0x0012_3456, &mut buf), Ok(()));
    assert_eq!(transactions(&shared), vec![(vec![0x0B, 0x12, 0x34, 0x56, 0], 1000)]);
}

#[test]
fn read_empty_buffer_is_refused() {
    let (mut flash, shared) = chip();
    let mut buf: [u8; 0] = [];
    assert_eq!(flash.read(0, &mut buf), Err(Error::InvalidSize));
    assert!(shared.borrow().events.is_empty());
}

#[test]
fn init_accepts_expected_identification() {
    let (mut flash, shared) = chip();
    assert_eq!(flash.init(), Ok(()));
    assert_eq!(
        transactions(&shared),
        vec![
            (vec![0x90, 0, 0, 0, 0], 2),
            (vec![0x05], 1),
            (vec![0x66], 0),
            (vec![0x99], 0),
        ]
    );
}

#[test]
fn init_refuses_other_device() {
    let (mut flash, shared) = chip();
    shared.borrow_mut().id = [0xEF, 0x16];
    assert_eq!(flash.init(), Err(Error::IdMismatch));
    assert_eq!(transactions(&shared), vec![(vec![0x90, 0, 0, 0, 0], 2)]);
}

#[test]
fn init_refuses_other_manufacturer() {
    let (mut flash, _shared) = chip();
    _shared.borrow_mut().id = [0xC2, 0x17];
    assert_eq!(flash.init(), Err(Error::IdMismatch));
}

#[test]
fn identification_check() {
    assert_eq!(check_identification(&[0xEF, 0x17]), Ok(()));
    assert_eq!(check_identification(&[0x17, 0xEF]), Err(Error::IdMismatch));
    assert_eq!(check_identification(&[0xEF]), Err(Error::IdMismatch));
    assert_eq!(check_identification(&[0xEF, 0x17, 0x00]), Err(Error::IdMismatch));
}

#[test]
fn busy_wait_polls_until_clear() {
    let (mut flash, shared) = chip();
    shared.borrow_mut().status.extend([0x01, 0x03, 0x00]);
    assert_eq!(flash.erase(0, 4096), Ok(()));
    let txs = transactions(&shared);
    assert_eq!(txs.len(), 6);
    assert_eq!(&txs[..3], &[(vec![0x05], 1), (vec![0x05], 1), (vec![0x05], 1)]);
    assert_eq!(shared.borrow().pauses, 2);
    assert_eq!(mutating(&shared), vec![vec![0x20, 0, 0, 0]]);
}

#[test]
fn busy_wait_times_out() {
    let (mut flash, shared) = chip();
    shared.borrow_mut().idle_status = 0x01;
    flash.set_poll_limit(3);
    assert_eq!(flash.erase(0, 4096), Err(Error::Timeout));
    assert_eq!(transactions(&shared), vec![(vec![0x05], 1); 3]);
}

#[test]
fn write_enable_latch_must_be_set() {
    let (mut flash, shared) = chip();
    shared.borrow_mut().idle_status = 0x00;
    assert_eq!(flash.write(0, &[1, 2, 3]), Err(Error::WriteEnable));
    let txs = transactions(&shared);
    assert!(txs.iter().all(|(sent, _)| !is_mutating(sent[0])));
}

#[test]
fn bus_failure_releases_chip() {
    let (mut flash, shared) = chip();
    shared.borrow_mut().fail_writes = true;
    let mut buf = [0u8; 4];
    assert_eq!(flash.read(0, &mut buf), Err(Error::Bus));
    assert_eq!(buf, [0u8; 4]);
    assert_eq!(shared.borrow().events.last(), Some(&Event::High));
    assert_eq!(transactions(&shared).len(), 1);
}

#[test]
fn pin_table_lookup() {
    assert_eq!(gpio_get_pin(22), 504);
    assert_eq!(gpio_get_pin(1), 508);
    assert_eq!(gpio_get_pin(41), 440);
    assert_eq!(gpio_get_pin(3), 0);
}

#[test]
fn erase_stops_at_unit_whose_latch_fails() {
    let (mut flash, shared) = chip();
    // unit 0: ready, latch set; unit 1: ready, latch set; unit 2: ready, latch clear
    shared.borrow_mut().status.extend([0x00, 0x02, 0x00, 0x02, 0x00, 0x00]);
    assert_eq!(flash.erase(0, 0x3000), Err(Error::WriteEnable));
    assert_eq!(
        mutating(&shared),
        vec![vec![0x20, 0x00, 0x00, 0x00], vec![0x20, 0x00, 0x10, 0x00]]
    );
    let txs = transactions(&shared);
    assert_eq!(&txs[txs.len() - 2..], &[(vec![0x06], 0), (vec![0x05], 1)]);
}

#[test]
fn write_stops_after_bus_failure() {
    let (mut flash, shared) = chip();
    shared.borrow_mut().fail_writes = true;
    assert_eq!(flash.write(0, &[1, 2, 3]), Err(Error::Bus));
    assert_eq!(transactions(&shared), vec![(vec![0x05], 0)]);
}

#[test]
fn program_payload_skipped_after_failed_header() {
    let (mut flash, shared) = chip();
    shared.borrow_mut().fail_opcode = Some(0x02);
    assert_eq!(flash.write(0, &[1, 2, 3]), Err(Error::Bus));
    let txs = transactions(&shared);
    assert_eq!(txs.last(), Some(&(vec![0x02, 0, 0, 0], 0)));
    assert_eq!(shared.borrow().events.last(), Some(&Event::High));
}
