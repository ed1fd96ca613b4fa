//! The generator: process-lifetime state (machine id, process id, counter)
//! and the creation of new identifier values from a timestamp.
//!
//! Reads that only the surrounding program can make (the OS pid and the two
//! platform marker files) arrive as plain values in a `HostEnv`; the hostname,
//! the random seed and the clock are drawn here through the trusted wrappers.
use vstd::prelude::*;

verus! {

use crate::id::{ID, pack, time_of, machine_of, pid_of, counter_of};
use crate::trusted::{md5_chars, crc32_of, md5_of_str, crc32, random_bytes3, hostname, unix_now};

/// The system clock reported a time before the Unix epoch.
#[derive(Debug, Clone, Copy, PartialEq, Eq, Structural)]
pub struct ClockError;

/// Facts about the host that the surrounding program reads and hands in:
/// the OS process id and the two optional platform marker files.  A reading
/// that failed is `None`; derivation then degrades, it never fails.
pub struct HostEnv {
    /// The process id the OS reports.
    pub os_pid: u32,
    /// Raw contents of a container-identity marker (such as the process's
    /// cpuset descriptor), where one was readable.
    pub cpuset: Option<Vec<u8>>,
    /// A stable platform hardware/product identifier string (such as a
    /// product UUID), where one was readable and non-empty reads matter.
    pub platform_id: Option<String>,
}

/// The byte view of an optional marker reading.
pub open spec fn marker_bytes(cpuset: Option<Vec<u8>>) -> Option<Seq<u8>> {
    match cpuset {
        Option::None => Option::None,
        Option::Some(buff) => Option::Some(buff@),
    }
}

/// The derived process identifier: the OS pid, folded (XOR) with the CRC-32
/// checksum of the container marker where one was readable, so that
/// containers sharing pid 1 on one host still differ.
pub open spec fn derived_pid(os_pid: u32, cpuset: Option<Seq<u8>>) -> u32 {
    match cpuset {
        Option::None => os_pid,
        Option::Some(buff) => os_pid ^ crc32_of(buff),
    }
}

/// The machine identifier derived from a stable identifier string: the first
/// three bytes of its MD5 digest.
pub open spec fn machine_id_of(s: Seq<char>) -> Seq<u8> {
    md5_chars(s).take(3)
}

/// A generator: fixed machine id and pid, and a counter stepped once per
/// identifier.  Only the low 24 bits of the counter enter an identifier.
pub struct Generator {
    /// Steps by one per identifier; its low 24 bits are the counter field.
    pub counter: u32,
    /// The three machine-identifier bytes, fixed at construction.
    pub machine_id: [u8; 3],
    /// The derived process identifier, fixed at construction; its low 16
    /// bits enter each identifier.
    pub pid: u32,
}

/// A random 24-bit counter seed, so that a restarted process does not reuse
/// the counter values of its predecessor within the same second.
fn seed_counter() -> (c: u32)
    ensures
        c < 0x100_0000,
{
    let b = random_bytes3();
    (b[0] as u32) * 0x1_0000 + (b[1] as u32) * 0x100 + (b[2] as u32)
}

/// Fold the container marker's checksum into the OS pid; without a marker the
/// OS pid stands as it is.
fn derive_pid(os_pid: u32, cpuset: &Option<Vec<u8>>) -> (p: u32)
    ensures
        p == derived_pid(os_pid, marker_bytes(*cpuset)),
{
    match cpuset {
        Option::None => os_pid,
        Option::Some(buff) => {
            let checksum = crc32(buff.as_slice());
            os_pid ^ checksum
        },
    }
}

/// The first three MD5 digest bytes of a chosen identifier string.
fn md5_first3(s: &str) -> (m: [u8; 3])
    ensures
        m@ == machine_id_of(s@),
{
    let digest = md5_of_str(s);
    let m = [digest[0], digest[1], digest[2]];
    proof {
        assert(m@ =~= md5_chars(s@).take(3));
    }
    m
}

/// Derive the machine identifier, first success wins: a non-empty platform
/// identifier string, else a non-empty hostname, else three random bytes.
/// The two string cases hash, so an arbitrary-length stable string folds into
/// the three-byte field.
fn read_machine_id(platform_id: &Option<String>) -> (m: [u8; 3])
    ensures
        platform_id matches Option::Some(s) ==> (s@.len() > 0 ==> m@ == machine_id_of(s@)),
{
    if let Option::Some(s) = platform_id {
        if !s.as_str().is_empty() {
            return md5_first3(s.as_str());
        }
    }
    if let Option::Some(h) = hostname() {
        if !h.as_str().is_empty() {
            return md5_first3(h.as_str());
        }
    }
    random_bytes3()
}

/// Construct a generator from the host facts.  Construction never fails:
/// every unreadable input degrades to the next fallback.
pub fn new_generator(env: HostEnv) -> (g: Generator)
    ensures
        g.counter < 0x100_0000,
        g.pid == derived_pid(env.os_pid, marker_bytes(env.cpuset)),
        env.platform_id matches Option::Some(s) ==> (s@.len() > 0 ==> g.machine_id@
            == machine_id_of(s@)),
{
    Generator {
        counter: seed_counter(),
        machine_id: read_machine_id(&env.platform_id),
        pid: derive_pid(env.os_pid, &env.cpuset),
    }
}

/// How the counter field steps between two back-to-back identifiers: the
/// first carries `c % 2^24` and leaves the counter at `c % 2^24 + 1`, so the
/// second carries one more than the first, modulo 2^24 — the wrap at the
/// 24-bit boundary included.
pub proof fn lemma_counter_wraps(c: u32)
    ensures
        ((c as int) % 0x100_0000 + 1) % 0x100_0000 == ((c as int) + 1) % 0x100_0000,
{
    vstd::arithmetic::div_mod::lemma_small_mod(1, 0x100_0000);
    vstd::arithmetic::div_mod::lemma_add_mod_noop(c as int, 1, 0x100_0000);
}

impl Generator {
    /// Assemble one identifier from a timestamp and step the counter.
    fn generate(&mut self, ts: u64) -> (id: ID)
        ensures
            id@ == pack(
                (((ts as int) % 0x1_0000_0000) as u32),
                old(self).machine_id@,
                (((old(self).pid as int) % 0x1_0000) as u16),
                ((old(self).counter as int) % 0x100_0000) as u32,
            ),
            time_of(id@) == (ts as int) % 0x1_0000_0000,
            machine_of(id@) == old(self).machine_id@,
            pid_of(id@) == (old(self).pid as int) % 0x1_0000,
            counter_of(id@) == (old(self).counter as int) % 0x100_0000,
            final(self).counter as int == (old(self).counter as int) % 0x100_0000 + 1,
            final(self).machine_id == old(self).machine_id,
            final(self).pid == old(self).pid,
    {
        let t: u32 = (ts % 0x1_0000_0000) as u32;
        let c: u32 = self.counter % 0x100_0000;
        let p: u16 = (self.pid % 0x1_0000) as u16;
        let id = ID::from_parts(t, &self.machine_id, p, c);
        self.counter = c + 1;
        id
    }

    /// A new identifier for the current wall-clock time.  Fails only when the
    /// clock reads before the Unix epoch; the generator is left unchanged
    /// then, and a later call may succeed.
    pub fn new_id(&mut self) -> (r: Result<ID, ClockError>)
        ensures
            r matches Ok(id) ==> {
                &&& exists|t: u32|
                    id@ == #[trigger] pack(
                        t,
                        old(self).machine_id@,
                        (((old(self).pid as int) % 0x1_0000) as u16),
                        ((old(self).counter as int) % 0x100_0000) as u32,
                    )
                &&& machine_of(id@) == old(self).machine_id@
                &&& pid_of(id@) == (old(self).pid as int) % 0x1_0000
                &&& counter_of(id@) == (old(self).counter as int) % 0x100_0000
                &&& final(self).counter as int == (old(self).counter as int) % 0x100_0000 + 1
                &&& final(self).machine_id == old(self).machine_id
                &&& final(self).pid == old(self).pid
            },
            r is Err ==> *final(self) == *old(self),
    {
        match unix_now() {
            Option::Some(secs) => {
                let id = self.generate(secs);
                proof {
                    assert(id@ == pack(
                        (((secs as int) % 0x1_0000_0000) as u32),
                        old(self).machine_id@,
                        (((old(self).pid as int) % 0x1_0000) as u16),
                        ((old(self).counter as int) % 0x100_0000) as u32,
                    ));
                }
                Ok(id)
            },
            Option::None => Err(ClockError),
        }
    }

    /// A new identifier for an explicit timestamp (seconds since the Unix
    /// epoch).  Infallible; seconds beyond 32 bits wrap silently, as the
    /// binary format fixes.
    pub fn new_id_with_time(&mut self, secs: u64) -> (id: ID)
        ensures
            id@ == pack(
                (((secs as int) % 0x1_0000_0000) as u32),
                old(self).machine_id@,
                (((old(self).pid as int) % 0x1_0000) as u16),
                ((old(self).counter as int) % 0x100_0000) as u32,
            ),
            time_of(id@) == (secs as int) % 0x1_0000_0000,
            machine_of(id@) == old(self).machine_id@,
            pid_of(id@) == (old(self).pid as int) % 0x1_0000,
            counter_of(id@) == (old(self).counter as int) % 0x100_0000,
            final(self).counter as int == (old(self).counter as int) % 0x100_0000 + 1,
            final(self).machine_id == old(self).machine_id,
            final(self).pid == old(self).pid,
    {
        self.generate(secs)
    }
}

} // verus!
