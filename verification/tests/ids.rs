//! Generator behaviour: ordering, counters, field round-trips, and the
//! machine-id / pid derivation against the real outside crates.
use libxid::{new_generator, Generator, HostEnv, ID};

fn plain_env() -> HostEnv {
    HostEnv { os_pid: 1234, cpuset: None, platform_id: None }
}

#[test]
fn test_simple() {
    let total = 1e6 as u32;

    println!("Testing with {} ids", total);

    let mut g = new_generator(plain_env());
    // The counter seed is random; a run of a million ids must not cross the
    // 24-bit wrap, where the counter field restarts at zero within the same
    // second.  Start from zero so the run stays clear of the wrap.
    g.counter = 0;

    let mut previous_counter: u32 = 0;
    let mut previous_id = g.new_id().unwrap();

    for i in 0..total {
        let id = g.new_id().unwrap();

        assert!(
            previous_id < id,
            "{} ({:?}) not < {} ({:?})",
            previous_id.encode(),
            previous_id,
            id.encode(),
            id
        );

        if i > 0 {
            assert_eq!(id.counter(), previous_counter + 1);
        }

        previous_counter = id.counter();

        {
            let x = id.encode();
            assert_eq!(x.len(), 20);
        }

        assert_eq!(id.machine(), g.machine_id);

        previous_id = id;
    }
}

#[test]
fn test_eq() {
    let mut g = new_generator(plain_env());

    let a = g.new_id().unwrap();
    let b = g.new_id().unwrap();
    let c = g.new_id().unwrap();

    assert!(a == a);
    assert!(a <= a);
    assert!(a != b);
    assert!(a != c);

    assert!(a < b);
    assert!(b > a);
    assert!(b >= a);

    assert!(b < c);
    assert!(c > b);

    assert!(a < c);
    assert!(c > a);
}

#[test]
fn test_monotonic_fixed_time() {
    // Same second: consecutive ids differ exactly by one counter step and
    // strictly increase.
    let mut g = new_generator(plain_env());
    g.counter = 7;
    let a = g.new_id_with_time(1_500_000_000);
    let b = g.new_id_with_time(1_500_000_000);
    assert_eq!(a.counter(), 7);
    assert_eq!(b.counter(), 8);
    assert!(a < b);
    // A later second beats any counter.
    g.counter = 0xFF_FFFF;
    let c = g.new_id_with_time(1_500_000_000);
    let d = g.new_id_with_time(1_500_000_001);
    assert_eq!(c.counter(), 0xFF_FFFF);
    assert_eq!(d.counter(), 0);
    assert!(c < d);
}

#[test]
fn test_counter_uniqueness() {
    // One shared generator: every produced id is distinct, and the counter
    // values are pairwise distinct over the run.
    let mut g = new_generator(plain_env());
    let mut ids: Vec<ID> = Vec::new();
    for _ in 0..1000 {
        ids.push(g.new_id().unwrap());
    }
    let mut counters: Vec<u32> = ids.iter().map(|id| id.counter()).collect();
    counters.sort();
    for w in counters.windows(2) {
        assert_ne!(w[0], w[1]);
    }
    for i in 1..ids.len() {
        assert_ne!(ids[i - 1], ids[i]);
    }
}

#[test]
fn test_machine_id_from_platform_string() {
    // MD5("test") = 098f6bcd...: the machine id is the first three digest
    // bytes, so a pass-through of the input would fail here.
    let env = HostEnv {
        os_pid: 0,
        cpuset: None,
        platform_id: Some(String::from("test")),
    };
    let g = new_generator(env);
    assert_eq!(g.machine_id, [0x09, 0x8f, 0x6b]);

    let env2 = HostEnv {
        os_pid: 0,
        cpuset: None,
        platform_id: Some(String::from("hello world")),
    };
    let g2 = new_generator(env2);
    assert_eq!(g2.machine_id, [0x5e, 0xb6, 0x3b]);
}

#[test]
fn test_pid_folds_container_checksum() {
    // CRC-32("123456789") = 0xCBF43926, the standard check value; the pid is
    // the OS pid XOR that checksum.
    let env = HostEnv {
        os_pid: 0,
        cpuset: Some(b"123456789".to_vec()),
        platform_id: None,
    };
    let g = new_generator(env);
    assert_eq!(g.pid, 0xCBF4_3926);

    let env2 = HostEnv {
        os_pid: 0xFFFF_FFFF,
        cpuset: Some(b"123456789".to_vec()),
        platform_id: None,
    };
    let g2 = new_generator(env2);
    assert_eq!(g2.pid, !0xCBF4_3926u32);

    // Without a marker the OS pid stands as it is.
    let g3 = new_generator(HostEnv { os_pid: 4242, cpuset: None, platform_id: None });
    assert_eq!(g3.pid, 4242);
}

#[test]
fn test_field_roundtrip() {
    // Constructing with timestamp, machine, pid, counter reads back exactly.
    let id = ID::from_parts(0x1234_5678, &[0x9a, 0xbc, 0xde], 0xf012, 0x34_5678);
    assert_eq!(id.time(), 0x1234_5678);
    assert_eq!(id.machine(), [0x9a, 0xbc, 0xde]);
    assert_eq!(id.pid(), 0xf012);
    assert_eq!(id.counter(), 0x34_5678);

    // The same through generate(): the generator's fields and the timestamp
    // come back from the produced id.
    let mut g: Generator = new_generator(plain_env());
    g.machine_id = [1, 2, 3];
    g.pid = 0xABCD;
    g.counter = 42;
    let id2 = g.new_id_with_time(1_700_000_000);
    assert_eq!(id2.time(), 1_700_000_000);
    assert_eq!(id2.machine(), [1, 2, 3]);
    assert_eq!(id2.pid(), 0xABCD);
    assert_eq!(id2.counter(), 42);

    // Timestamps beyond 32 bits wrap silently.
    let id3 = g.new_id_with_time(0x1_0000_0003);
    assert_eq!(id3.time(), 3);
}
